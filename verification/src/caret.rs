//! Caret motion in logical order: by grapheme cluster, by word, to the edges
//! of the document, and the range that a delete key removes.

use crate::common::{
    law_order_flips, law_order_reflexive, pos_order, top_pos, BlockPath, LogicalPos, PathStep, Pos,
};
use crate::document::{
    byte_len, doc_paths, last_top_para, len_at, para_at, text_len, Block, DocumentTree, Paragraph,
};
use crate::segment::{
    first_above, first_start_above, grapheme_offsets, grapheme_starts, last_below,
    last_start_below, law_back_and_on_returns, law_first_above,
    law_on_and_back_returns, law_steps_fall_between_characters, segment_starts,
    word_starts, word_starts_of,
};
use crate::walk::{
    blocks_fit, doc_paragraph_neighbor, law_neighbor_order, law_neighbor_round_trip, neighbor_path,
};
use vstd::prelude::*;
use vstd::utf8::{
    encode_utf8, encode_utf8_valid_utf8, is_char_boundary, is_char_boundary_start_end_of_seq,
};

verus! {

/// The neighbouring paragraph's path, where it leads to a paragraph.
pub open spec fn neighbor_para(blocks: Seq<Block>, path: Seq<PathStep>, forward: bool) -> Option<
    (Seq<PathStep>, Paragraph),
> {
    match neighbor_path(blocks, path, forward) {
        Some(q) => match para_at(blocks, q) {
            Some(p) => Some((q, p)),
            None => None,
        },
        None => None,
    }
}

/// The end of the preceding paragraph; `pos` itself at the document start.
pub open spec fn end_of_previous(blocks: Seq<Block>, pos: Pos) -> Pos {
    match neighbor_para(blocks, pos.path, false) {
        Some((q, p)) => Pos { path: q, offset: text_len(p.text@) as u32 },
        None => pos,
    }
}

/// The start of the following paragraph; `pos` itself at the document end.
pub open spec fn start_of_next(blocks: Seq<Block>, pos: Pos) -> Pos {
    match neighbor_para(blocks, pos.path, true) {
        Some((q, _)) => Pos { path: q, offset: 0 },
        None => pos,
    }
}

/// A position in the document: a paragraph, and an offset of its text that
/// falls between characters.
pub open spec fn between_characters(blocks: Seq<Block>, pos: Pos) -> bool {
    para_at(blocks, pos.path) matches Some(p) && pos.offset <= text_len(p.text@)
        && is_char_boundary(encode_utf8(p.text@), pos.offset as int)
}

/// A step from a paragraph leads to a position in the document, unless it
/// leads to a text too long for its offsets.
pub open spec fn lands(blocks: Seq<Block>, pos: Pos, next: Pos) -> bool {
    addressable(blocks, pos.path) && pos.offset <= len_at(blocks, pos.path) && addressable(
        blocks,
        next.path,
    ) ==> between_characters(blocks, next)
}

/// The paragraph that a step over a paragraph's edge leads to.
spec fn edge_path(blocks: Seq<Block>, pos: Pos, forward: bool) -> Seq<PathStep> {
    match neighbor_para(blocks, pos.path, forward) {
        Some((q, _)) => q,
        None => pos.path,
    }
}

proof fn lemma_ends_are_boundaries(text: Seq<char>)
    ensures
        is_char_boundary(encode_utf8(text), 0),
        is_char_boundary(encode_utf8(text), text_len(text) as int),
{
    encode_utf8_valid_utf8(text);
    is_char_boundary_start_end_of_seq(encode_utf8(text));
}

fn to_end_of_previous(doc: &DocumentTree, pos: LogicalPos) -> (r: LogicalPos)
    ensures
        r@ == end_of_previous(doc.blocks@, pos@),
        pos.offset == 0 ==> lands(doc.blocks@, pos@, r@),
{
    proof {
        match para_at(doc.blocks@, edge_path(doc.blocks@, pos@, false)) {
            Some(p) => lemma_ends_are_boundaries(p.text@),
            None => {},
        }
    }
    match doc_paragraph_neighbor(doc, &pos.path, false) {
        Some((path, p)) => LogicalPos { path, offset: p.len32() },
        None => pos,
    }
}

fn to_start_of_next(doc: &DocumentTree, pos: LogicalPos) -> (r: LogicalPos)
    ensures
        r@ == start_of_next(doc.blocks@, pos@),
        pos.offset >= len_at(doc.blocks@, pos.path@) ==> lands(doc.blocks@, pos@, r@),
{
    proof {
        match para_at(doc.blocks@, edge_path(doc.blocks@, pos@, true)) {
            Some(p) => lemma_ends_are_boundaries(p.text@),
            None => {},
        }
    }
    match doc_paragraph_neighbor(doc, &pos.path, true) {
        Some((path, _)) => LogicalPos { path, offset: 0 },
        None => pos,
    }
}

proof fn lemma_search_lands(starts: Seq<usize>, text: Seq<char>, off: int)
    requires
        segment_starts(starts, text),
    ensures
        text_len(text) <= u32::MAX ==> {
            let before = last_start_below(starts, off) as u32;
            let after = first_start_above(starts, off, text_len(text) as usize) as u32;
            &&& before <= text_len(text)
            &&& after <= text_len(text)
            &&& is_char_boundary(encode_utf8(text), before as int)
            &&& is_char_boundary(encode_utf8(text), after as int)
        },
{
    if text_len(text) <= u32::MAX {
        law_steps_fall_between_characters(starts, text, off, text_len(text) as usize);
    }
}

/// One grapheme cluster back from `pos`.
pub open spec fn left_of(blocks: Seq<Block>, pos: Pos) -> Pos {
    match para_at(blocks, pos.path) {
        Some(p) => if pos.offset > 0 {
            Pos {
                path: pos.path,
                offset: last_start_below(grapheme_starts(p.text@), pos.offset as int) as u32,
            }
        } else {
            end_of_previous(blocks, pos)
        },
        None => pos,
    }
}

/// Step one grapheme cluster backward. At a paragraph's start the caret goes
/// to the end of the preceding paragraph; at the document's start it stays.
pub fn step_left(doc: &DocumentTree, pos: LogicalPos) -> (r: LogicalPos)
    ensures
        r@ == left_of(doc.blocks@, pos@),
        lands(doc.blocks@, pos@, r@),
        blocks_fit(doc.blocks@) && at_cluster_edge(doc.blocks@, pos@) && addressable(
            doc.blocks@,
            r.path@,
        ) && r@ != pos@ ==> right_of(doc.blocks@, r@) == pos@,
{
    match doc.paragraph_at_path(&pos.path) {
        Some(p) => {
            let ghost undone = blocks_fit(doc.blocks@) && at_cluster_edge(doc.blocks@, pos@)
                && addressable(doc.blocks@, left_of(doc.blocks@, pos@).path) && left_of(
                doc.blocks@,
                pos@,
            ) != pos@;
            if pos.offset > 0 {
                let starts = grapheme_offsets(p.text.as_str());
                proof {
                    if undone {
                        law_left_then_right_returns(doc.blocks@, pos@);
                    }
                    lemma_search_lands(starts@, p.text@, pos.offset as int);
                }
                let target: usize = last_below(&starts, pos.offset as usize);
                LogicalPos { path: pos.path, offset: target as u32 }
            } else {
                proof {
                    if undone {
                        law_left_then_right_returns(doc.blocks@, pos@);
                    }
                }
                to_end_of_previous(doc, pos)
            }
        },
        None => pos,
    }
}

/// `next` comes after `pos` in document order, inside the same paragraph when
/// `pos` is not at its end; it is `pos` itself only at the end of the last
/// paragraph.
pub open spec fn goes_on(blocks: Seq<Block>, pos: Pos, next: Pos) -> bool {
    &&& pos_order(pos, next) <= 0
    &&& pos.offset < len_at(blocks, pos.path) ==> next.path == pos.path && pos.offset < next.offset
        <= len_at(blocks, pos.path)
    &&& next == pos <==> pos.offset == len_at(blocks, pos.path) && neighbor_para(
        blocks,
        pos.path,
        true,
    ) is None
}

/// One grapheme cluster on from `pos`.
pub open spec fn right_of(blocks: Seq<Block>, pos: Pos) -> Pos {
    match para_at(blocks, pos.path) {
        Some(p) => if pos.offset < text_len(p.text@) {
            Pos {
                path: pos.path,
                offset: first_start_above(
                    grapheme_starts(p.text@),
                    pos.offset as int,
                    text_len(p.text@) as usize,
                ) as u32,
            }
        } else {
            start_of_next(blocks, pos)
        },
        None => pos,
    }
}

/// Step one grapheme cluster forward. At a paragraph's end the caret goes to
/// the start of the following paragraph; at the document's end it stays.
pub fn step_right(doc: &DocumentTree, pos: LogicalPos) -> (r: LogicalPos)
    ensures
        r@ == right_of(doc.blocks@, pos@),
        lands(doc.blocks@, pos@, r@),
        blocks_fit(doc.blocks@) && addressable(doc.blocks@, pos.path@) && pos.offset <= len_at(
            doc.blocks@,
            pos.path@,
        ) ==> goes_on(doc.blocks@, pos@, r@),
        blocks_fit(doc.blocks@) && at_cluster_edge(doc.blocks@, pos@) && r@ != pos@ ==> left_of(
            doc.blocks@,
            r@,
        ) == pos@,
{
    proof {
        law_order_reflexive(pos.path@);
        if blocks_fit(doc.blocks@) && addressable(doc.blocks@, pos.path@) {
            lemma_next_is_after(doc.blocks@, pos@);
        }
    }
    match doc.paragraph_at_path(&pos.path) {
        Some(p) => {
            let len: usize = byte_len(p.text.as_str());
            let ghost undone = blocks_fit(doc.blocks@) && at_cluster_edge(doc.blocks@, pos@)
                && right_of(doc.blocks@, pos@) != pos@;
            if (pos.offset as usize) < len {
                let starts = grapheme_offsets(p.text.as_str());
                proof {
                    if undone {
                        law_right_then_left_returns(doc.blocks@, pos@);
                    }
                    law_first_above(starts@, p.text@, pos.offset as int, len);
                    lemma_search_lands(starts@, p.text@, pos.offset as int);
                }
                let target: usize = first_above(&starts, pos.offset as usize, len);
                LogicalPos { path: pos.path, offset: target as u32 }
            } else {
                proof {
                    if undone {
                        law_right_then_left_returns(doc.blocks@, pos@);
                    }
                }
                to_start_of_next(doc, pos)
            }
        },
        None => pos,
    }
}

/// The smaller of an offset and the length of a text.
pub open spec fn capped(offset: u32, text: Seq<char>) -> int {
    if offset <= text_len(text) {
        offset as int
    } else {
        text_len(text) as int
    }
}

/// One word back from `pos`.
pub open spec fn word_left_of(blocks: Seq<Block>, pos: Pos) -> Pos {
    match para_at(blocks, pos.path) {
        Some(p) => {
            let off = capped(pos.offset, p.text@);
            if off == 0 {
                end_of_previous(blocks, pos)
            } else {
                Pos {
                    path: pos.path,
                    offset: last_start_below(word_starts_of(p.text@), off) as u32,
                }
            }
        },
        None => pos,
    }
}

/// Jump to the start of the word before `pos`. At a paragraph's start the
/// caret goes to the end of the preceding paragraph; at the document's start
/// it stays.
pub fn step_word_left(doc: &DocumentTree, pos: LogicalPos) -> (r: LogicalPos)
    ensures
        r@ == word_left_of(doc.blocks@, pos@),
        lands(doc.blocks@, pos@, r@),
{
    match doc.paragraph_at_path(&pos.path) {
        Some(p) => {
            let len: usize = byte_len(p.text.as_str());
            let off: usize = if pos.offset as usize <= len {
                pos.offset as usize
            } else {
                len
            };
            if off == 0 {
                to_end_of_previous(doc, pos)
            } else {
                let starts = word_starts(p.text.as_str());
                proof {
                    lemma_search_lands(starts@, p.text@, off as int);
                }
                let target: usize = last_below(&starts, off);
                LogicalPos { path: pos.path, offset: target as u32 }
            }
        },
        None => pos,
    }
}

/// One word on from `pos`.
pub open spec fn word_right_of(blocks: Seq<Block>, pos: Pos) -> Pos {
    match para_at(blocks, pos.path) {
        Some(p) => if pos.offset < text_len(p.text@) {
            Pos {
                path: pos.path,
                offset: first_start_above(
                    word_starts_of(p.text@),
                    pos.offset as int,
                    text_len(p.text@) as usize,
                ) as u32,
            }
        } else {
            start_of_next(blocks, pos)
        },
        None => pos,
    }
}

/// Jump to the start of the word after `pos`, or to the paragraph's end when
/// no word follows. At a paragraph's end the caret goes to the start of the
/// following paragraph; at the document's end it stays.
pub fn step_word_right(doc: &DocumentTree, pos: LogicalPos) -> (r: LogicalPos)
    ensures
        r@ == word_right_of(doc.blocks@, pos@),
        lands(doc.blocks@, pos@, r@),
        blocks_fit(doc.blocks@) && addressable(doc.blocks@, pos.path@) && pos.offset <= len_at(
            doc.blocks@,
            pos.path@,
        ) ==> goes_on(doc.blocks@, pos@, r@),
{
    proof {
        law_order_reflexive(pos.path@);
        if blocks_fit(doc.blocks@) && addressable(doc.blocks@, pos.path@) {
            lemma_next_is_after(doc.blocks@, pos@);
        }
    }
    match doc.paragraph_at_path(&pos.path) {
        Some(p) => {
            let len: usize = byte_len(p.text.as_str());
            if (pos.offset as usize) < len {
                let starts = word_starts(p.text.as_str());
                proof {
                    law_first_above(starts@, p.text@, pos.offset as int, len);
                    lemma_search_lands(starts@, p.text@, pos.offset as int);
                }
                let target: usize = first_above(&starts, pos.offset as usize, len);
                LogicalPos { path: pos.path, offset: target as u32 }
            } else {
                to_start_of_next(doc, pos)
            }
        },
        None => pos,
    }
}

/// The path of the last top-level paragraph, or of the first block when there
/// is none.
pub open spec fn last_path(blocks: Seq<Block>) -> Seq<PathStep> {
    match last_top_para(blocks, blocks.len()) {
        Some(i) => seq![PathStep::Block { idx: i as u32 }],
        None => seq![PathStep::Block { idx: 0 }],
    }
}

/// The end of the last top-level paragraph.
pub open spec fn doc_end(blocks: Seq<Block>) -> Pos {
    Pos { path: last_path(blocks), offset: len_at(blocks, last_path(blocks)) }
}

/// The end of the document: the end of its last top-level paragraph.
pub fn document_end(doc: &DocumentTree) -> (r: LogicalPos)
    ensures
        r@ == doc_end(doc.blocks@),
{
    let path = match doc.path_to_last_top_paragraph() {
        Some(p) => p,
        None => BlockPath::top(0),
    };
    let offset: u32 = doc.paragraph_len(&path);
    LogicalPos { path, offset }
}

/// The position that `pos` becomes in a document: its own paragraph with the
/// offset cut to the text, or the last top-level paragraph when there is no
/// such paragraph.
pub open spec fn clamped_pos(blocks: Seq<Block>, pos: Pos) -> Pos {
    if doc_paths(blocks).len() == 0 {
        top_pos(0, 0)
    } else {
        let path = if para_at(blocks, pos.path) is Some {
            pos.path
        } else {
            last_path(blocks)
        };
        let len = len_at(blocks, path);
        Pos {
            path,
            offset: if pos.offset <= len {
                pos.offset
            } else {
                len
            },
        }
    }
}

/// Whether a document has no paragraph.
pub fn has_no_paragraph(doc: &DocumentTree) -> (r: bool)
    ensures
        r == (doc_paths(doc.blocks@).len() == 0),
{
    let paths = crate::walk::doc_paragraph_paths(doc);
    assert(crate::document::paths_view(paths@).len() == paths@.len());
    paths.len() == 0
}

/// Clamp a position into a document.
pub fn clamp_pos(doc: &DocumentTree, pos: LogicalPos) -> (r: LogicalPos)
    ensures
        r@ == clamped_pos(doc.blocks@, pos@),
{
    if has_no_paragraph(doc) {
        return LogicalPos::top(0, 0);
    }
    let path = if doc.paragraph_at_path(&pos.path).is_some() {
        pos.path
    } else {
        match doc.path_to_last_top_paragraph() {
            Some(p) => p,
            None => BlockPath::top(0),
        }
    };
    let len: u32 = doc.paragraph_len(&path);
    let offset: u32 = if pos.offset <= len {
        pos.offset
    } else {
        len
    };
    LogicalPos { path, offset }
}

/// The characters next to a caret: the offsets of the one before it and of
/// the end of the one after it.
#[derive(Clone, Copy, Debug, PartialEq, Eq, Structural)]
pub struct CharStep {
    pub prev: u32,
    pub next: u32,
}

/// The range that a delete key removes at a collapsed caret.
pub open spec fn delete_range_at(
    blocks: Seq<Block>,
    caret: Pos,
    forward: bool,
    by_word: bool,
    step: CharStep,
) -> Option<(Pos, Pos)> {
    match para_at(blocks, caret.path) {
        None => None,
        Some(p) => {
            let len = text_len(p.text@) as u32;
            if forward {
                if caret.offset < len {
                    let to = if by_word {
                        first_start_above(
                            word_starts_of(p.text@),
                            caret.offset as int,
                            text_len(p.text@) as usize,
                        ) as u32
                    } else {
                        step.next
                    };
                    Some((caret, Pos { path: caret.path, offset: to }))
                } else {
                    match neighbor_para(blocks, caret.path, true) {
                        Some((q, _)) => Some((caret, Pos { path: q, offset: 0 })),
                        None => None,
                    }
                }
            } else if caret.offset > 0 {
                let from = if by_word {
                    last_start_below(word_starts_of(p.text@), caret.offset as int) as u32
                } else {
                    step.prev
                };
                Some((Pos { path: caret.path, offset: from }, caret))
            } else {
                match neighbor_para(blocks, caret.path, false) {
                    Some((q, pp)) => Some((Pos { path: q, offset: text_len(pp.text@) as u32 }, caret)),
                    None => None,
                }
            }
        },
    }
}

/// A range that starts or ends at the caret, its start before its end.
pub open spec fn deletes_at(range: (Pos, Pos), caret: Pos, forward: bool) -> bool {
    &&& forward ==> range.0 == caret
    &&& !forward ==> range.1 == caret
    &&& pos_order(range.0, range.1) < 0
}

/// The range that a delete key removes at a collapsed caret: one character or
/// one word, or the paragraph break at a paragraph's edge. `None` at the edge
/// of the document. `step` gives the characters next to the caret.
pub fn delete_target(
    doc: &DocumentTree,
    caret: LogicalPos,
    forward: bool,
    by_word: bool,
    step: CharStep,
) -> (r: Option<(LogicalPos, LogicalPos)>)
    ensures
        match r {
            Some((a, b)) => delete_range_at(doc.blocks@, caret@, forward, by_word, step) == Some(
                (a@, b@),
            ),
            None => delete_range_at(doc.blocks@, caret@, forward, by_word, step) is None,
        },
        r is Some && blocks_fit(doc.blocks@) && addressable(doc.blocks@, caret.path@) && (step.prev
            < caret.offset || caret.offset == 0) && step.next > caret.offset ==> deletes_at(
            ((r->0).0@, (r->0).1@),
            caret@,
            forward,
        ),
{
    let ghost c0 = caret@;
    let r = delete_range_for(doc, caret, forward, by_word, step);
    proof {
        if r is Some && blocks_fit(doc.blocks@) && addressable(doc.blocks@, c0.path) && (step.prev
            < c0.offset || c0.offset == 0) && step.next > c0.offset {
            lemma_delete_target_at_caret(doc.blocks@, c0, forward, by_word, step);
        }
    }
    r
}

fn delete_range_for(
    doc: &DocumentTree,
    caret: LogicalPos,
    forward: bool,
    by_word: bool,
    step: CharStep,
) -> (r: Option<(LogicalPos, LogicalPos)>)
    ensures
        match r {
            Some((a, b)) => delete_range_at(doc.blocks@, caret@, forward, by_word, step) == Some(
                (a@, b@),
            ),
            None => delete_range_at(doc.blocks@, caret@, forward, by_word, step) is None,
        },
        forward && by_word && addressable(doc.blocks@, caret.path@) && caret.offset < len_at(
            doc.blocks@,
            caret.path@,
        ) ==> first_start_above(
            word_starts_of(para_at(doc.blocks@, caret.path@)->0.text@),
            caret.offset as int,
            len_at(doc.blocks@, caret.path@) as usize,
        ) <= len_at(doc.blocks@, caret.path@),
{
    let p: &Paragraph = match doc.paragraph_at_path(&caret.path) {
        Some(p) => p,
        None => {
            return None;
        },
    };
    if forward {
        if caret.offset < p.len32() {
            let to: u32 = if by_word {
                let starts = word_starts(p.text.as_str());
                proof {
                    if addressable(doc.blocks@, caret.path@) {
                        law_first_above(
                            starts@,
                            p.text@,
                            caret.offset as int,
                            text_len(p.text@) as usize,
                        );
                    }
                }
                first_above(&starts, caret.offset as usize, byte_len(p.text.as_str())) as u32
            } else {
                step.next
            };
            let end = LogicalPos { path: caret.path.clone(), offset: to };
            Some((caret, end))
        } else {
            match doc_paragraph_neighbor(doc, &caret.path, true) {
                Some((path, _)) => Some((caret, LogicalPos { path, offset: 0 })),
                None => None,
            }
        }
    } else if caret.offset > 0 {
        let from: u32 = if by_word {
            let starts = word_starts(p.text.as_str());
            last_below(&starts, caret.offset as usize) as u32
        } else {
            step.prev
        };
        let start = LogicalPos { path: caret.path.clone(), offset: from };
        Some((start, caret))
    } else {
        match doc_paragraph_neighbor(doc, &caret.path, false) {
            Some((path, pp)) => Some((LogicalPos { path, offset: pp.len32() }, caret)),
            None => None,
        }
    }
}

/// The text of the paragraph at a position is addressable: every byte of it
/// has an offset.
pub open spec fn addressable(blocks: Seq<Block>, path: Seq<PathStep>) -> bool {
    para_at(blocks, path) matches Some(p) && text_len(p.text@) <= u32::MAX
}

proof fn lemma_below(starts: Seq<usize>, off: int)
    requires
        off > 0,
    ensures
        last_start_below(starts, off) < off,
    decreases starts.len(),
{
    if starts.len() > 0 && starts[0] < off {
        let rest = starts.drop_first();
        lemma_below(rest, off);
        let n = crate::segment::leading_below(rest, off);
        lemma_leading_len(rest, off);
        if n > 0 {
            assert(starts[n as int] == rest[n - 1]);
        }
    }
}

proof fn lemma_leading_len(starts: Seq<usize>, off: int)
    ensures
        crate::segment::leading_below(starts, off) <= starts.len(),
    decreases starts.len(),
{
    if starts.len() > 0 {
        lemma_leading_len(starts.drop_first(), off);
    }
}

proof fn lemma_above(starts: Seq<usize>, off: int, end: usize)
    requires
        off < end,
    ensures
        first_start_above(starts, off, end) > off,
    decreases starts.len(),
{
    if starts.len() > 0 {
        lemma_above(starts.drop_first(), off, end);
    }
}

/// Stepping or jumping left moves the caret back in document order, and
/// leaves it where it is only at the start of the first paragraph.
pub proof fn law_left_goes_back(blocks: Seq<Block>, pos: Pos)
    requires
        blocks_fit(blocks),
        addressable(blocks, pos.path),
        pos.offset <= len_at(blocks, pos.path),
    ensures
        pos_order(left_of(blocks, pos), pos) <= 0,
        pos_order(word_left_of(blocks, pos), pos) <= 0,
        left_of(blocks, pos) == pos <==> pos.offset == 0 && neighbor_para(blocks, pos.path, false)
            is None,
        word_left_of(blocks, pos) == pos <==> pos.offset == 0 && neighbor_para(
            blocks,
            pos.path,
            false,
        ) is None,
{
    let p = para_at(blocks, pos.path)->0;
    law_order_reflexive(pos.path);
    if pos.offset > 0 {
        lemma_below(grapheme_starts(p.text@), pos.offset as int);
        lemma_below(word_starts_of(p.text@), pos.offset as int);
    } else if neighbor_para(blocks, pos.path, false) is Some {
        law_neighbor_order(blocks, pos.path, false);
        law_order_flips(pos.path, neighbor_path(blocks, pos.path, false)->0);
    }
}

/// A position between two grapheme clusters of its paragraph, or at its start or
/// its end.
pub open spec fn at_cluster_edge(blocks: Seq<Block>, pos: Pos) -> bool {
    para_at(blocks, pos.path) matches Some(p) && pos.offset <= text_len(p.text@) <= u32::MAX && (
    pos.offset == 0 || pos.offset == text_len(p.text@) || grapheme_starts(p.text@).contains(
        pos.offset as usize,
    ))
}

/// Stepping right and then left comes back to the start, over the edges of
/// paragraphs too, unless the step to the right was none.
pub proof fn law_right_then_left_returns(blocks: Seq<Block>, pos: Pos)
    requires
        blocks_fit(blocks),
        at_cluster_edge(blocks, pos),
        pos.offset < len_at(blocks, pos.path) ==> segment_starts(
            grapheme_starts(para_at(blocks, pos.path)->0.text@),
            para_at(blocks, pos.path)->0.text@,
        ),
        right_of(blocks, pos) != pos,
    ensures
        left_of(blocks, right_of(blocks, pos)) == pos,
{
    let text = para_at(blocks, pos.path)->0.text@;
    let starts = grapheme_starts(text);
    if pos.offset < text_len(text) {
        let end = text_len(text) as usize;
        law_on_and_back_returns(starts, text, end, pos.offset as usize);
        law_first_above(starts, text, pos.offset as int, end);
    } else {
        let q = neighbor_path(blocks, pos.path, true)->0;
        law_neighbor_round_trip(blocks, pos.path, true);
        assert(neighbor_path(blocks, q, false) == Some(pos.path));
    }
}

/// Stepping left and then right comes back to the start, over the edges of
/// paragraphs too, unless the step to the left was none.
pub proof fn law_left_then_right_returns(blocks: Seq<Block>, pos: Pos)
    requires
        blocks_fit(blocks),
        at_cluster_edge(blocks, pos),
        addressable(blocks, left_of(blocks, pos).path),
        pos.offset > 0 ==> segment_starts(
            grapheme_starts(para_at(blocks, pos.path)->0.text@),
            para_at(blocks, pos.path)->0.text@,
        ),
        left_of(blocks, pos) != pos,
    ensures
        right_of(blocks, left_of(blocks, pos)) == pos,
{
    let text = para_at(blocks, pos.path)->0.text@;
    let starts = grapheme_starts(text);
    if pos.offset > 0 {
        let end = text_len(text) as usize;
        law_back_and_on_returns(starts, text, end, pos.offset as usize);
        lemma_below(starts, pos.offset as int);
    } else {
        let q = neighbor_path(blocks, pos.path, false)->0;
        law_neighbor_round_trip(blocks, pos.path, false);
        assert(neighbor_path(blocks, q, true) == Some(pos.path));
    }
}

proof fn lemma_next_is_after(blocks: Seq<Block>, pos: Pos)
    requires
        blocks_fit(blocks),
        para_at(blocks, pos.path) is Some,
    ensures
        pos_order(pos, start_of_next(blocks, pos)) <= 0,
        start_of_next(blocks, pos) == pos <==> neighbor_para(blocks, pos.path, true) is None,
{
    law_order_reflexive(pos.path);
    if neighbor_para(blocks, pos.path, true) is Some {
        law_neighbor_order(blocks, pos.path, true);
    }
}

/// Clamping a position twice is clamping it once.
pub proof fn law_clamp_idempotent(blocks: Seq<Block>, pos: Pos)
    ensures
        clamped_pos(blocks, clamped_pos(blocks, pos)) == clamped_pos(blocks, pos),
{
}

/// A position that is already in the document is left alone.
pub proof fn law_clamp_keeps_valid(blocks: Seq<Block>, pos: Pos)
    requires
        doc_paths(blocks).len() > 0,
        para_at(blocks, pos.path) is Some,
        pos.offset <= len_at(blocks, pos.path),
    ensures
        clamped_pos(blocks, pos) == pos,
{
}

/// In a document with a top-level paragraph, clamping yields a position in
/// the document: a paragraph, and an offset within its text.
pub proof fn law_clamp_yields_valid(blocks: Seq<Block>, pos: Pos)
    requires
        blocks_fit(blocks),
        last_top_para(blocks, blocks.len()) is Some,
    ensures
        para_at(blocks, clamped_pos(blocks, pos).path) is Some,
        clamped_pos(blocks, pos).offset <= len_at(blocks, clamped_pos(blocks, pos).path),
{
    lemma_last_top(blocks, blocks.len());
    let i = last_top_para(blocks, blocks.len())->0;
    lemma_listed(blocks, blocks.len(), i);
}

proof fn lemma_last_top(blocks: Seq<Block>, n: nat)
    requires
        n <= blocks.len(),
        last_top_para(blocks, n) is Some,
    ensures
        0 <= last_top_para(blocks, n)->0 < n,
        blocks[last_top_para(blocks, n)->0] is Paragraph,
    decreases n,
{
    if !(blocks[n - 1] is Paragraph) {
        lemma_last_top(blocks, (n - 1) as nat);
    }
}

proof fn lemma_listed(blocks: Seq<Block>, n: nat, i: int)
    requires
        n <= blocks.len(),
        0 <= i < n,
        blocks[i] is Paragraph,
    ensures
        crate::document::blocks_paths(blocks, Seq::empty(), n).len() > 0,
    decreases n,
{
    let prefix = Seq::<PathStep>::empty();
    if i < n - 1 {
        lemma_listed(blocks, (n - 1) as nat, i);
    } else {
        assert(crate::document::block_paths(
            blocks[i],
            prefix.push(PathStep::Block { idx: i as u32 }),
        ).len() == 1);
    }
}

proof fn lemma_delete_target_at_caret(
    blocks: Seq<Block>,
    caret: Pos,
    forward: bool,
    by_word: bool,
    step: CharStep,
)
    requires
        blocks_fit(blocks),
        addressable(blocks, caret.path),
        delete_range_at(blocks, caret, forward, by_word, step) is Some,
        step.prev < caret.offset || caret.offset == 0,
        step.next > caret.offset,
        forward && by_word && caret.offset < len_at(blocks, caret.path) ==> first_start_above(
            word_starts_of(para_at(blocks, caret.path)->0.text@),
            caret.offset as int,
            len_at(blocks, caret.path) as usize,
        ) <= len_at(blocks, caret.path),
    ensures
        deletes_at(delete_range_at(blocks, caret, forward, by_word, step)->0, caret, forward),
{
    let p = para_at(blocks, caret.path)->0;
    law_order_reflexive(caret.path);
    if forward {
        if caret.offset < text_len(p.text@) {
            lemma_above(word_starts_of(p.text@), caret.offset as int, text_len(p.text@) as usize);
        } else {
            law_neighbor_order(blocks, caret.path, true);
        }
    } else if caret.offset > 0 {
        lemma_below(word_starts_of(p.text@), caret.offset as int);
    } else {
        law_neighbor_order(blocks, caret.path, false);
        law_order_flips(caret.path, neighbor_path(blocks, caret.path, false)->0);
    }
}

/// `to` is the nearest of a list of offsets before `from`, or the start of the
/// text where the list has none before it.
pub open spec fn next_before(starts: Seq<usize>, from: int, to: int) -> bool {
    &&& 0 <= to < from
    &&& forall|i: int| 0 <= i < starts.len() && (#[trigger] starts[i]) < from ==> starts[i] <= to
}

/// `to` is the nearest of a list of offsets after `from`, or the end of the
/// text where the list has none after it.
pub open spec fn next_after(starts: Seq<usize>, from: int, to: int, end: int) -> bool {
    &&& from < to <= end
    &&& forall|i: int| 0 <= i < starts.len() && (#[trigger] starts[i]) > from ==> to <= starts[i]
}

/// Inside a paragraph, a step goes by one grapheme cluster and a jump by one
/// word: to the nearest start of one on that side, and past none.
pub proof fn law_steps_go_cluster_by_cluster(blocks: Seq<Block>, pos: Pos, p: Paragraph)
    requires
        para_at(blocks, pos.path) == Some(p),
        pos.offset <= text_len(p.text@) <= u32::MAX,
        segment_starts(grapheme_starts(p.text@), p.text@),
        segment_starts(word_starts_of(p.text@), p.text@),
    ensures
        pos.offset > 0 ==> {
            &&& left_of(blocks, pos).path == pos.path
            &&& next_before(
                grapheme_starts(p.text@),
                pos.offset as int,
                left_of(blocks, pos).offset as int,
            )
            &&& word_left_of(blocks, pos).path == pos.path
            &&& next_before(
                word_starts_of(p.text@),
                pos.offset as int,
                word_left_of(blocks, pos).offset as int,
            )
        },
        pos.offset < text_len(p.text@) ==> {
            let end = text_len(p.text@) as int;
            &&& right_of(blocks, pos).path == pos.path
            &&& next_after(
                grapheme_starts(p.text@),
                pos.offset as int,
                right_of(blocks, pos).offset as int,
                end,
            )
            &&& word_right_of(blocks, pos).path == pos.path
            &&& next_after(
                word_starts_of(p.text@),
                pos.offset as int,
                word_right_of(blocks, pos).offset as int,
                end,
            )
        },
{
    if pos.offset > 0 {
        crate::segment::law_last_below(grapheme_starts(p.text@), p.text@, pos.offset as int);
        crate::segment::law_last_below(word_starts_of(p.text@), p.text@, pos.offset as int);
    }
    if pos.offset < text_len(p.text@) {
        let end = text_len(p.text@) as usize;
        law_first_above(grapheme_starts(p.text@), p.text@, pos.offset as int, end);
        law_first_above(word_starts_of(p.text@), p.text@, pos.offset as int, end);
    }
}

/// At the edge of a paragraph, a step or a jump goes to the end of the
/// paragraph before or to the start of the one after, and stays where there is
/// none.
pub proof fn law_steps_cross_paragraphs(blocks: Seq<Block>, pos: Pos, p: Paragraph)
    requires
        para_at(blocks, pos.path) == Some(p),
        text_len(p.text@) <= u32::MAX,
    ensures
        pos.offset == 0 ==> {
            let to = left_of(blocks, pos);
            &&& word_left_of(blocks, pos) == to
            &&& neighbor_para(blocks, pos.path, false) is None ==> to == pos
            &&& neighbor_para(blocks, pos.path, false) matches Some((q, before)) ==> to.path == q
                && to.offset == text_len(before.text@) as u32
        },
        pos.offset == text_len(p.text@) ==> {
            let to = right_of(blocks, pos);
            &&& word_right_of(blocks, pos) == to
            &&& neighbor_para(blocks, pos.path, true) is None ==> to == pos
            &&& neighbor_para(blocks, pos.path, true) matches Some((q, _)) ==> to.path == q
                && to.offset == 0
        },
{
}

/// The document ends with its last paragraph outside tables.
pub proof fn law_document_ends_with_its_last_paragraph(blocks: Seq<Block>, i: int, p: Paragraph)
    requires
        0 <= i < blocks.len() <= u32::MAX,
        blocks[i] == Block::Paragraph(p),
        forall|j: int| i < j < blocks.len() ==> (#[trigger] blocks[j]) is Table,
    ensures
        doc_end(blocks).path == seq![PathStep::Block { idx: i as u32 }],
        doc_end(blocks).offset == text_len(p.text@) as u32,
{
    lemma_last_is(blocks, blocks.len(), i);
}

proof fn lemma_last_is(blocks: Seq<Block>, n: nat, i: int)
    requires
        0 <= i < n <= blocks.len(),
        blocks[i] is Paragraph,
        forall|j: int| i < j < n ==> (#[trigger] blocks[j]) is Table,
    ensures
        last_top_para(blocks, n) == Some(i),
    decreases n,
{
    if i < n - 1 {
        assert(blocks[n - 1] is Table);
        lemma_last_is(blocks, (n - 1) as nat, i);
    }
}

/// A position is moved as little as its document needs: in a paragraph that is
/// there it keeps its paragraph, and its offset up to the end of the text.
pub proof fn law_clamp_moves_little(blocks: Seq<Block>, pos: Pos, p: Paragraph)
    requires
        doc_paths(blocks).len() > 0,
        para_at(blocks, pos.path) == Some(p),
        text_len(p.text@) <= u32::MAX,
    ensures
        clamped_pos(blocks, pos).path == pos.path,
        pos.offset <= text_len(p.text@) ==> clamped_pos(blocks, pos).offset == pos.offset,
        pos.offset > text_len(p.text@) ==> clamped_pos(blocks, pos).offset == text_len(p.text@),
{
}

/// A delete key takes what lies next to the caret on its side: a character, or
/// a word up to its edge; at the edge of the paragraph it takes the break
/// between it and the one next to it, if there is one.
pub proof fn law_delete_takes_the_next_piece(
    blocks: Seq<Block>,
    caret: Pos,
    by_word: bool,
    step: CharStep,
    p: Paragraph,
)
    requires
        para_at(blocks, caret.path) == Some(p),
        caret.offset <= text_len(p.text@) <= u32::MAX,
        segment_starts(word_starts_of(p.text@), p.text@),
    ensures
        caret.offset < text_len(p.text@) ==> (delete_range_at(
            blocks,
            caret,
            true,
            by_word,
            step,
        ) matches Some((a, b)) && a == caret && b.path == caret.path && if by_word {
            next_after(
                word_starts_of(p.text@),
                caret.offset as int,
                b.offset as int,
                text_len(p.text@) as int,
            )
        } else {
            b.offset == step.next
        }),
        caret.offset == text_len(p.text@) ==> match neighbor_para(blocks, caret.path, true) {
            Some((q, _)) => delete_range_at(blocks, caret, true, by_word, step) == Some(
                (caret, (Pos { path: q, offset: 0 })),
            ),
            None => delete_range_at(blocks, caret, true, by_word, step) is None,
        },
        caret.offset > 0 ==> (delete_range_at(
            blocks,
            caret,
            false,
            by_word,
            step,
        ) matches Some((a, b)) && b == caret && a.path == caret.path && if by_word {
            next_before(word_starts_of(p.text@), caret.offset as int, a.offset as int)
        } else {
            a.offset == step.prev
        }),
        caret.offset == 0 ==> match neighbor_para(blocks, caret.path, false) {
            Some((q, before)) => delete_range_at(blocks, caret, false, by_word, step) == Some(
                ((Pos { path: q, offset: text_len(before.text@) as u32 }), caret),
            ),
            None => delete_range_at(blocks, caret, false, by_word, step) is None,
        },
{
    if caret.offset > 0 {
        crate::segment::law_last_below(word_starts_of(p.text@), p.text@, caret.offset as int);
    }
    if caret.offset < text_len(p.text@) {
        let end = text_len(p.text@) as usize;
        law_first_above(word_starts_of(p.text@), p.text@, caret.offset as int, end);
    }
}

/// A position in a paragraph that is not there moves to the last paragraph
/// outside tables, and into its text.
pub proof fn law_clamp_falls_back_to_the_last_paragraph(
    blocks: Seq<Block>,
    pos: Pos,
    i: int,
    p: Paragraph,
)
    requires
        doc_paths(blocks).len() > 0,
        para_at(blocks, pos.path) is None,
        0 <= i < blocks.len() <= u32::MAX,
        blocks[i] == Block::Paragraph(p),
        forall|j: int| i < j < blocks.len() ==> (#[trigger] blocks[j]) is Table,
        text_len(p.text@) <= u32::MAX,
    ensures
        clamped_pos(blocks, pos).path == seq![PathStep::Block { idx: i as u32 }],
        pos.offset <= text_len(p.text@) ==> clamped_pos(blocks, pos).offset == pos.offset,
        pos.offset > text_len(p.text@) ==> clamped_pos(blocks, pos).offset == text_len(p.text@),
{
    law_document_ends_with_its_last_paragraph(blocks, i, p);
}

} // verus!
