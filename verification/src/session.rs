//! The editing session: the selection and how commands change it, the style
//! armed for typing, the running composition, and what an edit command asks of
//! the document.

use crate::attrs::{
    alignment_at, attrs_at, attrs_mixed_over, attrs_of, attrs_probe, direction_over,
    effective_style, mixed_over, opt_config, paragraph_alignment_at, paragraph_direction_over,
    probe, Attrs, TextAttrs,
};
use crate::cache::RenderConfig;
use crate::command::{HeaderFooterArea, MoveDirection};
use crate::caret::{clamp_pos, clamped_pos, delete_range_at, delete_target, CharStep};
use crate::common::{
    alternates, ordered, pos_order, through_cell, top_pos, Alignment, BlockPath, Direction, DocFormat,
    Kind, LogicalPos, PathStep, Pos, Rect, SelectionKind,
};
use crate::dispatch::{in_band, is_query, op_of, refusal, routed, Command, Situation};
use crate::document::{last_top_para, len_at, Block, DocumentTree, SpanStyle};
use crate::event::{AnnouncementPriority, AttrsMixed};
use crate::geometry::{
    caret_rect, caret_rect_geom, cell_rects, selection_rects, selection_rects_geom,
    table_cell_rects, CaretAffinity, CellRect, LineGeom,
};
use crate::motion::{collapsed, Sel, SelectionState};
use crate::pipeline::CompositionState;
use crate::selection::{derive_selection_kind, kind_between};
use crate::walk::{cell_block_count, cell_blocks};
use vstd::prelude::*;

verus! {

broadcast use vstd::seq_lib::group_seq_properties;

/// The state of an editing session. `pending` is the style armed for the next
/// typing; `affinity` is the side of a direction seam that the caret shows on.
/// While a story outside the body is edited, `story` names it, the selection is
/// in the story, and `stash` is the selection of the body. `tracking` says that
/// changes are recorded.
pub struct Session {
    pub selection: Option<SelectionState>,
    pub pending: Option<SpanStyle>,
    pub affinity: CaretAffinity,
    pub composition: Option<CompositionState>,
    pub story: Option<HeaderFooterArea>,
    pub stash: Option<SelectionState>,
    pub tracking: bool,
}

/// What a [`Session`] says.
pub ghost struct State {
    pub sel: Option<Sel>,
    pub pending: Option<SpanStyle>,
    pub side: CaretAffinity,
    pub comp: Option<(Pos, Seq<char>)>,
    pub story: Option<HeaderFooterArea>,
    pub stash: Option<Sel>,
    pub tracking: bool,
}

/// What an optional selection says.
pub open spec fn opt_sel(s: Option<SelectionState>) -> Option<Sel> {
    match s {
        Some(x) => Some(x@),
        None => None,
    }
}

/// What an optional composition says.
pub open spec fn opt_comp(c: Option<CompositionState>) -> Option<(Pos, Seq<char>)> {
    match c {
        Some(x) => Some((x.at@, x.text@)),
        None => None,
    }
}

impl View for Session {
    type V = State;

    open spec fn view(&self) -> State {
        State {
            sel: opt_sel(self.selection),
            pending: self.pending,
            side: self.affinity,
            comp: opt_comp(self.composition),
            story: self.story,
            stash: opt_sel(self.stash),
            tracking: self.tracking,
        }
    }
}

/// The session after the user put the selection somewhere: an armed style is
/// dropped, and the caret shows on the leading side of a seam.
pub open spec fn placed(s: State, sel: Sel) -> State {
    State { sel: Some(sel), pending: None, side: CaretAffinity::LeadingX, ..s }
}

/// A selection between two places, of the kind that the two make.
pub open spec fn between(anchor: Pos, caret: Pos) -> Sel {
    Sel { anchor, caret, ideal_x: None, kind: kind_between(anchor, caret) }
}

/// A selection of text.
pub open spec fn text_between(anchor: Pos, caret: Pos) -> Sel {
    Sel { anchor, caret, ideal_x: None, kind: Kind::Linear }
}

/// The end of a range that a caret at `caret` leaves fixed.
pub open spec fn fixed_end(start: Pos, end: Pos, caret: Pos) -> Pos {
    if caret == start {
        end
    } else {
        start
    }
}

/// Two places in document order.
pub open spec fn in_doc_order(a: Pos, b: Pos) -> (Pos, Pos) {
    if pos_order(a, b) > 0 {
        (b, a)
    } else {
        (a, b)
    }
}

/// The whole document: from its start to the end of its last paragraph.
pub open spec fn whole_document(blocks: Seq<Block>) -> Sel {
    let path = match last_top_para(blocks, blocks.len()) {
        Some(i) => seq![PathStep::Block { idx: i as u32 }],
        None => seq![PathStep::Block { idx: 0 }],
    };
    text_between(top_pos(0, 0), Pos { path, offset: len_at(blocks, path) })
}

/// The cell that the first two steps of a path name, from the start of its
/// first block to the end of its last; outside a table the whole document.
pub open spec fn whole_cell(blocks: Seq<Block>, path: Seq<PathStep>) -> Sel {
    if path.len() >= 2 && path[1] is Cell {
        let prefix = path.take(2);
        let n: usize = match cell_blocks(blocks, prefix) {
            Some(n) => n,
            None => 1,
        };
        let last = prefix.push(
            PathStep::Block {
                idx: (if n == 0 {
                    0
                } else {
                    (n - 1) as u32
                }),
            },
        );
        text_between(
            Pos { path: prefix.push(PathStep::Block { idx: 0 }), offset: 0 },
            Pos { path: last, offset: len_at(blocks, last) },
        )
    } else {
        whole_document(blocks)
    }
}

/// The range that an edit replaces: the selection, else the place given.
pub open spec fn edit_range(s: State, at: Pos) -> (Pos, Pos) {
    match s.sel {
        Some(sel) => in_doc_order(sel.anchor, sel.caret),
        None => (at, at),
    }
}

/// The range that a page break replaces: selected text, else the place given.
pub open spec fn break_range(s: State, at: Pos) -> (Pos, Pos) {
    match s.sel {
        Some(sel) if sel.anchor != sel.caret => in_doc_order(sel.anchor, sel.caret),
        _ => (at, at),
    }
}

/// The session after a story was entered with the caret at `at`. The selection
/// of the body is kept until the story is left.
pub open spec fn entered(s: State, area: HeaderFooterArea, at: Pos) -> State {
    State {
        sel: Some(collapsed(at)),
        pending: None,
        side: CaretAffinity::LeadingX,
        comp: None,
        story: Some(area),
        stash: if s.story is Some {
            s.stash
        } else {
            s.sel
        },
        ..s
    }
}

/// A selection with both ends moved into a document.
pub open spec fn moved_into(blocks: Seq<Block>, sel: Option<Sel>) -> Option<Sel> {
    match sel {
        Some(x) => Some(
            between(clamped_pos(blocks, x.anchor), clamped_pos(blocks, x.caret)),
        ),
        None => None,
    }
}

/// The session after the story was left for the body `blocks`. An armed style
/// and a running composition are dropped.
pub open spec fn left_story(s: State, blocks: Seq<Block>) -> State {
    if s.story is None {
        s
    } else {
        State {
            sel: moved_into(blocks, s.stash),
            pending: None,
            side: CaretAffinity::LeadingX,
            comp: None,
            story: None,
            stash: None,
            ..s
        }
    }
}

/// What typing asks of the document: delete `start..end` unless it is empty,
/// insert the text at `start`, lay `style` over `start..caret`, and leave the
/// caret at `caret`.
#[derive(Debug, PartialEq, Eq)]
pub struct InsertPlan {
    pub start: LogicalPos,
    pub end: LogicalPos,
    pub style: Option<SpanStyle>,
    pub caret: LogicalPos,
}

/// What a paragraph break asks of the document: delete `start..end` unless it
/// is empty, break the paragraph at `start`, and leave the caret at `caret`.
#[derive(Debug, PartialEq, Eq)]
pub struct SplitPlan {
    pub start: LogicalPos,
    pub end: LogicalPos,
    pub caret: LogicalPos,
}

/// The selection, or a caret at the top of the document where there is none.
pub open spec fn selection_or_top(s: State) -> Sel {
    match s.sel {
        Some(sel) => sel,
        None => collapsed(top_pos(0, 0)),
    }
}

/// Why an editing command fails.
#[derive(Debug, Clone, Copy, PartialEq, Eq, Structural)]
pub enum SessionError {
    NoSelection,
    NoLayout,
}

/// A path with its last block index one higher.
pub open spec fn next_block(path: Seq<PathStep>) -> Seq<PathStep> {
    if path.len() > 0 && path.last() is Block {
        path.update(path.len() - 1, PathStep::Block { idx: (path.last()->idx + 1) as u32 })
    } else {
        path
    }
}

/// A path with its last block index one higher.
pub fn bump_last_block_index(path: &BlockPath) -> (r: BlockPath)
    requires
        path@.len() > 0 && path@.last() is Block ==> path@.last()->idx < u32::MAX,
    ensures
        r@ == next_block(path@),
{
    let mut r = path.clone();
    let n: usize = r.steps.len();
    if n > 0 {
        if let PathStep::Block { idx } = r.steps[n - 1] {
            r.steps.set(n - 1, PathStep::Block { idx: idx + 1 });
        }
    }
    r
}

impl Session {
    /// A session without a selection.
    pub fn new() -> (r: Self)
        ensures
            r@ == (State {
                sel: None,
                pending: None,
                side: CaretAffinity::LeadingX,
                comp: None,
                story: None,
                stash: None,
                tracking: false,
            }),
    {
        Session {
            selection: None,
            pending: None,
            affinity: CaretAffinity::LeadingX,
            composition: None,
            story: None,
            stash: None,
            tracking: false,
        }
    }

    /// The selection that a motion starts from.
    pub fn live_selection(&self) -> (r: SelectionState)
        ensures
            r@ == selection_or_top(self@),
    {
        match &self.selection {
            Some(s) => s.clone(),
            None => SelectionState::at(LogicalPos::top(0, 0)),
        }
    }

    fn place(&mut self, sel: SelectionState)
        ensures
            final(self)@ == placed(old(self)@, sel@),
    {
        self.selection = Some(sel);
        self.pending = None;
        self.affinity = CaretAffinity::LeadingX;
    }

    fn place_text(&mut self, anchor: LogicalPos, caret: LogicalPos)
        ensures
            final(self)@ == placed(old(self)@, text_between(anchor@, caret@)),
    {
        self.place(
            SelectionState { anchor, caret, ideal_x: None, kind: SelectionKind::Linear },
        );
    }

    /// Select a range, with the caret at one of its ends.
    pub fn set_selection(&mut self, start: LogicalPos, end: LogicalPos, caret: LogicalPos)
        ensures
            final(self)@ == placed(
                old(self)@,
                between(fixed_end(start@, end@, caret@), caret@),
            ),
    {
        let anchor = if caret.same(&start) {
            end
        } else {
            start
        };
        let kind = derive_selection_kind(&anchor, &caret);
        self.place(SelectionState { anchor, caret, ideal_x: None, kind });
    }

    /// Move the caret and keep the other end of the selection.
    pub fn extend_selection(&mut self, to: LogicalPos)
        ensures
            final(self)@ == placed(
                old(self)@,
                between(
                    match old(self)@.sel {
                        Some(sel) => sel.anchor,
                        None => to@,
                    },
                    to@,
                ),
            ),
    {
        let anchor = match &self.selection {
            Some(s) => s.anchor.clone(),
            None => to.clone(),
        };
        let kind = derive_selection_kind(&anchor, &to);
        self.place(SelectionState { anchor, caret: to, ideal_x: None, kind });
    }

    /// Select the word `lo..hi` around a place.
    pub fn select_word(&mut self, hit: LogicalPos, lo: u32, hi: u32)
        ensures
            final(self)@ == placed(
                old(self)@,
                text_between(
                    Pos { path: hit@.path, offset: lo },
                    Pos { path: hit@.path, offset: hi },
                ),
            ),
    {
        let anchor = LogicalPos { path: hit.path.clone(), offset: lo };
        let caret = LogicalPos { path: hit.path, offset: hi };
        self.place_text(anchor, caret);
    }

    /// Select the paragraph around a place.
    pub fn select_paragraph(&mut self, doc: &DocumentTree, hit: LogicalPos)
        ensures
            final(self)@ == placed(
                old(self)@,
                text_between(
                    Pos { path: hit@.path, offset: 0 },
                    Pos { path: hit@.path, offset: len_at(doc.blocks@, hit@.path) },
                ),
            ),
    {
        let len: u32 = doc.paragraph_len(&hit.path);
        let anchor = LogicalPos { path: hit.path.clone(), offset: 0 };
        let caret = LogicalPos { path: hit.path, offset: len };
        self.place_text(anchor, caret);
    }

    /// Select the whole document.
    pub fn select_all(&mut self, doc: &DocumentTree)
        ensures
            final(self)@ == placed(old(self)@, whole_document(doc.blocks@)),
    {
        let path = match doc.path_to_last_top_paragraph() {
            Some(p) => p,
            None => BlockPath::top(0),
        };
        let offset: u32 = doc.paragraph_len(&path);
        self.place_text(LogicalPos::top(0, 0), LogicalPos { path, offset });
    }

    /// Select the table cell around a place; outside a table the whole
    /// document.
    pub fn select_cell(&mut self, doc: &DocumentTree, hit: LogicalPos)
        ensures
            final(self)@ == placed(old(self)@, whole_cell(doc.blocks@, hit@.path)),
    {
        let ghost path = hit.path@;
        let in_cell: bool = hit.path.steps.len() >= 2 && (match hit.path.steps[1] {
            PathStep::Cell { .. } => true,
            PathStep::Block { .. } => false,
        });
        if !in_cell {
            self.select_all(doc);
            return;
        }
        let mut prefix: Vec<PathStep> = Vec::new();
        prefix.push(hit.path.steps[0]);
        prefix.push(hit.path.steps[1]);
        assert(prefix@ =~= path.take(2));
        let cell = BlockPath { steps: prefix };
        let n: usize = match cell_block_count(doc, &cell) {
            Some(n) => n,
            None => 1,
        };
        let last_idx: u32 = if n == 0 {
            0
        } else {
            (n - 1) as u32
        };
        let first = cell.child(PathStep::Block { idx: 0 });
        let last = cell.child(PathStep::Block { idx: last_idx });
        let offset: u32 = doc.paragraph_len(&last);
        self.place_text(LogicalPos { path: first, offset: 0 }, LogicalPos { path: last, offset });
    }

    /// The selection after a caret motion that ended on the given side.
    pub fn moved_to(&mut self, sel: SelectionState, side: CaretAffinity)
        ensures
            final(self)@ == (State {
                sel: Some(sel@),
                pending: None,
                side,
                ..old(self)@
            }),
    {
        self.selection = Some(sel);
        self.pending = None;
        self.affinity = side;
    }

    /// The selection after an edit gave the document `doc`: a caret at `caret`,
    /// moved into the document where it lies outside. An armed style stays.
    pub fn commit_edit(&mut self, doc: &DocumentTree, caret: LogicalPos)
        ensures
            final(self)@ == (State {
                sel: Some(collapsed(clamped_pos(doc.blocks@, caret@))),
                side: CaretAffinity::LeadingX,
                ..old(self)@
            }),
    {
        let caret = clamp_pos(doc, caret);
        self.affinity = CaretAffinity::LeadingX;
        self.selection = Some(SelectionState::at(caret));
    }

    /// The selection after undo or redo gave the document `doc`: both ends are
    /// moved into it. Whether there is a selection.
    pub fn after_history_change(&mut self, doc: &DocumentTree) -> (r: bool)
        ensures
            r == old(self)@.sel is Some,
            final(self)@ == (match old(self)@.sel {
                Some(sel) => State {
                    sel: Some(
                        between(
                            clamped_pos(doc.blocks@, sel.anchor),
                            clamped_pos(doc.blocks@, sel.caret),
                        ),
                    ),
                    side: CaretAffinity::LeadingX,
                    ..old(self)@
                },
                None => old(self)@,
            }),
    {
        let (a, c): (LogicalPos, LogicalPos) = match &self.selection {
            Some(sel) => (sel.anchor.clone(), sel.caret.clone()),
            None => {
                return false;
            },
        };
        let anchor = clamp_pos(doc, a);
        let caret = clamp_pos(doc, c);
        let kind = derive_selection_kind(&anchor, &caret);
        self.affinity = CaretAffinity::LeadingX;
        self.selection = Some(SelectionState { anchor, caret, ideal_x: None, kind });
        true
    }

    fn range_or(&self, at: LogicalPos) -> (r: (LogicalPos, LogicalPos))
        ensures
            (r.0@, r.1@) == edit_range(self@, at@),
    {
        match &self.selection {
            Some(sel) => {
                let (a, c) = (sel.anchor.clone(), sel.caret.clone());
                ordered(a, c)
            },
            None => {
                let end = at.clone();
                (at, end)
            },
        }
    }

    /// What typing `len` bytes asks of the document. The selection is replaced;
    /// without one the text goes in at `at`.
    pub fn plan_insert(&self, at: LogicalPos, len: u32) -> (r: InsertPlan)
        requires
            edit_range(self@, at@).0.offset + len <= u32::MAX,
        ensures
            (r.start@, r.end@) == edit_range(self@, at@),
            r.style == self@.pending,
            r.caret@ == (Pos { path: r.start@.path, offset: (r.start@.offset + len) as u32 }),
    {
        let (start, end) = self.range_or(at);
        let caret = LogicalPos { path: start.path.clone(), offset: start.offset + len };
        InsertPlan { start, end, style: self.pending, caret }
    }

    /// What a paragraph break asks of the document.
    pub fn plan_split(&self, at: LogicalPos) -> (r: SplitPlan)
        requires
            ({
                let path = edit_range(self@, at@).0.path;
                path.len() > 0 && path.last() is Block ==> path.last()->idx < u32::MAX
            }),
        ensures
            (r.start@, r.end@) == edit_range(self@, at@),
            r.caret@ == (Pos { path: next_block(r.start@.path), offset: 0 }),
    {
        let (start, end) = self.range_or(at);
        let caret = LogicalPos { path: bump_last_block_index(&start.path), offset: 0 };
        SplitPlan { start, end, caret }
    }

    /// The range that a page break replaces by a form feed. `None` in a table.
    pub fn plan_page_break(&self, at: LogicalPos) -> (r: Option<(LogicalPos, LogicalPos)>)
        ensures
            match r {
                Some((start, end)) => (start@, end@) == break_range(self@, at@) && !through_cell(
                    start@.path,
                ),
                None => through_cell(break_range(self@, at@).0.path),
            },
    {
        let (start, end) = match &self.selection {
            Some(sel) => if sel.anchor.same(&sel.caret) {
                (at.clone(), at)
            } else {
                ordered(sel.anchor.clone(), sel.caret.clone())
            },
            None => (at.clone(), at),
        };
        if start.path.in_cell() {
            None
        } else {
            Some((start, end))
        }
    }

    /// Enter a story with the caret at `at`.
    pub fn enter_story(&mut self, area: HeaderFooterArea, at: LogicalPos)
        ensures
            final(self)@ == entered(old(self)@, area, at@),
    {
        let body = self.selection.take();
        if self.story.is_none() {
            self.stash = body;
        }
        self.story = Some(area);
        self.composition = None;
        self.pending = None;
        self.affinity = CaretAffinity::LeadingX;
        self.selection = Some(SelectionState::at(at));
    }

    /// Leave the story for the body. Whether there was one.
    pub fn exit_story(&mut self, body: &DocumentTree) -> (r: bool)
        ensures
            r == old(self)@.story is Some,
            final(self)@ == left_story(old(self)@, body.blocks@),
    {
        if self.story.is_none() {
            return false;
        }
        self.selection = match self.stash.take() {
            Some(sel) => {
                let anchor = clamp_pos(body, sel.anchor);
                let caret = clamp_pos(body, sel.caret);
                let kind = derive_selection_kind(&anchor, &caret);
                Some(SelectionState { anchor, caret, ideal_x: None, kind })
            },
            None => None,
        };
        self.story = None;
        self.composition = None;
        self.pending = None;
        self.affinity = CaretAffinity::LeadingX;
        true
    }

    /// The range that a delete key removes: the selection, else what stands
    /// next to the caret in the direction of the key. `None` at the edge of the
    /// document.
    pub fn plan_delete(
        &self,
        doc: &DocumentTree,
        forward: bool,
        by_word: bool,
        step: CharStep,
    ) -> (r: Result<Option<(LogicalPos, LogicalPos)>, SessionError>)
        ensures
            match self@.sel {
                None => r == Err::<Option<(LogicalPos, LogicalPos)>, _>(SessionError::NoSelection),
                Some(sel) => r is Ok && ({
                    let (start, end) = in_doc_order(sel.anchor, sel.caret);
                    let goal = if start != end {
                        Some((start, end))
                    } else {
                        delete_range_at(doc.blocks@, sel.caret, forward, by_word, step)
                    };
                    match r->Ok_0 {
                        Some((a, b)) => goal == Some((a@, b@)),
                        None => goal is None,
                    }
                }),
            },
    {
        let (a, c): (LogicalPos, LogicalPos) = match &self.selection {
            Some(sel) => (sel.anchor.clone(), sel.caret.clone()),
            None => {
                return Err(SessionError::NoSelection);
            },
        };
        let caret = c.clone();
        let (start, end) = ordered(a, c);
        if !start.same(&end) {
            return Ok(Some((start, end)));
        }
        Ok(delete_target(doc, caret, forward, by_word, step))
    }

    /// Begin a composition.
    pub fn begin_composition(&mut self, at: LogicalPos)
        ensures
            final(self)@ == (State { comp: Some((at@, Seq::empty())), ..old(self)@ }),
    {
        let c = CompositionState { at, text: String::new() };
        assert(c.text@ =~= Seq::empty());
        self.composition = Some(c);
    }

    /// Set the text of the composition. One that was not begun stands at the
    /// caret, else at the start of the document.
    pub fn update_composition(&mut self, text: String) -> (at: LogicalPos)
        ensures
            at@ == (match (old(self)@.comp, old(self)@.sel) {
                (Some(c), _) => c.0,
                (None, Some(sel)) => sel.caret,
                (None, None) => top_pos(0, 0),
            }),
            final(self)@ == (State { comp: Some((at@, text@)), ..old(self)@ }),
    {
        let at = match &self.composition {
            Some(c) => c.at.clone(),
            None => match &self.selection {
                Some(s) => s.caret.clone(),
                None => LogicalPos::top(0, 0),
            },
        };
        self.composition = Some(CompositionState { at: at.clone(), text });
        at
    }

    /// End the composition. When it is committed and not empty, gives the place
    /// and the text to insert: in place of selected text, else where the
    /// composition began.
    pub fn end_composition(&mut self, commit: bool) -> (r: Option<(LogicalPos, LogicalPos, String)>)
        ensures
            final(self)@ == (State { comp: None, ..old(self)@ }),
            match (r, committed(old(self)@, commit)) {
                (Some((start, end, text)), Some(goal)) => (start@, end@, text@) == goal,
                (None, None) => true,
                _ => false,
            },
    {
        let c = match self.composition.take() {
            Some(c) => c,
            None => {
                return None;
            },
        };
        if !commit || c.text.as_str().is_empty() {
            return None;
        }
        let (start, end) = self.range_or(c.at.clone());
        if start.same(&end) {
            let at = c.at.clone();
            return Some((c.at, at, c.text));
        }
        Some((start, end, c.text))
    }
}

/// What ending a composition inserts, and where.
pub open spec fn committed(s: State, commit: bool) -> Option<(Pos, Pos, Seq<char>)> {
    match s.comp {
        Some((at, text)) if commit && text.len() > 0 => {
            let (start, end) = edit_range(s, at);
            if start == end {
                Some((at, at, text))
            } else {
                Some((start, end, text))
            }
        },
        _ => None,
    }
}

/// The highlights of a selection.
pub open spec fn highlights(geom: Seq<LineGeom>, sel: Sel) -> Seq<Rect> {
    let (start, end) = in_doc_order(sel.anchor, sel.caret);
    match sel.kind {
        Kind::Cells { table, from_row, from_col, to_row, to_col } => rects_of(
            cell_rects(geom, table, (from_row, from_col), (to_row, to_col), geom.len()),
        ),
        Kind::Linear => if start == end {
            Seq::empty()
        } else {
            selection_rects(geom, start, end, geom.len())
        },
    }
}

/// The rectangles of highlighted cells.
pub open spec fn rects_of(cells: Seq<CellRect>) -> Seq<Rect> {
    cells.map_values(|c: CellRect| c.rect)
}

/// What is reported of a selection.
#[derive(Debug, PartialEq, Eq)]
pub struct SelectionReport {
    pub start: LogicalPos,
    pub end: LogicalPos,
    pub caret: Rect,
    pub rects: Vec<Rect>,
    pub direction: Direction,
    pub attrs_at_caret: TextAttrs,
    pub paragraph_alignment: Alignment,
    pub kind: SelectionKind,
    pub attrs_mixed: AttrsMixed,
    pub paragraph_direction: Option<Direction>,
}

/// What a [`SelectionReport`] says.
pub ghost struct Report {
    pub start: Pos,
    pub end: Pos,
    pub caret: Rect,
    pub rects: Seq<Rect>,
    pub direction: Direction,
    pub attrs: Attrs,
    pub alignment: Alignment,
    pub kind: Kind,
    pub mixed: AttrsMixed,
    pub paragraph_direction: Option<Direction>,
}

impl View for SelectionReport {
    type V = Report;

    open spec fn view(&self) -> Report {
        Report {
            start: self.start@,
            end: self.end@,
            caret: self.caret,
            rects: self.rects@,
            direction: self.direction,
            attrs: self.attrs_at_caret@,
            alignment: self.paragraph_alignment,
            kind: self.kind@,
            mixed: self.attrs_mixed,
            paragraph_direction: self.paragraph_direction,
        }
    }
}

/// The direction of a document.
pub open spec fn base_direction(cfg: Option<RenderConfig>) -> Option<Direction> {
    match cfg {
        Some(c) => Some(c.base_direction),
        None => None,
    }
}

/// The report of a selection in a document laid out as `geom`. The armed style
/// shows only at a caret.
pub open spec fn reported(
    blocks: Seq<Block>,
    s: State,
    sel: Sel,
    geom: Seq<LineGeom>,
    cfg: Option<RenderConfig>,
    prev: u32,
    fallback: Rect,
    caret_w: i64,
) -> Report {
    let (start, end) = in_doc_order(sel.anchor, sel.caret);
    let pending = if start == end {
        s.pending
    } else {
        None
    };
    Report {
        start,
        end,
        caret: caret_rect(geom, sel.caret, fallback, caret_w, s.side),
        rects: highlights(geom, sel),
        direction: match base_direction(cfg) {
            Some(d) => d,
            None => Direction::Ltr,
        },
        attrs: attrs_of(effective_style(blocks, probe(start, end, prev), pending), cfg),
        alignment: alignment_at(
            blocks,
            sel.caret.path,
            match cfg {
                Some(c) => Some(c.alignment),
                None => None,
            },
        ),
        kind: sel.kind,
        mixed: mixed_over(blocks, start, end),
        paragraph_direction: direction_over(blocks, start, end, base_direction(cfg)),
    }
}

/// What an optional layout says.
pub open spec fn opt_lines(geom: Option<&Vec<LineGeom>>) -> Option<Seq<LineGeom>> {
    match geom {
        Some(g) => Some(g@),
        None => None,
    }
}

fn highlight_rects(
    geom: &Vec<LineGeom>,
    sel: &SelectionState,
    start: &LogicalPos,
    end: &LogicalPos,
) -> (r: Vec<Rect>)
    requires
        (start@, end@) == in_doc_order(sel@.anchor, sel@.caret),
    ensures
        r@ == highlights(geom@, sel@),
{
    match &sel.kind {
        SelectionKind::TableCells { table_path, from_row, from_col, to_row, to_col } => {
            let cells = table_cell_rects(geom, table_path, *from_row, *from_col, *to_row, *to_col);
            let mut out: Vec<Rect> = Vec::new();
            let mut i: usize = 0;
            while i < cells.len()
                invariant
                    i <= cells@.len(),
                    out@ == rects_of(cells@).take(i as int),
                decreases cells.len() - i,
            {
                out.push(cells[i].rect);
                i += 1;
                assert(out@ =~= rects_of(cells@).take(i as int));
            }
            assert(out@ =~= rects_of(cells@));
            out
        },
        SelectionKind::Linear => {
            if start.same(end) {
                let out: Vec<Rect> = Vec::new();
                assert(out@ =~= Seq::empty());
                out
            } else {
                selection_rects_geom(geom, start, end)
            }
        },
    }
}

impl Session {
    /// The report of the selection. `prev` is where the character before a
    /// caret starts; `fallback` is the caret of an empty layout.
    pub fn selection_changed(
        &self,
        doc: &DocumentTree,
        geom: Option<&Vec<LineGeom>>,
        cfg: Option<&RenderConfig>,
        prev: u32,
        fallback: Rect,
        caret_w: i64,
    ) -> (r: Result<SelectionReport, SessionError>)
        ensures
            match (self@.sel, opt_lines(geom)) {
                (None, _) => r == Err::<SelectionReport, _>(SessionError::NoSelection),
                (Some(_), None) => r == Err::<SelectionReport, _>(SessionError::NoLayout),
                (Some(sel), Some(lines)) => r is Ok && (r->Ok_0)@ == reported(
                    doc.blocks@,
                    self@,
                    sel,
                    lines,
                    opt_config(cfg),
                    prev,
                    fallback,
                    caret_w,
                ),
            },
    {
        let sel: &SelectionState = match &self.selection {
            Some(s) => s,
            None => {
                return Err(SessionError::NoSelection);
            },
        };
        let geom: &Vec<LineGeom> = match geom {
            Some(g) => g,
            None => {
                return Err(SessionError::NoLayout);
            },
        };
        let (start, end) = ordered(sel.anchor.clone(), sel.caret.clone());
        let rects = highlight_rects(geom, sel, &start, &end);
        let base: Option<Direction> = match cfg {
            Some(c) => Some(c.base_direction),
            None => None,
        };
        let align: Option<Alignment> = match cfg {
            Some(c) => Some(c.alignment),
            None => None,
        };
        let at = attrs_probe(&start, &end, prev);
        let pending: Option<SpanStyle> = if start.same(&end) {
            self.pending
        } else {
            None
        };
        let attrs_at_caret = attrs_at(doc, &at, pending, cfg);
        let caret = caret_rect_geom(geom, &sel.caret, fallback, caret_w, self.affinity);
        let attrs_mixed = attrs_mixed_over(doc, &start, &end);
        let paragraph_direction = paragraph_direction_over(doc, &start, &end, base);
        let paragraph_alignment = paragraph_alignment_at(doc, &sel.caret.path, align);
        Ok(
            SelectionReport {
                start,
                end,
                caret,
                rects,
                direction: match base {
                    Some(d) => d,
                    None => Direction::Ltr,
                },
                attrs_at_caret,
                paragraph_alignment,
                kind: sel.kind.clone(),
                attrs_mixed,
                paragraph_direction,
            },
        )
    }
}

/// A selection set with its caret at either end covers the same range.
pub proof fn law_selection_covers_its_range(start: Pos, end: Pos)
    requires
        alternates(start.path),
        alternates(end.path),
        pos_order(start, end) <= 0,
    ensures
        ({
            let a = between(fixed_end(start, end, end), end);
            let b = between(fixed_end(start, end, start), start);
            &&& in_doc_order(a.anchor, a.caret) == (start, end)
            &&& in_doc_order(b.anchor, b.caret) == (start, end)
            &&& a.kind == b.kind
        }),
{
    crate::common::law_pos_order_flips(start, end);
    crate::selection::law_kind_symmetric(start, end);
    if start != end && pos_order(start, end) == 0 {
        crate::common::law_pos_order_antisymmetric(start, end);
    }
}

/// A caret has no highlights and nothing mixed.
pub proof fn law_caret_report_is_plain(
    blocks: Seq<Block>,
    s: State,
    at: Pos,
    geom: Seq<LineGeom>,
    cfg: Option<RenderConfig>,
    prev: u32,
    fallback: Rect,
    caret_w: i64,
)
    ensures
        ({
            let r = reported(blocks, s, collapsed(at), geom, cfg, prev, fallback, caret_w);
            &&& r.start == at
            &&& r.end == at
            &&& r.rects.len() == 0
            &&& !r.mixed.bold && !r.mixed.italic && !r.mixed.underline && !r.mixed.strike
        }),
{
}

/// Ending a composition without committing it asks for no change.
pub proof fn law_cancelled_composition_inserts_nothing(s: State)
    ensures
        committed(s, false) is None,
{
}

/// What the session says aloud, in the order in which it was queued.
pub struct Announcements {
    pub queue: Vec<(AnnouncementPriority, String)>,
}

/// What announcements say.
pub open spec fn spoken(s: Seq<(AnnouncementPriority, String)>) -> Seq<
    (AnnouncementPriority, Seq<char>),
> {
    s.map_values(|a: (AnnouncementPriority, String)| (a.0, a.1@))
}

impl Announcements {
    /// Queue an announcement.
    pub fn announce(&mut self, priority: AnnouncementPriority, message: String)
        ensures
            spoken(final(self).queue@) == spoken(old(self).queue@).push((priority, message@)),
    {
        let ghost before = self.queue@;
        self.queue.push((priority, message));
        assert(spoken(self.queue@) =~= spoken(before).push((priority, message@)));
    }

    /// Hand out the queued announcements, oldest first, and empty the queue.
    pub fn drain(&mut self) -> (r: Vec<(AnnouncementPriority, String)>)
        ensures
            r@ == old(self).queue@,
            final(self).queue@.len() == 0,
    {
        let mut out: Vec<(AnnouncementPriority, String)> = Vec::new();
        std::mem::swap(&mut out, &mut self.queue);
        out
    }
}

/// Leaving a story brings the selection of the body back as it was, however many
/// stories were entered in between, when its ends are still in the body.
pub proof fn law_stories_give_the_body_back(
    s: State,
    first: HeaderFooterArea,
    at: Pos,
    second: HeaderFooterArea,
    there: Pos,
    blocks: Seq<Block>,
)
    requires
        s.story is None,
        s.sel is Some,
        clamped_pos(blocks, s.sel->0.anchor) == s.sel->0.anchor,
        clamped_pos(blocks, s.sel->0.caret) == s.sel->0.caret,
    ensures
        ({
            let once = left_story(entered(s, first, at), blocks);
            let twice = left_story(entered(entered(s, first, at), second, there), blocks);
            &&& once == twice
            &&& once.sel == Some(between(s.sel->0.anchor, s.sel->0.caret))
            &&& once.story is None
            &&& once.pending is None
        }),
{
}

/// A count of the changes to the document. Readers compare it across a command
/// to learn whether the document changed.
#[derive(Debug, Clone, Copy, PartialEq, Eq, Structural)]
pub struct MutationSeq {
    pub seq: u64,
}

/// A command changed the document: it was none that only reads, views or
/// selects, and it put another document in its place or left it at another
/// version.
pub open spec fn changes(query: bool, loaded: bool, before: u64, after: u64) -> bool {
    !query && (loaded || before != after)
}

/// The count after a command.
pub open spec fn counted(seq: int, query: bool, loaded: bool, before: u64, after: u64) -> int {
    if changes(query, loaded, before, after) {
        seq + 1
    } else {
        seq
    }
}

impl MutationSeq {
    /// Count a command that found the document at version `before` and left it
    /// at `after`. `query` says that it only reads, views or selects, which
    /// [`crate::dispatch::leaves_document`] tells, and `loaded` that it put another
    /// document in place, whose versions may start over. Gives whether the
    /// command changed the document.
    pub fn observe(&mut self, query: bool, loaded: bool, before: u64, after: u64) -> (changed: bool)
        requires
            old(self).seq < u64::MAX,
        ensures
            changed == changes(query, loaded, before, after),
            final(self).seq == counted(old(self).seq as int, query, loaded, before, after),
    {
        let changed: bool = !query && (loaded || before != after);
        if changed {
            self.seq += 1;
        }
        changed
    }
}

/// A command asks for a change of the document, and nothing in the situation
/// stands against it.
pub open spec fn asks_for_change(cmd: Command, s: Situation) -> bool {
    match cmd {
        Command::RenderPage { .. } | Command::LoadDocx { .. } | Command::Recover { .. } => true,
        Command::OpenDocument { format, .. } => format == DocFormat::Docx,
        Command::InsertText { .. } => true,
        Command::Undo | Command::Redo => true,
        Command::DeleteRange { .. } | Command::ReplaceRange { .. } => true,
        Command::ApplyFormatting { .. } | Command::ToggleFormatting { .. } => true,
        Command::SplitParagraph { at } => at is Some || s.has_selection,
        Command::EndComposition { commit } => commit,
        Command::DeleteAtCaret { .. } => true,
        Command::PastePlain { .. } | Command::PasteHtml { .. } => true,
        Command::InsertPageBreak { .. } => s.story is None,
        Command::EnterHeaderFooter { area, .. } => in_band(Some(area)),
        Command::MoveCaret { direction, .. } => direction == MoveDirection::NextCell,
        _ => op_of(cmd) is Some && refusal(cmd, s) is None,
    }
}

/// A command puts another document in place of the one there is.
pub open spec fn loads_document(cmd: Command) -> bool {
    match cmd {
        Command::RenderPage { .. } | Command::LoadDocx { .. } | Command::Recover { .. } => true,
        Command::OpenDocument { format, .. } => format == DocFormat::Docx,
        _ => false,
    }
}

/// A load that succeeded moves the count of changes on, whatever the versions of
/// the two documents are: those of the new one may start over, and may be the
/// same.
pub proof fn law_a_load_always_counts(
    cmd: Command,
    s: Situation,
    seq: int,
    before: u64,
    after: u64,
)
    requires
        loads_document(cmd),
    ensures
        counted(seq, is_query(routed(cmd, s)), true, before, after) == seq + 1,
{
}

/// Carrying out a command moves the count of changes on by one exactly where the
/// command asks for a change, is not refused, and put another document in place
/// or left the one there is at another version. Every other command leaves the
/// count alone, so it never falls.
pub proof fn law_count_follows_the_changes(
    cmd: Command,
    s: Situation,
    seq: int,
    loaded: bool,
    before: u64,
    after: u64,
)
    ensures
        ({
            let next = counted(seq, is_query(routed(cmd, s)), loaded, before, after);
            &&& next == seq + 1 <==> asks_for_change(cmd, s) && (loaded || before != after)
            &&& next == seq <==> !asks_for_change(cmd, s) || (!loaded && before == after)
            &&& next >= seq
            &&& refusal(cmd, s) is Some ==> next == seq
        }),
{
}

/// Putting the selection somewhere sets it, drops an armed style and shows the
/// caret on the leading side; what else the session holds stays.
pub proof fn law_placing_changes_the_selection_alone(s: State, sel: Sel)
    ensures
        ({
            let t = placed(s, sel);
            &&& t.sel == Some(sel)
            &&& t.pending is None
            &&& t.side == CaretAffinity::LeadingX
            &&& t.comp == s.comp && t.story == s.story && t.stash == s.stash && t.tracking
                == s.tracking
        }),
{
}

/// A selection between two places has its anchor at the first and its caret at
/// the second, and carries no column. The end that stays when the caret is put at
/// one end of a range is the other end.
pub proof fn law_selection_keeps_its_ends(a: Pos, b: Pos)
    ensures
        between(a, b).anchor == a && between(a, b).caret == b && between(a, b).ideal_x is None,
        text_between(a, b).anchor == a && text_between(a, b).caret == b && text_between(
            a,
            b,
        ).ideal_x is None && text_between(a, b).kind is Linear,
        fixed_end(a, b, a) == b,
        a != b ==> fixed_end(a, b, b) == a,
        collapsed(a).anchor == a && collapsed(a).caret == a,
{
}

/// An edit replaces the selection, from its earlier to its later end; without a
/// selection it happens at the place given. A page break replaces selected text
/// only, and leaves a mere caret alone.
pub proof fn law_edits_replace_the_selection(s: State, at: Pos)
    ensures
        s.sel is None ==> edit_range(s, at) == (at, at) && break_range(s, at) == (at, at),
        s.sel matches Some(sel) ==> {
            let (start, end) = edit_range(s, at);
            &&& pos_order(start, end) <= 0
            &&& (start == sel.anchor && end == sel.caret) || (start == sel.caret && end
                == sel.anchor)
            &&& pos_order(sel.anchor, sel.caret) <= 0 ==> start == sel.anchor
            &&& sel.anchor != sel.caret ==> break_range(s, at) == (start, end)
            &&& sel.anchor == sel.caret ==> break_range(s, at) == (at, at)
        },
{
    if s.sel is Some {
        crate::common::law_pos_order_flips(s.sel->0.anchor, s.sel->0.caret);
    }
}

/// Selecting all takes in the document from its very start to the end of the
/// last paragraph that stands outside tables.
pub proof fn law_select_all_reaches_the_last_paragraph(
    blocks: Seq<Block>,
    i: int,
    p: crate::document::Paragraph,
)
    requires
        0 <= i < blocks.len() <= u32::MAX,
        blocks[i] == Block::Paragraph(p),
        forall|j: int| i < j < blocks.len() ==> (#[trigger] blocks[j]) is Table,
    ensures
        ({
            let sel = whole_document(blocks);
            &&& sel.anchor.path == seq![PathStep::Block { idx: 0 }] && sel.anchor.offset == 0
            &&& sel.caret.path == seq![PathStep::Block { idx: i as u32 }]
            &&& sel.caret.offset == crate::document::text_len(p.text@) as u32
            &&& sel.kind is Linear
        }),
{
    lemma_last_top_para(blocks, blocks.len(), i);
}

proof fn lemma_last_top_para(blocks: Seq<Block>, n: nat, i: int)
    requires
        0 <= i < n <= blocks.len(),
        blocks[i] is Paragraph,
        forall|j: int| i < j < n ==> (#[trigger] blocks[j]) is Table,
    ensures
        last_top_para(blocks, n) == Some(i),
    decreases n,
{
    if i < n - 1 {
        assert(blocks[n - 1] is Table);
        lemma_last_top_para(blocks, (n - 1) as nat, i);
    }
}

/// Selecting a cell takes in its content from the start of its first block to
/// the end of its last.
pub proof fn law_cell_is_selected_whole(
    blocks: Seq<Block>,
    path: Seq<PathStep>,
    t: crate::document::Table,
    idx: u32,
    row: u32,
    col: u32,
)
    requires
        path.len() >= 2,
        path[0] == (PathStep::Block { idx }),
        path[1] == (PathStep::Cell { row, col }),
        idx < blocks.len(),
        blocks[idx as int] == Block::Table(t),
        row < t.rows@.len(),
        col < t.rows@[row as int].cells@.len(),
        0 < t.rows@[row as int].cells@[col as int].blocks@.len() <= u32::MAX,
    ensures
        ({
            let sel = whole_cell(blocks, path);
            let cell = t.rows@[row as int].cells@[col as int];
            let last = (cell.blocks@.len() - 1) as u32;
            &&& sel.anchor.path == seq![path[0], path[1], PathStep::Block { idx: 0 }]
            &&& sel.anchor.offset == 0
            &&& sel.caret.path == seq![path[0], path[1], PathStep::Block { idx: last }]
            &&& sel.caret.offset == len_at(blocks, sel.caret.path)
        }),
{
    let prefix = path.take(2);
    assert(prefix =~= seq![path[0], path[1]]);
    assert(cell_blocks(blocks, prefix) == Some(
        t.rows@[row as int].cells@[col as int].blocks@.len() as usize,
    ));
    let sel = whole_cell(blocks, path);
    assert(sel.anchor.path =~= seq![path[0], path[1], PathStep::Block { idx: 0 }]);
    let last = (t.rows@[row as int].cells@[col as int].blocks@.len() - 1) as u32;
    assert(sel.caret.path =~= seq![path[0], path[1], PathStep::Block { idx: last }]);
}

/// Entering a story puts a caret there, names the story, and drops an armed
/// style and a running composition; the selection of the body is set aside, and
/// stays aside when another story is entered from the first.
pub proof fn law_entering_a_story(s: State, area: HeaderFooterArea, at: Pos)
    ensures
        ({
            let t = entered(s, area, at);
            &&& t.sel matches Some(sel) && sel.anchor == at && sel.caret == at
            &&& t.story == Some(area)
            &&& t.pending is None && t.comp is None
            &&& t.tracking == s.tracking
            &&& s.story is None ==> t.stash == s.sel
            &&& s.story is Some ==> t.stash == s.stash
        }),
{
}

/// Leaving a story where none is being edited changes nothing; leaving one ends
/// it, and drops what was set aside.
pub proof fn law_leaving_a_story(s: State, blocks: Seq<Block>)
    ensures
        s.story is None ==> left_story(s, blocks) == s,
        s.story is Some ==> {
            let t = left_story(s, blocks);
            &&& t.story is None && t.stash is None && t.comp is None && t.pending is None
            &&& t.tracking == s.tracking
            &&& s.stash is None ==> t.sel is None
            &&& s.stash is Some ==> t.sel is Some
        },
{
}

/// The block after another has its last index one higher and is otherwise at
/// the same place.
pub proof fn law_next_block_is_the_sibling(path: Seq<PathStep>)
    requires
        path.len() > 0,
        path.last() is Block,
        path.last()->idx < u32::MAX,
    ensures
        next_block(path).len() == path.len(),
        next_block(path).last() is Block,
        next_block(path).last()->idx == path.last()->idx + 1,
        forall|i: int| 0 <= i < path.len() - 1 ==> next_block(path)[i] == #[trigger] path[i],
{
}

/// A committed composition puts its text in place of the selected text, and
/// where none is selected at the place where it began. One without text puts in
/// nothing.
pub proof fn law_committed_composition_is_typed(s: State)
    requires
        s.comp is Some,
    ensures
        ({
            let (at, text) = s.comp->0;
            &&& text.len() == 0 ==> committed(s, true) is None
            &&& text.len() > 0 ==> (committed(s, true) matches Some((start, end, typed)) && {
                &&& typed == text
                &&& s.sel is None ==> start == at && end == at
                &&& s.sel matches Some(sel) ==> if sel.anchor == sel.caret {
                    start == at && end == at
                } else {
                    (start, end) == (sel.anchor, sel.caret) || (start, end) == (
                        sel.caret,
                        sel.anchor,
                    )
                }
            })
        }),
{
}

/// What is reported of a selection: its ends in document order, the caret's
/// rectangle where the caret is, its kind, and the document's direction.
pub proof fn law_report_describes_the_selection(
    blocks: Seq<Block>,
    s: State,
    sel: Sel,
    geom: Seq<LineGeom>,
    cfg: Option<RenderConfig>,
    prev: u32,
    fallback: Rect,
    caret_w: i64,
)
    ensures
        ({
            let r = reported(blocks, s, sel, geom, cfg, prev, fallback, caret_w);
            &&& pos_order(r.start, r.end) <= 0
            &&& (r.start == sel.anchor && r.end == sel.caret) || (r.start == sel.caret && r.end
                == sel.anchor)
            &&& r.caret == caret_rect(geom, sel.caret, fallback, caret_w, s.side)
            &&& r.kind == sel.kind
            &&& cfg is None ==> r.direction == Direction::Ltr
            &&& cfg matches Some(c) ==> r.direction == c.base_direction
            &&& sel.kind is Linear && sel.anchor != sel.caret ==> r.rects == selection_rects(
                geom,
                r.start,
                r.end,
                geom.len(),
            )
            &&& sel.kind matches Kind::Cells { table, from_row, from_col, to_row, to_col } ==> {
                let cells = cell_rects(
                    geom,
                    table,
                    (from_row, from_col),
                    (to_row, to_col),
                    geom.len(),
                );
                &&& r.rects.len() == cells.len()
                &&& forall|i: int| 0 <= i < cells.len() ==> r.rects[i] == (#[trigger] cells[i]).rect
            }
        }),
{
    crate::common::law_pos_order_flips(sel.anchor, sel.caret);
}

/// A motion starts from the selection there is, and from a caret at the top of
/// the document where there is none.
pub proof fn law_motions_start_from_the_selection(s: State)
    ensures
        s.sel matches Some(sel) ==> selection_or_top(s) == sel,
        s.sel is None ==> selection_or_top(s).caret == top_pos(0, 0) && selection_or_top(s).anchor
            == top_pos(0, 0),
{
}

/// The attributes reported are those at the start of selected text, and for a
/// caret those of the character before it with the armed style on top; the
/// alignment is that of the caret's paragraph, and what is mixed and the
/// direction are those of the whole range.
pub proof fn law_report_shows_the_attributes(
    blocks: Seq<Block>,
    s: State,
    sel: Sel,
    geom: Seq<LineGeom>,
    cfg: Option<RenderConfig>,
    prev: u32,
    fallback: Rect,
    caret_w: i64,
)
    ensures
        ({
            let r = reported(blocks, s, sel, geom, cfg, prev, fallback, caret_w);
            &&& sel.anchor == sel.caret ==> r.attrs == attrs_of(
                effective_style(blocks, probe(sel.caret, sel.caret, prev), s.pending),
                cfg,
            )
            &&& sel.anchor != sel.caret ==> r.attrs == attrs_of(
                effective_style(blocks, r.start, None),
                cfg,
            )
            &&& cfg matches Some(c) ==> r.alignment == alignment_at(
                blocks,
                sel.caret.path,
                Some(c.alignment),
            )
            &&& cfg is None ==> r.alignment == alignment_at(blocks, sel.caret.path, None)
            &&& r.mixed == mixed_over(blocks, r.start, r.end)
            &&& cfg matches Some(c) ==> r.paragraph_direction == direction_over(
                blocks,
                r.start,
                r.end,
                Some(c.base_direction),
            )
        }),
{
}

} // verus!
