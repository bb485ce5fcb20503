//! What the layout of one paragraph starts from: its text with a composition
//! spliced in, its styled spans, indents and tab stops, and the lines after
//! which a page ends.

use crate::a11y::{
    find_marker, marker_of, resolve_base_direction, resolved_direction, NoteMarker,
};
use crate::boxes::{clamp32, clamped, LineBox, ParagraphBox};
use crate::cache::{law_same_layout_same_room, opt_text, same_layout, LayoutInput, RenderConfig};
use crate::common::{Alignment, BlockPath, Color, Direction, LogicalPos, Pos, PathStep};
use crate::command::{BridgeCellBorders, BridgeTabKind};
use crate::document::{
    byte_len, text_len, Block, InlineKind, InlineObject, NoteKind, Paragraph, TabStop, TableCell,
    TableRow,
};
use crate::field::Field;
use crate::spans::{
    all_small_caps_ok, apply_hyperlink_overlay, apply_revision_overlay, black, build_style_spans,
    can_shift, composed_spans, composition_layout_spans, gap_span, law_markup_needs_only_the_marks,
    law_ordered_runs_can_be_split, law_spans_of_a_text_can_shift, link_overlay, make_gap, revision_overlay,
    runs_ok, style_spans, StyleSpan,
};
use crate::tables::{div_down, twips_to_units, units};
use crate::text::{
    char_width, chars_of, lemma_text_len_push, slice_text, slices, text_slice, width_of,
};
use vstd::prelude::*;
use vstd::string::*;
use vstd::utf8::{encode_utf8, encode_utf8_valid_utf8, is_char_boundary, is_char_boundary_start_end_of_seq};

verus! {

broadcast use vstd::seq_lib::group_seq_properties;

/// The character that ends a page.
pub const PAGE_BREAK: char = '\u{000C}';

/// A page break stands at byte `pos` of a text.
pub open spec fn breaks_at(text: Seq<char>, pos: int) -> bool {
    exists|k: int|
        0 <= k < text.len() && (#[trigger] text[k]) == PAGE_BREAK && text_len(text.take(k)) == pos
}

/// A run of a line covers a page break.
pub open spec fn run_breaks(text: Seq<char>, line: LineBox, r: int) -> bool {
    exists|pos: int|
        line.runs@[r].source_start <= pos < line.runs@[r].source_end && #[trigger] breaks_at(text, pos)
}

/// A line covers a page break.
pub open spec fn line_breaks(text: Seq<char>, line: LineBox) -> bool {
    exists|r: int| 0 <= r < line.runs@.len() && #[trigger] run_breaks(text, line, r)
}

/// Which of the first `n` lines cover a page break, in order.
pub open spec fn break_lines(text: Seq<char>, lines: Seq<LineBox>, n: nat) -> Seq<usize>
    decreases n,
{
    if n == 0 {
        Seq::empty()
    } else {
        let head = break_lines(text, lines, (n - 1) as nat);
        if line_breaks(text, lines[n - 1]) {
            head.push((n - 1) as usize)
        } else {
            head
        }
    }
}

proof fn lemma_prefix_len(text: Seq<char>, k: int)
    requires
        0 <= k < text.len(),
    ensures
        text_len(text.take(k + 1)) == text_len(text.take(k)) + width_of(text[k]),
{
    assert(text.take(k + 1) =~= text.take(k).push(text[k]));
    lemma_text_len_push(text.take(k), text[k]);
}

proof fn lemma_prefix_len_grows(text: Seq<char>, j: int, k: int)
    requires
        0 <= j <= k <= text.len(),
    ensures
        text_len(text.take(j)) <= text_len(text.take(k)),
    decreases k - j,
{
    if j < k {
        lemma_prefix_len_grows(text, j, k - 1);
        lemma_prefix_len(text, k - 1);
    }
}

/// The byte offsets of the page breaks of a text.
fn page_breaks(text: &str) -> (r: Vec<usize>)
    ensures
        forall|i: int| 0 <= i < r@.len() ==> breaks_at(text@, #[trigger] r@[i] as int),
        forall|pos: int| #[trigger]
            breaks_at(text@, pos) ==> exists|i: int| 0 <= i < r@.len() && r@[i] == pos,
{
    let chars = chars_of(text);
    let len: usize = byte_len(text);
    let mut out: Vec<usize> = Vec::new();
    let mut at: usize = 0;
    let mut k: usize = 0;
    assert(text@.take(0) =~= Seq::empty());
    assert(text_len(text@.take(0)) == 0);
    while k < chars.len()
        invariant
            k <= chars@.len(),
            chars@ == text@,
            len == text_len(text@),
            at == text_len(text@.take(k as int)),
            forall|i: int| 0 <= i < out@.len() ==> breaks_at(text@, #[trigger] out@[i] as int),
            forall|j: int|
                0 <= j < k && (#[trigger] text@[j]) == PAGE_BREAK ==> exists|i: int|
                    0 <= i < out@.len() && out@[i] == text_len(text@.take(j)),
        decreases chars.len() - k,
    {
        let c: char = chars[k];
        proof {
            lemma_prefix_len(text@, k as int);
            lemma_prefix_len_grows(text@, k as int + 1, text@.len() as int);
            assert(text@.take(text@.len() as int) =~= text@);
        }
        if c == PAGE_BREAK {
            let ghost before = out@;
            assert(text@[k as int] == PAGE_BREAK);
            out.push(at);
            assert(breaks_at(text@, at as int));
            assert forall|j: int| 0 <= j < k + 1 && (#[trigger] text@[j])
                == PAGE_BREAK implies exists|i: int|
                0 <= i < out@.len() && out@[i] == text_len(text@.take(j)) by {
                if j < k {
                    let i = choose|i: int|
                        0 <= i < before.len() && before[i] == text_len(text@.take(j));
                    assert(out@[i] == before[i]);
                } else {
                    assert(out@[out@.len() - 1] == at);
                }
            }
        }
        at += char_width(c);
        k += 1;
    }
    assert forall|pos: int| #[trigger] breaks_at(text@, pos) implies exists|i: int|
        0 <= i < out@.len() && out@[i] == pos by {
        let j = choose|j: int|
            0 <= j < text@.len() && (#[trigger] text@[j]) == PAGE_BREAK && text_len(text@.take(j))
                == pos;
        assert(text@[j] == PAGE_BREAK);
    }
    out
}

fn check_line_breaks(line: &LineBox, breaks: &Vec<usize>, text: &str) -> (r: bool)
    requires
        forall|i: int| 0 <= i < breaks@.len() ==> breaks_at(text@, #[trigger] breaks@[i] as int),
        forall|pos: int| #[trigger]
            breaks_at(text@, pos) ==> exists|i: int| 0 <= i < breaks@.len() && breaks@[i] == pos,
    ensures
        r == line_breaks(text@, *line),
{
    let mut k: usize = 0;
    while k < line.runs.len()
        invariant
            k <= line.runs@.len(),
            forall|i: int| 0 <= i < breaks@.len() ==> breaks_at(text@, #[trigger] breaks@[i] as int),
            forall|pos: int| #[trigger]
                breaks_at(text@, pos) ==> exists|i: int| 0 <= i < breaks@.len() && breaks@[i] == pos,
            forall|j: int| 0 <= j < k ==> !(#[trigger] run_breaks(text@, *line, j)),
        decreases line.runs.len() - k,
    {
        let lo: usize = line.runs[k].source_start as usize;
        let hi: usize = line.runs[k].source_end as usize;
        let mut b: usize = 0;
        while b < breaks.len()
            invariant
                b <= breaks@.len(),
                k < line.runs@.len(),
                lo == line.runs@[k as int].source_start,
                hi == line.runs@[k as int].source_end,
                forall|i: int|
                    0 <= i < breaks@.len() ==> breaks_at(text@, #[trigger] breaks@[i] as int),
                forall|i: int| 0 <= i < b ==> !(lo <= #[trigger] breaks@[i] < hi),
            decreases breaks.len() - b,
        {
            let pos: usize = breaks[b];
            if lo <= pos && pos < hi {
                assert(breaks_at(text@, pos as int));
                assert(run_breaks(text@, *line, k as int));
                return true;
            }
            b += 1;
        }
        assert(!run_breaks(text@, *line, k as int)) by {
            if run_breaks(text@, *line, k as int) {
                let pos = choose|pos: int|
                    line.runs@[k as int].source_start <= pos < line.runs@[k as int].source_end
                        && #[trigger] breaks_at(text@, pos);
                let i = choose|i: int| 0 <= i < breaks@.len() && breaks@[i] == pos;
                assert(lo <= breaks@[i] < hi);
            }
        }
        k += 1;
    }
    false
}

/// The lines of a laid-out paragraph after which its page ends: those that
/// cover a page break of its text.
pub fn compute_page_break_lines(text: &str, para_box: &ParagraphBox) -> (r: Vec<usize>)
    ensures
        r@ == break_lines(text@, para_box.lines@, para_box.lines@.len()),
{
    let breaks = page_breaks(text);
    let mut out: Vec<usize> = Vec::new();
    let mut n: usize = 0;
    while n < para_box.lines.len()
        invariant
            n <= para_box.lines@.len(),
            forall|i: int| 0 <= i < breaks@.len() ==> breaks_at(text@, #[trigger] breaks@[i] as int),
            forall|pos: int| #[trigger]
                breaks_at(text@, pos) ==> exists|i: int| 0 <= i < breaks@.len() && breaks@[i] == pos,
            out@ == break_lines(text@, para_box.lines@, n as nat),
        decreases para_box.lines.len() - n,
    {
        if check_line_breaks(&para_box.lines[n], &breaks, text) {
            out.push(n);
        }
        n += 1;
    }
    out
}

/// A text without page breaks ends no page.
pub proof fn law_no_page_break_no_break_line(text: Seq<char>, lines: Seq<LineBox>, n: nat)
    requires
        !text.contains(PAGE_BREAK),
    ensures
        break_lines(text, lines, n).len() == 0,
    decreases n,
{
    if n > 0 {
        law_no_page_break_no_break_line(text, lines, (n - 1) as nat);
        if line_breaks(text, lines[n - 1]) {
            let r = choose|r: int|
                0 <= r < lines[n - 1].runs@.len() && #[trigger] run_breaks(text, lines[n - 1], r);
            let pos = choose|pos: int|
                lines[n - 1].runs@[r].source_start <= pos < lines[n - 1].runs@[r].source_end
                    && #[trigger] breaks_at(text, pos);
            let k = choose|k: int|
                0 <= k < text.len() && (#[trigger] text[k]) == PAGE_BREAK && text_len(text.take(k))
                    == pos;
            assert(text.contains(text[k]));
        }
    }
}

/// The break lines come in order, and each is a line of the paragraph.
pub proof fn law_break_lines_in_order(text: Seq<char>, lines: Seq<LineBox>, n: nat)
    requires
        n <= lines.len() <= usize::MAX,
    ensures
        forall|i: int|
            0 <= i < break_lines(text, lines, n).len() ==> (#[trigger] break_lines(text, lines, n)[i])
                < n,
        forall|i: int, j: int|
            0 <= i < j < break_lines(text, lines, n).len() ==> (#[trigger] break_lines(
                text,
                lines,
                n,
            )[i]) < (#[trigger] break_lines(text, lines, n)[j]),
    decreases n,
{
    if n > 0 {
        law_break_lines_in_order(text, lines, (n - 1) as nat);
        let head = break_lines(text, lines, (n - 1) as nat);
        let all = break_lines(text, lines, n);
        assert(forall|i: int| 0 <= i < head.len() ==> (#[trigger] all[i]) == head[i]);
        assert(all.len() > head.len() ==> all[head.len() as int] == (n - 1) as usize);
        assert(all.len() <= head.len() + 1);
        assert forall|i: int| 0 <= i < all.len() implies (#[trigger] all[i]) < n by {
            if i < head.len() {
                assert(head[i] < n - 1);
            }
        }
    }
}

/// Text that an input method is composing, not yet part of the document.
#[derive(Debug, PartialEq, Eq)]
pub struct CompositionState {
    pub at: LogicalPos,
    pub text: String,
}

/// A composition shows in the paragraph at `path`: it stands there, it is not
/// empty, and it stands between two characters.
pub open spec fn composes(at: Pos, comp: Seq<char>, path: Seq<PathStep>, text: Seq<char>) -> bool {
    &&& at.path == path
    &&& comp.len() > 0
    &&& at.offset <= text_len(text)
    &&& is_char_boundary(encode_utf8(text), at.offset as int)
}

/// Whether a composition shows in the paragraph at `path`.
pub fn composition_applies(comp: &CompositionState, path: &BlockPath, para: &Paragraph) -> (r: bool)
    ensures
        r == composes(comp.at@, comp.text@, path@, para.text@),
{
    let off: usize = comp.at.offset as usize;
    comp.at.path.same(path) && !comp.text.as_str().is_empty() && off <= byte_len(&para.text)
        && para.text.as_str().is_char_boundary(off)
}

/// A text with another spliced in at byte `off`.
pub open spec fn spliced(text: Seq<char>, off: int, comp: Seq<char>) -> Seq<char> {
    text_slice(text, 0, off) + comp + text_slice(text, off, text_len(text) as int)
}

/// A text with another spliced in at byte `off`.
pub fn splice_text(text: &str, off: u32, comp: &str) -> (r: String)
    requires
        slices(text@, off as int, text_len(text@) as int),
    ensures
        r@ == spliced(text@, off as int, comp@),
{
    proof {
        encode_utf8_valid_utf8(text@);
        is_char_boundary_start_end_of_seq(encode_utf8(text@));
    }
    let mut out = String::new();
    out.append(slice_text(text, 0, off as usize));
    out.append(comp);
    out.append(slice_text(text, off as usize, byte_len(text)));
    assert(out@ =~= spliced(text@, off as int, comp@));
    out
}

/// A text with a composition spliced in reads as before around it.
pub proof fn law_splice_keeps_the_text(text: Seq<char>, off: int, comp: Seq<char>)
    requires
        slices(text, off, text_len(text) as int),
    ensures
        encode_utf8(spliced(text, off, comp)) == encode_utf8(text).subrange(0, off) + encode_utf8(
            comp,
        ) + encode_utf8(text).subrange(off, text_len(text) as int),
        text_len(spliced(text, off, comp)) == text_len(text) + text_len(comp),
{
    encode_utf8_valid_utf8(text);
    is_char_boundary_start_end_of_seq(encode_utf8(text));
    let (a, b) = (text_slice(text, 0, off), text_slice(text, off, text_len(text) as int));
    crate::text::lemma_slice_len(text, 0, off);
    crate::text::lemma_slice_len(text, off, text_len(text) as int);
    crate::text::lemma_encode_concat(a, comp);
    crate::text::lemma_encode_concat(a + comp, b);
}

/// Spans with the look of links and then of tracked changes laid over them.
pub open spec fn overlaid_spans(base: Seq<StyleSpan>, para: Paragraph) -> Seq<StyleSpan> {
    let links = if para.hyperlinks@.len() == 0 {
        base
    } else {
        link_overlay(base, para.hyperlinks@, black(), base.len())
    };
    if para.revisions@.len() == 0 {
        links
    } else {
        revision_overlay(links, para.revisions@, black(), links.len())
    }
}

/// The spans that a paragraph is laid out with.
pub fn paragraph_spans(para: &Paragraph) -> (r: Vec<StyleSpan>)
    requires
        all_small_caps_ok(para.text@, para.spans@),
    ensures
        r@ == overlaid_spans(style_spans(para.text@, para.spans@, black()), *para),
{
    let plain = Color { r: 0, g: 0, b: 0, a: 255 };
    let base = build_style_spans(para, plain);
    apply_revision_overlay(
        apply_hyperlink_overlay(base, &para.hyperlinks, plain),
        &para.revisions,
        plain,
    )
}

/// The spans that a paragraph with a composition of `len` bytes at `off` is
/// laid out with.
pub fn composed_paragraph_spans(para: &Paragraph, off: u32, len: u32) -> (r: Vec<StyleSpan>)
    requires
        all_small_caps_ok(para.text@, para.spans@),
        off + len <= u32::MAX,
        can_shift(style_spans(para.text@, para.spans@, black()), len),
    ensures
        r@ == overlaid_spans(composed_spans(para.text@, para.spans@, off, len), *para),
{
    let plain = Color { r: 0, g: 0, b: 0, a: 255 };
    let base = composition_layout_spans(para, off, len);
    apply_revision_overlay(
        apply_hyperlink_overlay(base, &para.hyperlinks, plain),
        &para.revisions,
        plain,
    )
}

/// The indents of a paragraph in layout units: at the start, at the end, of
/// the first line, and of the lines after it.
pub fn props_to_layout_indents(para: &Paragraph, unit: u32) -> (r: (i32, i32, i32, i32))
    ensures
        r.0 == units(para.props.indent.start_twips, unit),
        r.1 == units(para.props.indent.end_twips, unit),
        r.2 == units(para.props.indent.first_line_twips, unit),
        r.3 == units(para.props.indent.hanging_twips, unit),
{
    (
        twips_to_units(para.props.indent.start_twips, unit),
        twips_to_units(para.props.indent.end_twips, unit),
        twips_to_units(para.props.indent.first_line_twips, unit),
        twips_to_units(para.props.indent.hanging_twips, unit),
    )
}

/// What is placed round the lines of a paragraph: the space above and below it
/// in layout units, the fields in its text, its borders and its shading.
#[derive(Debug, PartialEq, Eq)]
pub struct ParagraphFrame {
    pub before: i32,
    pub after: i32,
    pub fields: Vec<Field>,
    pub borders: Option<BridgeCellBorders>,
    pub shading: Option<Color>,
}

/// Fields by what they say: their bytes and their code.
pub open spec fn field_shapes(fields: Seq<Field>) -> Seq<(u32, u32, Seq<char>)> {
    fields.map_values(|f: Field| (f.start, f.end, f.instruction@))
}

/// What is placed round the lines of a paragraph.
pub fn paragraph_frame(para: &Paragraph, unit: u32) -> (r: ParagraphFrame)
    ensures
        r.before == units(para.props.spacing.before_twips, unit),
        r.after == units(para.props.spacing.after_twips, unit),
        field_shapes(r.fields@) == field_shapes(para.fields@),
        r.borders == para.props.borders,
        r.shading == para.props.shading,
{
    let mut fields: Vec<Field> = Vec::new();
    let mut i: usize = 0;
    while i < para.fields.len()
        invariant
            i <= para.fields@.len(),
            field_shapes(fields@) == field_shapes(para.fields@).take(i as int),
        decreases para.fields.len() - i,
    {
        let f: &Field = &para.fields[i];
        let ghost before = fields@;
        fields.push(Field { start: f.start, end: f.end, instruction: f.instruction.clone() });
        i += 1;
        assert(field_shapes(fields@) =~= field_shapes(before).push(
            field_shapes(para.fields@)[i - 1],
        ));
        assert(field_shapes(fields@) =~= field_shapes(para.fields@).take(i as int));
    }
    assert(field_shapes(fields@) =~= field_shapes(para.fields@));
    ParagraphFrame {
        before: twips_to_units(para.props.spacing.before_twips, unit),
        after: twips_to_units(para.props.spacing.after_twips, unit),
        fields,
        borders: para.props.borders,
        shading: para.props.shading,
    }
}

/// What the layout of a paragraph is given. `composed` says that a composition
/// is spliced in, so that the layout is not one to keep.
#[derive(Debug, PartialEq, Eq)]
pub struct ParagraphInput {
    pub text: String,
    pub spans: Vec<StyleSpan>,
    pub objects: Vec<InlineObjectInfo>,
    pub indents: (i32, i32, i32, i32),
    pub tab_stops: Vec<u32>,
    pub alignment: Alignment,
    pub base_direction: Direction,
    pub marker: Option<String>,
    pub composed: bool,
}

/// A composition shows in the paragraph at `path`, if there is one.
pub open spec fn shows(comp: Option<&CompositionState>, path: Seq<PathStep>, text: Seq<char>) -> bool {
    match comp {
        Some(c) => composes(c.at@, c.text@, path, text),
        None => false,
    }
}

/// A paragraph with a composition fits the offsets of positions.
pub open spec fn composition_fits(
    comp: Option<&CompositionState>,
    path: Seq<PathStep>,
    text: Seq<char>,
) -> bool {
    shows(comp, path, text) ==> text_len(text) + text_len(comp->0.text@) <= u32::MAX
}

/// The text and the spans that a paragraph is laid out with, and the room of its
/// inline objects. A composition is spliced into the text and its spans, and the
/// objects then take no room.
pub open spec fn input_content(
    para: Paragraph,
    path: Seq<PathStep>,
    comp: Option<&CompositionState>,
    markers: Seq<NoteMarker>,
    own: Seq<char>,
    em: u32,
    unit: u32,
) -> (Seq<char>, Seq<StyleSpan>, Seq<InlineInfoShape>) {
    let (text, runs) = (para.text@, para.spans@);
    if shows(comp, path, text) {
        let off = comp->0.at@.offset;
        let more = comp->0.text@;
        (
            spliced(text, off as int, more),
            overlaid_spans(composed_spans(text, runs, off, text_len(more) as u32), para),
            Seq::empty(),
        )
    } else {
        (
            text,
            overlaid_spans(style_spans(text, runs, black()), para),
            objects_shape(para.inline_objects@, markers, own, em, unit),
        )
    }
}

/// What the layout of the paragraph at `path` is given. `em` is the font size of
/// the body in layout units, `unit` the layout units to a point, and `own` the
/// marker of the note that the paragraph is in.
pub fn paragraph_input(
    para: &Paragraph,
    path: &BlockPath,
    comp: Option<&CompositionState>,
    cfg: &RenderConfig,
    markers: &Vec<NoteMarker>,
    own: &String,
    em: u32,
    unit: u32,
) -> (r: ParagraphInput)
    requires
        runs_ok(para.text@, para.spans@),
        composition_fits(comp, path@, para.text@),
    ensures
        (r.text@, r.spans@, infos_shape(r.objects@)) == input_content(
            *para,
            path@,
            comp,
            markers@,
            own@,
            em,
            unit,
        ),
        r.indents == (
            units(para.props.indent.start_twips, unit),
            units(para.props.indent.end_twips, unit),
            units(para.props.indent.first_line_twips, unit),
            units(para.props.indent.hanging_twips, unit),
        ),
        r.tab_stops@ == stop_positions(para.props.tab_stops@, para.props.tab_stops@.len()),
        r.alignment == (match para.props.alignment {
            Some(a) => a,
            None => cfg.alignment,
        }),
        r.base_direction == resolved_direction(*para, cfg.base_direction),
        opt_text(r.marker) == opt_text(para.marker),
        r.composed == shows(comp, path@, para.text@),
{
    proof {
        law_ordered_runs_can_be_split(para.text@, para.spans@);
    }
    let composed: bool = match comp {
        Some(c) => composition_applies(c, path, para),
        None => false,
    };
    let mut text: String = para.text.clone();
    let mut objects: Vec<InlineObjectInfo> = Vec::new();
    let spans: Vec<StyleSpan> = if composed {
        let c: &CompositionState = comp.unwrap();
        let len: u32 = byte_len(c.text.as_str()) as u32;
        let off: u32 = c.at.offset;
        proof {
            law_spans_of_a_text_can_shift(para.text@, para.spans@, black(), len);
            encode_utf8_valid_utf8(para.text@);
            is_char_boundary_start_end_of_seq(encode_utf8(para.text@));
        }
        text = splice_text(para.text.as_str(), off, c.text.as_str());
        assert(infos_shape(objects@) =~= Seq::empty());
        composed_paragraph_spans(para, off, len)
    } else {
        objects = build_inline_object_infos(para, markers, own, em, unit);
        paragraph_spans(para)
    };
    ParagraphInput {
        text,
        spans,
        objects,
        indents: props_to_layout_indents(para, unit),
        tab_stops: tab_stops_to_layout(&para.props.tab_stops),
        alignment: layout_align(para, cfg.alignment),
        base_direction: resolve_base_direction(para, cfg.base_direction),
        marker: match &para.marker {
            Some(m) => Some(m.clone()),
            None => None,
        },
        composed,
    }
}

/// What the layout of a paragraph outside the body is given besides its spans and
/// tab stops: no inline objects take room there.
pub open spec fn outside_body(
    r: ParagraphInput,
    para: Paragraph,
    cfg: RenderConfig,
    unit: u32,
) -> bool {
    &&& r.text@ == para.text@
    &&& r.objects@.len() == 0
    &&& r.indents == (
        units(para.props.indent.start_twips, unit),
        units(para.props.indent.end_twips, unit),
        units(para.props.indent.first_line_twips, unit),
        units(para.props.indent.hanging_twips, unit),
    )
    &&& r.alignment == (match para.props.alignment {
        Some(a) => a,
        None => cfg.alignment,
    })
    &&& r.base_direction == resolved_direction(para, cfg.base_direction)
    &&& opt_text(r.marker) == opt_text(para.marker)
    &&& !r.composed
}

fn input_outside_body(
    para: &Paragraph,
    cfg: &RenderConfig,
    unit: u32,
    spans: Vec<StyleSpan>,
    tab_stops: Vec<u32>,
) -> (r: ParagraphInput)
    ensures
        outside_body(r, *para, *cfg, unit),
        r.spans == spans,
        r.tab_stops == tab_stops,
{
    ParagraphInput {
        text: para.text.clone(),
        spans,
        objects: Vec::new(),
        indents: props_to_layout_indents(para, unit),
        tab_stops,
        alignment: layout_align(para, cfg.alignment),
        base_direction: resolve_base_direction(para, cfg.base_direction),
        marker: match &para.marker {
            Some(m) => Some(m.clone()),
            None => None,
        },
        composed: false,
    }
}

/// What the layout of a paragraph in a table cell is given: its own look, without
/// that of links and tracked changes.
pub fn cell_input(para: &Paragraph, cfg: &RenderConfig, unit: u32) -> (r: ParagraphInput)
    requires
        runs_ok(para.text@, para.spans@),
    ensures
        outside_body(r, *para, *cfg, unit),
        r.spans@ == style_spans(para.text@, para.spans@, black()),
        r.tab_stops@ == stop_positions(para.props.tab_stops@, para.props.tab_stops@.len()),
{
    proof {
        law_ordered_runs_can_be_split(para.text@, para.spans@);
    }
    let spans = build_style_spans(para, Color { r: 0, g: 0, b: 0, a: 255 });
    input_outside_body(para, cfg, unit, spans, tab_stops_to_layout(&para.props.tab_stops))
}

/// What the layout of a paragraph of a header or footer is given. Tab stops have
/// no effect there.
pub fn band_input(para: &Paragraph, cfg: &RenderConfig, unit: u32) -> (r: ParagraphInput)
    requires
        runs_ok(para.text@, para.spans@),
    ensures
        outside_body(r, *para, *cfg, unit),
        r.spans@ == overlaid_spans(style_spans(para.text@, para.spans@, black()), *para),
        r.tab_stops@.len() == 0,
{
    proof {
        law_ordered_runs_can_be_split(para.text@, para.spans@);
    }
    let spans = paragraph_spans(para);
    input_outside_body(para, cfg, unit, spans, Vec::new())
}

/// What the layout of a footnote's text at the foot of a page is given: one span
/// of unstyled text. `first_strong` is the direction of the text's first strong
/// character, when it has one.
pub fn note_input(text: String, first_strong: Option<Direction>, cfg: &RenderConfig) -> (r:
    ParagraphInput)
    requires
        text_len(text@) <= u32::MAX,
    ensures
        r.text == text,
        r.spans@ == seq![gap_span(0, text_len(text@) as u32, black())],
        r.objects@.len() == 0,
        r.indents == (0i32, 0i32, 0i32, 0i32),
        r.tab_stops@.len() == 0,
        r.alignment == cfg.alignment,
        r.base_direction == (match first_strong {
            Some(d) => d,
            None => cfg.base_direction,
        }),
        r.marker is None,
        !r.composed,
{
    let end: u32 = byte_len(text.as_str()) as u32;
    let mut spans: Vec<StyleSpan> = Vec::new();
    spans.push(make_gap(0, end, Color { r: 0, g: 0, b: 0, a: 255 }));
    assert(spans@ =~= seq![gap_span(0, end, black())]);
    ParagraphInput {
        text,
        spans,
        objects: Vec::new(),
        indents: (0, 0, 0, 0),
        tab_stops: Vec::new(),
        alignment: cfg.alignment,
        base_direction: match first_strong {
            Some(d) => d,
            None => cfg.base_direction,
        },
        marker: None,
        composed: false,
    }
}

proof fn lemma_same_stops(a: Seq<TabStop>, b: Seq<TabStop>, n: nat)
    requires
        n <= a.len() == b.len(),
        forall|i: int|
            0 <= i < a.len() ==> (#[trigger] a[i]).position_bits == b[i].position_bits && a[i].kind
                == b[i].kind,
    ensures
        stop_positions(a, n) == stop_positions(b, n),
    decreases n,
{
    if n > 0 {
        lemma_same_stops(a, b, (n - 1) as nat);
        assert(a[n - 1].position_bits == b[n - 1].position_bits && a[n - 1].kind == b[n - 1].kind);
    }
}

/// Paragraphs whose layouts have everything in common are given the same to be
/// laid out, so that a layout kept for one can stand for the other.
pub proof fn law_same_layout_same_input(
    x: LayoutInput,
    y: LayoutInput,
    path: Seq<PathStep>,
    other: Seq<PathStep>,
    em: u32,
    unit: u32,
)
    requires
        same_layout(x, y),
    ensures
        input_content(x.para, path, None, x.markers, x.own, em, unit) == input_content(
            y.para,
            other,
            None,
            y.markers,
            y.own,
            em,
            unit,
        ),
        x.para.props.indent == y.para.props.indent,
        stop_positions(x.para.props.tab_stops@, x.para.props.tab_stops@.len()) == stop_positions(
            y.para.props.tab_stops@,
            y.para.props.tab_stops@.len(),
        ),
        x.para.props.alignment == y.para.props.alignment,
        x.cfg.alignment == y.cfg.alignment,
        resolved_direction(x.para, x.cfg.base_direction) == resolved_direction(
            y.para,
            y.cfg.base_direction,
        ),
        opt_text(x.para.marker) == opt_text(y.para.marker),
{
    let (p, q) = (x.para, y.para);
    law_same_layout_same_room(x, y, em, unit);
    lemma_same_stops(p.props.tab_stops@, q.props.tab_stops@, p.props.tab_stops@.len());
    let base = style_spans(p.text@, p.spans@, black());
    let links = if p.hyperlinks@.len() == 0 {
        base
    } else {
        link_overlay(base, p.hyperlinks@, black(), base.len())
    };
    law_markup_needs_only_the_marks(links, p.revisions@, q.revisions@, black(), links.len());
}

/// The alignment that a paragraph is laid out with.
pub fn layout_align(para: &Paragraph, default: Alignment) -> (r: Alignment)
    ensures
        r == (match para.props.alignment {
            Some(a) => a,
            None => default,
        }),
{
    match para.props.alignment {
        Some(a) => a,
        None => default,
    }
}

/// Where a pattern of an IEEE-754 single stands in the order of the numbers:
/// its magnitude, negative with the sign bit set.
pub open spec fn float_rank(bits: u32) -> int {
    if bits < 0x8000_0000 {
        bits as int
    } else {
        -(bits - 0x8000_0000)
    }
}

/// Where a pattern of an IEEE-754 single stands in the order of the numbers.
pub fn rank(bits: u32) -> (r: i64)
    ensures
        r == float_rank(bits),
{
    if bits < 0x8000_0000 {
        bits as i64
    } else {
        -(bits as i64 - 0x8000_0000)
    }
}

/// How many leading positions are not greater than `x`.
pub open spec fn not_greater(s: Seq<u32>, x: u32) -> nat
    decreases s.len(),
{
    if s.len() == 0 || float_rank(s[0]) > float_rank(x) {
        0
    } else {
        1 + not_greater(s.drop_first(), x)
    }
}

/// The positions of the first `n` tab stops that set one, in increasing order.
/// Equal positions keep their order.
pub open spec fn stop_positions(stops: Seq<TabStop>, n: nat) -> Seq<u32>
    decreases n,
{
    if n == 0 {
        Seq::empty()
    } else {
        let head = stop_positions(stops, (n - 1) as nat);
        let s = stops[n - 1];
        if s.kind == BridgeTabKind::Clear {
            head
        } else {
            head.insert(not_greater(head, s.position_bits) as int, s.position_bits)
        }
    }
}

/// Positions in increasing order.
pub open spec fn rising(s: Seq<u32>) -> bool {
    forall|i: int, j: int|
        0 <= i < j < s.len() ==> float_rank(#[trigger] s[i]) <= float_rank(#[trigger] s[j])
}

proof fn lemma_not_greater(s: Seq<u32>, x: u32)
    ensures
        not_greater(s, x) <= s.len(),
        forall|i: int|
            0 <= i < not_greater(s, x) ==> float_rank(#[trigger] s[i]) <= float_rank(x),
        not_greater(s, x) < s.len() ==> float_rank(s[not_greater(s, x) as int]) > float_rank(x),
    decreases s.len(),
{
    if s.len() > 0 && float_rank(s[0]) <= float_rank(x) {
        let t = s.drop_first();
        lemma_not_greater(t, x);
        assert forall|i: int| 0 <= i < not_greater(s, x) implies float_rank(#[trigger] s[i])
            <= float_rank(x) by {
            if i > 0 {
                assert(t[i - 1] == s[i]);
            }
        }
    }
}

proof fn lemma_not_greater_is(s: Seq<u32>, x: u32, k: int)
    requires
        0 <= k <= s.len(),
        forall|i: int| 0 <= i < k ==> float_rank(#[trigger] s[i]) <= float_rank(x),
        k < s.len() ==> float_rank(s[k]) > float_rank(x),
    ensures
        not_greater(s, x) == k,
{
    lemma_not_greater(s, x);
    let m = not_greater(s, x) as int;
    if m < k {
        assert(float_rank(s[m]) <= float_rank(x));
    }
}

/// The positions of a paragraph's tab stops, as the layout goes through them:
/// in increasing order, without those that clear an inherited stop.
pub fn tab_stops_to_layout(stops: &Vec<TabStop>) -> (r: Vec<u32>)
    ensures
        r@ == stop_positions(stops@, stops@.len()),
{
    let mut out: Vec<u32> = Vec::new();
    let mut n: usize = 0;
    while n < stops.len()
        invariant
            n <= stops@.len(),
            out@ == stop_positions(stops@, n as nat),
        decreases stops.len() - n,
    {
        let s: TabStop = stops[n];
        if s.kind != BridgeTabKind::Clear {
            let x: i64 = rank(s.position_bits);
            let mut k: usize = 0;
            while k < out.len() && rank(out[k]) <= x
                invariant
                    k <= out@.len(),
                    x == float_rank(s.position_bits),
                    forall|i: int| 0 <= i < k ==> float_rank(#[trigger] out@[i]) <= x,
                decreases out.len() - k,
            {
                k += 1;
            }
            proof {
                lemma_not_greater_is(out@, s.position_bits, k as int);
            }
            out.insert(k, s.position_bits);
        }
        n += 1;
    }
    out
}

/// The layout's tab stops come in increasing order.
pub proof fn law_stops_rise(stops: Seq<TabStop>, n: nat)
    ensures
        rising(stop_positions(stops, n)),
    decreases n,
{
    if n > 0 {
        law_stops_rise(stops, (n - 1) as nat);
        let head = stop_positions(stops, (n - 1) as nat);
        let x = stops[n - 1].position_bits;
        lemma_not_greater(head, x);
        let k = not_greater(head, x) as int;
        let all = head.insert(k, x);
        assert forall|i: int, j: int| 0 <= i < j < all.len() implies float_rank(#[trigger] all[i])
            <= float_rank(#[trigger] all[j]) by {
            if i < k && j > k {
                assert(float_rank(head[i]) <= float_rank(head[j - 1]));
            } else if i == k {
                if k < j - 1 {
                    assert(float_rank(head[k]) <= float_rank(head[j - 1]));
                }
            } else if i > k {
                assert(float_rank(head[i - 1]) <= float_rank(head[j - 1]));
            } else if j < k {
                assert(float_rank(head[i]) <= float_rank(head[j]));
            }
        }
    }
}

/// The footnotes that the first `n` objects of a paragraph refer to. Those of a
/// text box stand where the box stands.
pub open spec fn object_footnotes(objects: Seq<InlineObject>, n: nat) -> Seq<u32>
    decreases objects, n,
{
    if n == 0 || n > objects.len() {
        Seq::empty()
    } else {
        let head = object_footnotes(objects, (n - 1) as nat);
        match objects[n - 1].kind {
            InlineKind::NoteRef { kind, id } if kind == NoteKind::Footnote => head.push(id),
            InlineKind::TextBox { blocks, .. } => head + blocks_footnotes(
                blocks@,
                blocks@.len(),
            ),
            _ => head,
        }
    }
}

/// The footnotes that a block refers to, in document order.
pub open spec fn block_footnotes(b: Block) -> Seq<u32>
    decreases b, 0nat,
{
    match b {
        Block::Paragraph(p) => object_footnotes(p.inline_objects@, p.inline_objects@.len()),
        Block::Table(t) => rows_footnotes(t.rows@, t.rows@.len()),
    }
}

/// The footnotes that the first `n` rows refer to.
pub open spec fn rows_footnotes(rows: Seq<TableRow>, n: nat) -> Seq<u32>
    decreases rows, n,
{
    if n == 0 || n > rows.len() {
        Seq::empty()
    } else {
        rows_footnotes(rows, (n - 1) as nat) + cells_footnotes(
            rows[n - 1].cells@,
            rows[n - 1].cells@.len(),
        )
    }
}

/// The footnotes that the first `n` cells refer to.
pub open spec fn cells_footnotes(cells: Seq<TableCell>, n: nat) -> Seq<u32>
    decreases cells, n,
{
    if n == 0 || n > cells.len() {
        Seq::empty()
    } else {
        cells_footnotes(cells, (n - 1) as nat) + blocks_footnotes(
            cells[n - 1].blocks@,
            cells[n - 1].blocks@.len(),
        )
    }
}

/// The footnotes that the first `n` blocks refer to.
pub open spec fn blocks_footnotes(blocks: Seq<Block>, n: nat) -> Seq<u32>
    decreases blocks, n,
{
    if n == 0 || n > blocks.len() {
        Seq::empty()
    } else {
        blocks_footnotes(blocks, (n - 1) as nat) + block_footnotes(blocks[n - 1])
    }
}

/// Append the footnotes that a list of blocks refers to.
pub fn collect_footnote_refs(blocks: &Vec<Block>, out: &mut Vec<u32>)
    ensures
        final(out)@ == old(out)@ + blocks_footnotes(blocks@, blocks@.len()),
    decreases blocks, 1nat,
{
    let ghost before = out@;
    let mut n: usize = 0;
    assert(out@ =~= before + blocks_footnotes(blocks@, 0));
    while n < blocks.len()
        invariant
            n <= blocks@.len(),
            out@ == before + blocks_footnotes(blocks@, n as nat),
        decreases blocks.len() - n,
    {
        assert(decreases_to!(blocks => blocks@[n as int]));
        walk_block_for_footnote_refs(&blocks[n], out);
        n += 1;
        assert(out@ =~= before + blocks_footnotes(blocks@, n as nat));
    }
}

/// Append the footnotes that a paragraph's objects refer to.
fn walk_objects_for_footnote_refs(objects: &Vec<InlineObject>, out: &mut Vec<u32>)
    ensures
        final(out)@ == old(out)@ + object_footnotes(objects@, objects@.len()),
    decreases objects, 1nat,
{
    let ghost before = out@;
    let mut n: usize = 0;
    assert(out@ =~= before + object_footnotes(objects@, 0));
    while n < objects.len()
        invariant
            n <= objects@.len(),
            out@ == before + object_footnotes(objects@, n as nat),
        decreases objects.len() - n,
    {
        let o: &InlineObject = &objects[n];
        match &o.kind {
            InlineKind::NoteRef { kind, id } => {
                if *kind == NoteKind::Footnote {
                    out.push(*id);
                }
            },
            InlineKind::TextBox { blocks, .. } => {
                assert(decreases_to!(objects => objects@[n as int]));
                assert(decreases_to!(o => o.kind));
                assert(decreases_to!(o.kind => o.kind->TextBox_blocks));
                collect_footnote_refs(blocks, out);
            },
            _ => {},
        }
        n += 1;
        assert(out@ =~= before + object_footnotes(objects@, n as nat));
    }
}

/// Append the footnotes that a block refers to.
pub fn walk_block_for_footnote_refs(block: &Block, out: &mut Vec<u32>)
    ensures
        final(out)@ == old(out)@ + block_footnotes(*block),
    decreases block, 0nat,
{
    let ghost before = out@;
    match block {
        Block::Paragraph(p) => {
            assert(decreases_to!(block => block->Paragraph_0));
            assert(decreases_to!(block->Paragraph_0 => block->Paragraph_0.inline_objects));
            walk_objects_for_footnote_refs(&p.inline_objects, out);
        },
        Block::Table(t) => {
            assert(decreases_to!(block => block->Table_0));
            assert(decreases_to!(block->Table_0 => block->Table_0.rows));
            let mut r: usize = 0;
            assert(out@ =~= before + rows_footnotes(t.rows@, 0));
            while r < t.rows.len()
                invariant
                    r <= t.rows@.len(),
                    block == Block::Table(*t),
                    decreases_to!(block => t.rows),
                    out@ == before + rows_footnotes(t.rows@, r as nat),
                decreases t.rows.len() - r,
            {
                let ghost so_far = out@;
                let cells: &Vec<TableCell> = &t.rows[r].cells;
                assert(decreases_to!(t.rows => t.rows@[r as int]));
                assert(decreases_to!(t.rows@[r as int] => t.rows@[r as int].cells));
                let mut c: usize = 0;
                assert(out@ =~= so_far + cells_footnotes(cells@, 0));
                while c < cells.len()
                    invariant
                        c <= cells@.len(),
                        decreases_to!(block => cells),
                        out@ == so_far + cells_footnotes(cells@, c as nat),
                    decreases cells.len() - c,
                {
                    assert(decreases_to!(cells => cells@[c as int]));
                    assert(decreases_to!(cells@[c as int] => cells@[c as int].blocks));
                    collect_footnote_refs(&cells[c].blocks, out);
                    c += 1;
                    assert(out@ =~= so_far + cells_footnotes(cells@, c as nat));
                }
                r += 1;
                assert(out@ =~= before + rows_footnotes(t.rows@, r as nat));
            }
        },
    }
}

/// Texts joined with a space between every two.
pub open spec fn joined(texts: Seq<String>, n: nat) -> Seq<char>
    decreases n,
{
    if n == 0 {
        Seq::empty()
    } else if n == 1 {
        texts[0]@
    } else {
        joined(texts, (n - 1) as nat) + seq![' '] + texts[n - 1]@
    }
}

/// The text of a footnote as it stands at the foot of a page: its marker, a
/// full stop and a space, and the texts of its paragraphs joined by spaces.
pub fn footnote_text(marker: &str, paragraphs: &Vec<String>) -> (r: String)
    ensures
        r@ == marker@ + seq!['.', ' '] + joined(paragraphs@, paragraphs@.len()),
{
    let mut out = String::new();
    out.append(marker);
    out.append(". ");
    proof {
        reveal_strlit(". ");
        reveal_strlit(" ");
        assert(". "@ =~= seq!['.', ' ']);
        assert(" "@ =~= seq![' ']);
    }
    let ghost head = marker@ + seq!['.', ' '];
    assert(out@ =~= head + joined(paragraphs@, 0));
    let mut n: usize = 0;
    while n < paragraphs.len()
        invariant
            n <= paragraphs@.len(),
            " "@ == seq![' '],
            out@ == head + joined(paragraphs@, n as nat),
        decreases paragraphs.len() - n,
    {
        if n > 0 {
            out.append(" ");
        }
        out.append(paragraphs[n].as_str());
        n += 1;
        assert(out@ =~= head + joined(paragraphs@, n as nat));
    }
    out
}

/// A font size or line height of the body as it is at the foot of a page, in
/// layout units: 85 percent of it, rounded down.
pub fn note_size(body: u32) -> (r: u32)
    ensures
        r == (body * 85) / 100,
{
    (body as u64 * 85 / 100) as u32
}

/// Whether every paragraph of a header or footer is empty, so that it takes no
/// room.
pub fn band_is_empty(paragraphs: &Vec<Paragraph>) -> (r: bool)
    ensures
        r == (forall|i: int| 0 <= i < paragraphs@.len() ==> (#[trigger] paragraphs@[i]).text@.len()
            == 0),
{
    let mut n: usize = 0;
    while n < paragraphs.len()
        invariant
            n <= paragraphs@.len(),
            forall|i: int| 0 <= i < n ==> (#[trigger] paragraphs@[i]).text@.len() == 0,
        decreases paragraphs.len() - n,
    {
        if !paragraphs[n].text.as_str().is_empty() {
            return false;
        }
        n += 1;
    }
    true
}

/// What an inline object is to the layout.
#[derive(Debug, PartialEq, Eq)]
pub enum InlineInfoKind {
    Image { rel_id: String },
    Marker { text: String },
    TextBox { id: String },
}

/// The room that an inline object takes in its line, in layout units.
#[derive(Debug, PartialEq, Eq)]
pub struct InlineObjectInfo {
    pub at: u32,
    pub width: i32,
    pub height: i32,
    pub kind: InlineInfoKind,
}

/// What an inline object is to the layout.
pub ghost enum InlineInfoTree {
    Image { rel_id: Seq<char> },
    Marker { text: Seq<char> },
    TextBox { id: Seq<char> },
}

/// The room that an inline object takes in its line.
pub ghost struct InlineInfoShape {
    pub at: u32,
    pub width: i32,
    pub height: i32,
    pub kind: InlineInfoTree,
}

/// What an inline object's room is.
pub open spec fn info_shape(i: InlineObjectInfo) -> InlineInfoShape {
    InlineInfoShape {
        at: i.at,
        width: i.width,
        height: i.height,
        kind: match i.kind {
            InlineInfoKind::Image { rel_id } => InlineInfoTree::Image { rel_id: rel_id@ },
            InlineInfoKind::Marker { text } => InlineInfoTree::Marker { text: text@ },
            InlineInfoKind::TextBox { id } => InlineInfoTree::TextBox { id: id@ },
        },
    }
}

/// The room of each object of a list.
pub open spec fn infos_shape(s: Seq<InlineObjectInfo>) -> Seq<InlineInfoShape> {
    Seq::new(s.len(), |i: int| info_shape(s[i]))
}

/// EMU to the point.
pub const EMU_PER_PT: i64 = 12_700;

/// A length in EMU at `unit` layout units to a point, rounded down.
pub open spec fn emu_units(emu: i64, unit: u32) -> i32 {
    clamped((emu * unit) / EMU_PER_PT as int)
}

fn emu_to_units(emu: i64, unit: u32) -> (r: i32)
    ensures
        r == emu_units(emu, unit),
{
    assert(-0x8000_0000_0000_0000 * 0xFFFF_FFFF <= emu * unit <= 0x7FFF_FFFF_FFFF_FFFF
        * 0xFFFF_FFFF) by (nonlinear_arith)
        requires
            -0x8000_0000_0000_0000 <= emu <= 0x7FFF_FFFF_FFFF_FFFF,
            0 <= unit <= 0xFFFF_FFFF,
    ;
    clamp32(div_down(emu as i128 * unit as i128, EMU_PER_PT as i128))
}

/// The width of a note's mark at a font size of `em`: 0.45 em for each byte, and
/// no less than for one.
pub open spec fn mark_width(em: u32, bytes: nat) -> i32 {
    clamped(
        (em * 45 * (if bytes == 0 {
            1
        } else {
            bytes as int
        })) / 100,
    )
}

/// The height of a note's mark at a font size of `em`: 0.7 em.
pub open spec fn mark_height(em: u32) -> i32 {
    clamped((em * 7) / 10)
}

/// The room of a note's mark.
pub open spec fn mark_shape(at: u32, text: Seq<char>, em: u32) -> InlineInfoShape {
    InlineInfoShape {
        at,
        width: mark_width(em, text_len(text)),
        height: mark_height(em),
        kind: InlineInfoTree::Marker { text },
    }
}

/// The room of one object. A picture and a text box have their own size; a note's
/// mark is as wide as its text.
pub open spec fn object_shape(
    o: InlineObject,
    markers: Seq<NoteMarker>,
    own: Seq<char>,
    em: u32,
    unit: u32,
) -> InlineInfoShape {
    match o.kind {
        InlineKind::Image { rel_id, width_emu, height_emu, .. } => InlineInfoShape {
            at: o.at,
            width: emu_units(width_emu, unit),
            height: emu_units(height_emu, unit),
            kind: InlineInfoTree::Image { rel_id: rel_id@ },
        },
        InlineKind::TextBox { id, width_emu, height_emu, .. } => InlineInfoShape {
            at: o.at,
            width: emu_units(width_emu, unit),
            height: emu_units(height_emu, unit),
            kind: InlineInfoTree::TextBox { id: id@ },
        },
        InlineKind::NoteRef { kind, id } => mark_shape(o.at, marker_of(markers, kind, id), em),
        InlineKind::NoteSelfRef { .. } => mark_shape(o.at, own, em),
    }
}

/// The room of every object of a list.
pub open spec fn objects_shape(
    objects: Seq<InlineObject>,
    markers: Seq<NoteMarker>,
    own: Seq<char>,
    em: u32,
    unit: u32,
) -> Seq<InlineInfoShape> {
    Seq::new(objects.len(), |i: int| object_shape(objects[i], markers, own, em, unit))
}

fn make_mark(at: u32, text: String, em: u32) -> (r: InlineObjectInfo)
    ensures
        info_shape(r) == mark_shape(at, text@, em),
{
    let bytes: usize = byte_len(text.as_str());
    let count: u128 = if bytes == 0 {
        1
    } else {
        bytes as u128
    };
    assert(0 <= em * 45 * count <= 0xFFFF_FFFF * 45 * 0xFFFF_FFFF_FFFF_FFFF) by (nonlinear_arith)
        requires
            0 <= em <= 0xFFFF_FFFF,
            0 <= count <= 0xFFFF_FFFF_FFFF_FFFF,
    ;
    let width: u128 = (em as u128 * 45 * count) / 100;
    let height: i128 = (em as i128 * 7) / 10;
    InlineObjectInfo {
        at,
        width: clamp32(width as i128),
        height: clamp32(height),
        kind: InlineInfoKind::Marker { text },
    }
}

/// The room that each inline object of a paragraph takes. `em` is the font size
/// of the body in layout units, `unit` the layout units to a point, and `own` the
/// marker of the note that the paragraph is in.
pub fn build_inline_object_infos(
    para: &Paragraph,
    markers: &Vec<NoteMarker>,
    own: &String,
    em: u32,
    unit: u32,
) -> (r: Vec<InlineObjectInfo>)
    ensures
        infos_shape(r@) == objects_shape(para.inline_objects@, markers@, own@, em, unit),
{
    let mut out: Vec<InlineObjectInfo> = Vec::new();
    let mut i: usize = 0;
    while i < para.inline_objects.len()
        invariant
            i <= para.inline_objects@.len(),
            out@.len() == i,
            forall|j: int|
                0 <= j < i ==> info_shape(#[trigger] out@[j]) == object_shape(
                    para.inline_objects@[j],
                    markers@,
                    own@,
                    em,
                    unit,
                ),
        decreases para.inline_objects.len() - i,
    {
        let o: &InlineObject = &para.inline_objects[i];
        let info: InlineObjectInfo = match &o.kind {
            InlineKind::Image { rel_id, width_emu, height_emu, .. } => InlineObjectInfo {
                at: o.at,
                width: emu_to_units(*width_emu, unit),
                height: emu_to_units(*height_emu, unit),
                kind: InlineInfoKind::Image { rel_id: rel_id.clone() },
            },
            InlineKind::TextBox { id, width_emu, height_emu, .. } => InlineObjectInfo {
                at: o.at,
                width: emu_to_units(*width_emu, unit),
                height: emu_to_units(*height_emu, unit),
                kind: InlineInfoKind::TextBox { id: id.clone() },
            },
            InlineKind::NoteRef { kind, id } => make_mark(
                o.at,
                find_marker(markers, *kind, *id),
                em,
            ),
            InlineKind::NoteSelfRef { .. } => make_mark(o.at, own.clone(), em),
        };
        out.push(info);
        i += 1;
    }
    assert(infos_shape(out@) =~= objects_shape(para.inline_objects@, markers@, own@, em, unit));
    out
}

/// A line is among the break lines exactly when one of its runs covers a page
/// break.
pub proof fn law_break_lines_cover_breaks(text: Seq<char>, lines: Seq<LineBox>, n: nat, i: int)
    requires
        0 <= i < n <= lines.len() <= usize::MAX,
    ensures
        break_lines(text, lines, n).contains(i as usize) <==> exists|r: int, k: int|
            {
                &&& 0 <= r < lines[i].runs@.len() && 0 <= k < text.len()
                &&& #[trigger] text[k] == PAGE_BREAK
                &&& (#[trigger] lines[i].runs@[r]).source_start <= text_len(text.take(k))
                    < lines[i].runs@[r].source_end
            },
{
    lemma_break_listed(text, lines, n, i);
    if line_breaks(text, lines[i]) {
        let r = choose|r: int| 0 <= r < lines[i].runs@.len() && #[trigger] run_breaks(
            text,
            lines[i],
            r,
        );
        let pos = choose|pos: int|
            lines[i].runs@[r].source_start <= pos < lines[i].runs@[r].source_end
                && #[trigger] breaks_at(text, pos);
        let k = choose|k: int|
            0 <= k < text.len() && (#[trigger] text[k]) == PAGE_BREAK && text_len(text.take(k))
                == pos;
        assert(text[k] == PAGE_BREAK && lines[i].runs@[r].source_start <= text_len(text.take(k)));
    }
    if exists|r: int, k: int|
        {
            &&& 0 <= r < lines[i].runs@.len() && 0 <= k < text.len()
            &&& #[trigger] text[k] == PAGE_BREAK
            &&& (#[trigger] lines[i].runs@[r]).source_start <= text_len(text.take(k))
                < lines[i].runs@[r].source_end
        } {
        let (r, k) = choose|r: int, k: int|
            {
                &&& 0 <= r < lines[i].runs@.len() && 0 <= k < text.len()
                &&& #[trigger] text[k] == PAGE_BREAK
                &&& (#[trigger] lines[i].runs@[r]).source_start <= text_len(text.take(k))
                    < lines[i].runs@[r].source_end
            };
        assert(breaks_at(text, text_len(text.take(k)) as int));
        assert(run_breaks(text, lines[i], r));
    }
}

proof fn lemma_break_listed(text: Seq<char>, lines: Seq<LineBox>, n: nat, i: int)
    requires
        0 <= i < lines.len() <= usize::MAX,
        n <= lines.len(),
    ensures
        break_lines(text, lines, n).contains(i as usize) <==> i < n && line_breaks(text, lines[i]),
    decreases n,
{
    if n > 0 {
        lemma_break_listed(text, lines, (n - 1) as nat, i);
        let head = break_lines(text, lines, (n - 1) as nat);
        let all = break_lines(text, lines, n);
        if line_breaks(text, lines[n - 1]) {
            assert(all[head.len() as int] == (n - 1) as usize);
            assert forall|x: usize| head.contains(x) implies all.contains(x) by {
                let j = choose|j: int| 0 <= j < head.len() && head[j] == x;
                assert(all[j] == x);
            }
            if all.contains(i as usize) && i != n - 1 {
                let j = choose|j: int| 0 <= j < all.len() && all[j] == i as usize;
                assert(head[j] == i as usize);
            }
        }
    }
}

/// A point is 12700 units of a picture's size: a length in layout units is the
/// greatest that is not longer.
pub proof fn law_picture_lengths(emu: i64, unit: u32)
    requires
        -0x8000_0000 * 12700 <= emu * unit <= 0x7FFF_FFFF * 12700,
    ensures
        12700 * emu_units(emu, unit) <= emu * unit < 12700 * (emu_units(emu, unit) + 1),
{
}

/// The room that an inline object takes stands at the object's own place: a
/// picture and a text box have the width and the height that are set on them, and
/// a note's mark is as wide as its text needs.
pub proof fn law_room_of_an_object(
    o: InlineObject,
    markers: Seq<NoteMarker>,
    own: Seq<char>,
    em: u32,
    unit: u32,
)
    ensures
        ({
            let r = object_shape(o, markers, own, em, unit);
            &&& r.at == o.at
            &&& o.kind matches InlineKind::Image { rel_id, width_emu, height_emu, .. } ==> r.width
                == emu_units(width_emu, unit) && r.height == emu_units(height_emu, unit) && r.kind
                == (InlineInfoTree::Image { rel_id: rel_id@ })
            &&& o.kind matches InlineKind::TextBox { id, width_emu, height_emu, .. } ==> r.width
                == emu_units(width_emu, unit) && r.height == emu_units(height_emu, unit) && r.kind
                == (InlineInfoTree::TextBox { id: id@ })
            &&& o.kind matches InlineKind::NoteRef { kind, id } ==> r.kind
                == (InlineInfoTree::Marker { text: marker_of(markers, kind, id) }) && r.width
                == mark_width(em, text_len(marker_of(markers, kind, id))) && r.height
                == mark_height(em)
            &&& o.kind matches InlineKind::NoteSelfRef { .. } ==> r.kind
                == (InlineInfoTree::Marker { text: own }) && r.width == mark_width(
                em,
                text_len(own),
            ) && r.height == mark_height(em)
        }),
{
}

/// A note's mark is 0.45 em wide for each byte of its text, for one at least, and
/// 0.7 em high.
pub proof fn law_room_of_a_mark(em: u32, bytes: nat)
    requires
        1 <= bytes <= 0x1000,
        em <= 0x10_0000,
    ensures
        mark_width(em, bytes) == clamped((em * 45 * bytes) / 100),
        mark_width(em, 0) == mark_width(em, 1),
        10 * mark_height(em) <= em * 7 < 10 * (mark_height(em) + 1),
{
}

/// The footnotes of a paragraph are those that it refers to, one for each
/// reference; endnotes are none of them.
pub proof fn law_footnotes_of_a_paragraph(objects: Seq<InlineObject>, n: nat, i: int)
    requires
        0 <= i < n <= objects.len(),
    ensures
        objects[i].kind matches InlineKind::NoteRef { kind: NoteKind::Footnote, id }
            ==> object_footnotes(objects, n).contains(id),
        (objects[n - 1].kind matches InlineKind::NoteRef { kind: NoteKind::Endnote, .. })
            ==> object_footnotes(objects, n) == object_footnotes(objects, (n - 1) as nat),
        objects[n - 1].kind is Image ==> object_footnotes(objects, n) == object_footnotes(
            objects,
            (n - 1) as nat,
        ),
        objects[n - 1].kind matches InlineKind::NoteRef { kind: NoteKind::Footnote, id }
            ==> object_footnotes(objects, n) == object_footnotes(objects, (n - 1) as nat).push(id),
    decreases n,
{
    let head = object_footnotes(objects, (n - 1) as nat);
    let all = object_footnotes(objects, n);
    if let InlineKind::NoteRef { kind: NoteKind::Footnote, id } = objects[i].kind {
        if i < n - 1 {
            law_footnotes_of_a_paragraph(objects, (n - 1) as nat, i);
            let k = choose|k: int| 0 <= k < head.len() && head[k] == id;
            assert(all[k] == id);
        } else {
            assert(all[head.len() as int] == id);
        }
    }
}

/// Every tab stop that sets a position is kept, and none that clears one.
pub proof fn law_every_stop_is_kept(stops: Seq<TabStop>, n: nat, i: int)
    requires
        0 <= i < n <= stops.len(),
    ensures
        stops[i].kind != BridgeTabKind::Clear ==> stop_positions(stops, n).contains(
            stops[i].position_bits,
        ),
        stops[n - 1].kind == BridgeTabKind::Clear ==> stop_positions(stops, n) == stop_positions(
            stops,
            (n - 1) as nat,
        ),
        stops[n - 1].kind != BridgeTabKind::Clear ==> stop_positions(stops, n).len()
            == stop_positions(stops, (n - 1) as nat).len() + 1,
    decreases n,
{
    let head = stop_positions(stops, (n - 1) as nat);
    let all = stop_positions(stops, n);
    let s = stops[n - 1];
    lemma_not_greater_range(head, s.position_bits);
    let at = not_greater(head, s.position_bits) as int;
    if i < n - 1 {
        law_every_stop_is_kept(stops, (n - 1) as nat, i);
        if stops[i].kind != BridgeTabKind::Clear {
            let k = choose|k: int| 0 <= k < head.len() && head[k] == stops[i].position_bits;
            if s.kind != BridgeTabKind::Clear {
                if k < at {
                    assert(all[k] == head[k]);
                } else {
                    assert(all[k + 1] == head[k]);
                }
            }
        }
    } else if s.kind != BridgeTabKind::Clear {
        assert(all[at] == s.position_bits);
    }
}

proof fn lemma_not_greater_range(s: Seq<u32>, x: u32)
    ensures
        not_greater(s, x) <= s.len(),
    decreases s.len(),
{
    if s.len() > 0 && float_rank(s[0]) <= float_rank(x) {
        lemma_not_greater_range(s.drop_first(), x);
    }
}

proof fn lemma_contains_either(a: Seq<u32>, b: Seq<u32>, id: u32)
    ensures
        (a + b).contains(id) <==> a.contains(id) || b.contains(id),
{
    let all = a + b;
    if a.contains(id) {
        let k = choose|k: int| 0 <= k < a.len() && a[k] == id;
        assert(all[k] == id);
    }
    if b.contains(id) {
        let k = choose|k: int| 0 <= k < b.len() && b[k] == id;
        assert(all[a.len() + k] == id);
    }
    if all.contains(id) {
        let k = choose|k: int| 0 <= k < all.len() && all[k] == id;
        if k < a.len() {
            assert(a[k] == id);
        } else {
            assert(b[k - a.len()] == id);
        }
    }
}

/// The footnotes of a list of blocks are those of each of its blocks; those of a
/// table are those of the blocks in each of its cells.
pub proof fn law_footnotes_of_every_block(blocks: Seq<Block>, n: nat, i: int, id: u32)
    requires
        0 <= i < n <= blocks.len(),
        block_footnotes(blocks[i]).contains(id),
    ensures
        blocks_footnotes(blocks, n).contains(id),
    decreases n,
{
    let head = blocks_footnotes(blocks, (n - 1) as nat);
    assert(blocks_footnotes(blocks, n) == head + block_footnotes(blocks[n - 1]));
    lemma_contains_either(head, block_footnotes(blocks[n - 1]), id);
    if i < n - 1 {
        law_footnotes_of_every_block(blocks, (n - 1) as nat, i, id);
    }
}

/// A footnote that a block in a cell refers to is a footnote of the table.
pub proof fn law_footnotes_of_every_cell(t: crate::document::Table, r: int, c: int, id: u32)
    requires
        0 <= r < t.rows@.len(),
        0 <= c < t.rows@[r].cells@.len(),
        ({
            let cell = t.rows@[r].cells@[c];
            blocks_footnotes(cell.blocks@, cell.blocks@.len()).contains(id)
        }),
    ensures
        block_footnotes(Block::Table(t)).contains(id),
{
    lemma_cells_footnotes(t.rows@[r].cells@, t.rows@[r].cells@.len(), c, id);
    lemma_rows_footnotes(t.rows@, t.rows@.len(), r, id);
    assert(block_footnotes(Block::Table(t)) == rows_footnotes(t.rows@, t.rows@.len()));
}

proof fn lemma_cells_footnotes(cells: Seq<TableCell>, n: nat, c: int, id: u32)
    requires
        0 <= c < n <= cells.len(),
        blocks_footnotes(cells[c].blocks@, cells[c].blocks@.len()).contains(id),
    ensures
        cells_footnotes(cells, n).contains(id),
    decreases n,
{
    let head = cells_footnotes(cells, (n - 1) as nat);
    let own = blocks_footnotes(cells[n - 1].blocks@, cells[n - 1].blocks@.len());
    assert(cells_footnotes(cells, n) == head + own);
    lemma_contains_either(head, own, id);
    if c < n - 1 {
        lemma_cells_footnotes(cells, (n - 1) as nat, c, id);
    }
}

proof fn lemma_rows_footnotes(rows: Seq<TableRow>, n: nat, r: int, id: u32)
    requires
        0 <= r < n <= rows.len(),
        cells_footnotes(rows[r].cells@, rows[r].cells@.len()).contains(id),
    ensures
        rows_footnotes(rows, n).contains(id),
    decreases n,
{
    let head = rows_footnotes(rows, (n - 1) as nat);
    let own = cells_footnotes(rows[n - 1].cells@, rows[n - 1].cells@.len());
    assert(rows_footnotes(rows, n) == head + own);
    lemma_contains_either(head, own, id);
    if r < n - 1 {
        lemma_rows_footnotes(rows, (n - 1) as nat, r, id);
    }
}

/// A paragraph is laid out with its own text, styles and objects; while text is
/// composed in it, with that text spliced in at its place, and without objects.
pub proof fn law_input_of_a_paragraph(
    para: Paragraph,
    path: Seq<PathStep>,
    comp: Option<&CompositionState>,
    markers: Seq<NoteMarker>,
    own: Seq<char>,
    em: u32,
    unit: u32,
)
    ensures
        ({
            let (text, spans, objects) = input_content(para, path, comp, markers, own, em, unit);
            let here = comp matches Some(c) && c.at@.path == path && c.text@.len() > 0
                && c.at@.offset <= text_len(para.text@) && is_char_boundary(
                encode_utf8(para.text@),
                c.at@.offset as int,
            );
            &&& !here ==> text == para.text@ && objects.len() == para.inline_objects@.len()
                && forall|i: int|
                0 <= i < objects.len() ==> #[trigger] objects[i] == object_shape(
                    para.inline_objects@[i],
                    markers,
                    own,
                    em,
                    unit,
                )
            &&& here ==> objects.len() == 0 && text == text_slice(
                para.text@,
                0,
                comp->0.at@.offset as int,
            ) + comp->0.text@ + text_slice(
                para.text@,
                comp->0.at@.offset as int,
                text_len(para.text@) as int,
            )
            &&& !here && para.hyperlinks@.len() == 0 && para.revisions@.len() == 0 ==> spans
                == style_spans(para.text@, para.spans@, black())
        }),
{
}

/// Links are laid over a paragraph's own look, and tracked changes over both;
/// where there are none, nothing changes.
pub proof fn law_looks_are_laid_over(base: Seq<StyleSpan>, para: Paragraph)
    ensures
        para.hyperlinks@.len() == 0 && para.revisions@.len() == 0 ==> overlaid_spans(base, para)
            == base,
        para.hyperlinks@.len() > 0 && para.revisions@.len() == 0 ==> overlaid_spans(base, para)
            == link_overlay(base, para.hyperlinks@, black(), base.len()),
        para.hyperlinks@.len() == 0 && para.revisions@.len() > 0 ==> overlaid_spans(base, para)
            == revision_overlay(base, para.revisions@, black(), base.len()),
        para.hyperlinks@.len() > 0 && para.revisions@.len() > 0 ==> ({
            let links = link_overlay(base, para.hyperlinks@, black(), base.len());
            overlaid_spans(base, para) == revision_overlay(
                links,
                para.revisions@,
                black(),
                links.len(),
            )
        }),
{
}

/// The paragraphs of a note are joined with one space between every two.
pub proof fn law_texts_are_joined(texts: Seq<String>, n: nat)
    requires
        1 <= n < texts.len(),
    ensures
        joined(texts, 0).len() == 0,
        joined(texts, 1) == texts[0]@,
        joined(texts, n + 1) == joined(texts, n) + seq![' '] + texts[n as int]@,
{
}

} // verus!
