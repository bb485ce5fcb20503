//! Character attributes of a selection: what the toolbar shows, which flags
//! are mixed, and what a formatting command or toggle changes.

use crate::cache::RenderConfig;
use crate::command::{BridgeCellBorders, BridgeTabLeader, FormattingToggle};
use crate::common::{
    Alignment, BlockPath, Color, Direction, LogicalPos, PathStep, Pos, UnderlineStyle,
    VerticalScript,
};
use crate::document::{
    len_at, overlaid, para_at, plain_style, style_in, text_len, Block, DocumentTree, FontSize,
    Paragraph, SpanStyle, StyleRun, TabStop, TableCell, VertAlign,
};
use crate::event::{AttrsMixed, BridgeCellProperties};
use crate::motion::{direction_at, paragraph_direction_at};
use crate::spans::{family_id, font_family_id, or_else, parse_font_family, runs_ok};
use crate::walk::{doc_paragraph_paths_between, paths_between};
use vstd::prelude::*;
use vstd::string::*;

verus! {

broadcast use vstd::seq_lib::group_seq_properties;

/// The styles met from byte `at` to byte `hi`, run by run: a gap between runs
/// counts as the plain style.
pub open spec fn styles_from(spans: Seq<StyleRun>, at: u32, hi: u32) -> Seq<SpanStyle>
    decreases spans.len(),
{
    let rest = if at < hi {
        seq![plain_style()]
    } else {
        Seq::empty()
    };
    if spans.len() == 0 {
        rest
    } else {
        let run = spans[0];
        if run.end <= at {
            styles_from(spans.drop_first(), at, hi)
        } else if run.start >= hi {
            rest
        } else {
            let lo = if run.start > at {
                run.start
            } else {
                at
            };
            let end = if run.end < hi {
                run.end
            } else {
                hi
            };
            (if lo > at {
                seq![plain_style()]
            } else {
                Seq::empty()
            }) + (if end > lo {
                seq![run.style]
            } else {
                Seq::empty()
            }) + styles_from(spans.drop_first(), end, hi)
        }
    }
}

pub open spec fn at_most(a: u32, b: u32) -> u32 {
    if a <= b {
        a
    } else {
        b
    }
}

/// The styles of bytes `lo..hi` of a paragraph. A range that lies past the
/// text counts as plain.
pub open spec fn sampled(p: Paragraph, lo: u32, hi: u32) -> Seq<SpanStyle> {
    let len = text_len(p.text@) as u32;
    if lo >= hi {
        Seq::empty()
    } else if at_most(lo, len) == at_most(hi, len) {
        seq![plain_style()]
    } else {
        styles_from(p.spans@, at_most(lo, len), at_most(hi, len))
    }
}

/// Append the styles of bytes `lo..hi` of a paragraph.
pub fn sample_paragraph_styles(p: &Paragraph, lo: u32, hi: u32, out: &mut Vec<SpanStyle>)
    ensures
        final(out)@ == old(out)@ + sampled(*p, lo, hi),
{
    let ghost before = out@;
    if lo >= hi {
        assert(out@ =~= before + sampled(*p, lo, hi));
        return;
    }
    let len: u32 = p.len32();
    let from: u32 = if lo <= len {
        lo
    } else {
        len
    };
    let to: u32 = if hi <= len {
        hi
    } else {
        len
    };
    if from == to {
        out.push(SpanStyle::default());
        assert(out@ =~= before + sampled(*p, lo, hi));
        return;
    }
    let mut at: u32 = from;
    let mut i: usize = 0;
    let ghost goal = before + styles_from(p.spans@, from, to);
    assert(p.spans@.skip(0) =~= p.spans@);
    while i < p.spans.len() && (p.spans[i].end <= at || p.spans[i].start < to)
        invariant
            i <= p.spans@.len(),
            at <= to,
            out@ + styles_from(p.spans@.skip(i as int), at, to) == goal,
        decreases p.spans.len() - i,
    {
        let run: StyleRun = p.spans[i];
        let ghost s = p.spans@.skip(i as int);
        assert(s[0] == run);
        assert(s.drop_first() =~= p.spans@.skip(i as int + 1));
        let ghost so_far = out@;
        if run.end > at {
            let start: u32 = if run.start > at {
                run.start
            } else {
                at
            };
            let end: u32 = if run.end < to {
                run.end
            } else {
                to
            };
            if start > at {
                out.push(SpanStyle::default());
            }
            if end > start {
                out.push(run.style);
            }
            assert(so_far + styles_from(s, at, to) =~= out@ + styles_from(
                s.drop_first(),
                end,
                to,
            ));
            at = end;
        }
        i += 1;
    }
    proof {
        let s = p.spans@.skip(i as int);
        if i < p.spans@.len() {
            assert(s[0] == p.spans@[i as int]);
        }
    }
    if at < to {
        out.push(SpanStyle::default());
    }
    assert(out@ =~= before + sampled(*p, lo, hi));
}

/// The styles of the paragraph at a path, if it is one.
pub open spec fn sampled_at(blocks: Seq<Block>, path: Seq<PathStep>, lo: u32, hi: u32) -> Seq<
    SpanStyle,
> {
    match para_at(blocks, path) {
        Some(p) => sampled(p, lo, hi),
        None => Seq::empty(),
    }
}

/// The styles of the whole paragraphs among the first `n` of a list of paths.
pub open spec fn sampled_whole(blocks: Seq<Block>, paths: Seq<Seq<PathStep>>, n: nat) -> Seq<
    SpanStyle,
>
    decreases n,
{
    if n == 0 {
        Seq::empty()
    } else {
        sampled_whole(blocks, paths, (n - 1) as nat) + sampled_at(
            blocks,
            paths[n - 1],
            0,
            len_at(blocks, paths[n - 1]),
        )
    }
}

/// The styles that a selection covers: of the rest of its first paragraph, of
/// the paragraphs between, and of its last paragraph up to the end.
pub open spec fn selected_styles(blocks: Seq<Block>, start: Pos, end: Pos) -> Seq<SpanStyle> {
    if start.path == end.path {
        sampled_at(blocks, start.path, start.offset, end.offset)
    } else {
        let between = paths_between(blocks, start.path, end.path);
        sampled_at(blocks, start.path, start.offset, len_at(blocks, start.path)) + sampled_whole(
            blocks,
            between,
            between.len(),
        ) + sampled_at(blocks, end.path, 0, end.offset)
    }
}

fn sample_at(doc: &DocumentTree, path: &BlockPath, lo: u32, hi: u32, out: &mut Vec<SpanStyle>)
    ensures
        final(out)@ == old(out)@ + sampled_at(doc.blocks@, path@, lo, hi),
{
    match doc.paragraph_at_path(path) {
        Some(p) => sample_paragraph_styles(p, lo, hi, out),
        None => {
            assert(out@ =~= out@ + Seq::<SpanStyle>::empty());
        },
    }
}

/// The styles that a selection covers.
pub fn collect_styles(doc: &DocumentTree, start: &LogicalPos, end: &LogicalPos) -> (r: Vec<
    SpanStyle,
>)
    ensures
        r@ == selected_styles(doc.blocks@, start@, end@),
{
    let mut out: Vec<SpanStyle> = Vec::new();
    if start.path.same(&end.path) {
        sample_at(doc, &start.path, start.offset, end.offset, &mut out);
        assert(out@ =~= selected_styles(doc.blocks@, start@, end@));
        return out;
    }
    let first_len: u32 = doc.paragraph_len(&start.path);
    sample_at(doc, &start.path, start.offset, first_len, &mut out);
    let ghost head = out@;
    let paths = doc_paragraph_paths_between(doc, &start.path, &end.path);
    let ghost between = crate::document::paths_view(paths@);
    let mut n: usize = 0;
    assert(out@ =~= head + sampled_whole(doc.blocks@, between, 0));
    while n < paths.len()
        invariant
            n <= paths@.len(),
            between == crate::document::paths_view(paths@),
            out@ == head + sampled_whole(doc.blocks@, between, n as nat),
        decreases paths.len() - n,
    {
        assert(between[n as int] == paths@[n as int]@);
        let len: u32 = doc.paragraph_len(&paths[n]);
        sample_at(doc, &paths[n], 0, len, &mut out);
        n += 1;
        assert(out@ =~= head + sampled_whole(doc.blocks@, between, n as nat));
    }
    sample_at(doc, &end.path, 0, end.offset, &mut out);
    assert(out@ =~= selected_styles(doc.blocks@, start@, end@));
    out
}

pub open spec fn is_bold(s: SpanStyle) -> bool {
    or_else(s.bold, false)
}

pub open spec fn is_italic(s: SpanStyle) -> bool {
    or_else(s.italic, false)
}

pub open spec fn line_under(s: SpanStyle) -> UnderlineStyle {
    or_else(s.underline, UnderlineStyle::NoLine)
}

pub open spec fn is_struck(s: SpanStyle) -> bool {
    or_else(s.strike, false)
}

/// A flag is mixed when some style differs in it from the first.
pub open spec fn mixed_of(styles: Seq<SpanStyle>) -> AttrsMixed {
    AttrsMixed {
        bold: exists|i: int| 0 <= i < styles.len() && is_bold(#[trigger] styles[i]) != is_bold(styles[0]),
        italic: exists|i: int|
            0 <= i < styles.len() && is_italic(#[trigger] styles[i]) != is_italic(styles[0]),
        underline: exists|i: int|
            0 <= i < styles.len() && line_under(#[trigger] styles[i]) != line_under(styles[0]),
        strike: exists|i: int|
            0 <= i < styles.len() && is_struck(#[trigger] styles[i]) != is_struck(styles[0]),
    }
}

fn flag(o: Option<bool>) -> (r: bool)
    ensures
        r == or_else(o, false),
{
    match o {
        Some(b) => b,
        None => false,
    }
}

fn underline_of(o: Option<UnderlineStyle>) -> (r: UnderlineStyle)
    ensures
        r == or_else(o, UnderlineStyle::NoLine),
{
    match o {
        Some(u) => u,
        None => UnderlineStyle::NoLine,
    }
}

fn find_mixed(styles: &Vec<SpanStyle>) -> (r: AttrsMixed)
    ensures
        r == mixed_of(styles@),
{
    let mut mixed = AttrsMixed { bold: false, italic: false, underline: false, strike: false };
    if styles.len() == 0 {
        return mixed;
    }
    let first: SpanStyle = styles[0];
    let mut i: usize = 0;
    while i < styles.len()
        invariant
            i <= styles@.len(),
            styles@.len() > 0,
            first == styles@[0],
            mixed.bold == (exists|j: int|
                0 <= j < i && is_bold(#[trigger] styles@[j]) != is_bold(first)),
            mixed.italic == (exists|j: int|
                0 <= j < i && is_italic(#[trigger] styles@[j]) != is_italic(first)),
            mixed.underline == (exists|j: int|
                0 <= j < i && line_under(#[trigger] styles@[j]) != line_under(first)),
            mixed.strike == (exists|j: int|
                0 <= j < i && is_struck(#[trigger] styles@[j]) != is_struck(first)),
        decreases styles.len() - i,
    {
        let s: SpanStyle = styles[i];
        let ghost was = mixed;
        assert(s == styles@[i as int]);
        if flag(s.bold) != flag(first.bold) {
            mixed.bold = true;
        }
        if flag(s.italic) != flag(first.italic) {
            mixed.italic = true;
        }
        if underline_of(s.underline) != underline_of(first.underline) {
            mixed.underline = true;
        }
        if flag(s.strike) != flag(first.strike) {
            mixed.strike = true;
        }
        i += 1;
    }
    mixed
}

/// Which attributes are mixed over a selection. A caret has nothing to differ
/// over.
pub fn attrs_mixed_over(doc: &DocumentTree, start: &LogicalPos, end: &LogicalPos) -> (r: AttrsMixed)
    ensures
        r == mixed_over(doc.blocks@, start@, end@),
{
    if start.same(end) {
        return AttrsMixed { bold: false, italic: false, underline: false, strike: false };
    }
    let styles = collect_styles(doc, start, end);
    find_mixed(&styles)
}

/// Which attributes are mixed over a selection.
pub open spec fn mixed_over(blocks: Seq<Block>, start: Pos, end: Pos) -> AttrsMixed {
    if start == end {
        AttrsMixed { bold: false, italic: false, underline: false, strike: false }
    } else {
        mixed_of(selected_styles(blocks, start, end))
    }
}

/// The alignment of the paragraph at a path: its own, else the document's.
pub open spec fn alignment_at(
    blocks: Seq<Block>,
    path: Seq<PathStep>,
    default: Option<Alignment>,
) -> Alignment {
    match para_at(blocks, path) {
        Some(p) if p.props.alignment is Some => p.props.alignment->0,
        _ => or_else(default, Alignment::Start),
    }
}

/// The alignment of the paragraph at a path.
pub fn paragraph_alignment_at(
    doc: &DocumentTree,
    path: &BlockPath,
    default: Option<Alignment>,
) -> (r: Alignment)
    ensures
        r == alignment_at(doc.blocks@, path@, default),
{
    if let Some(p) = doc.paragraph_at_path(path) {
        if let Some(a) = p.props.alignment {
            return a;
        }
    }
    match default {
        Some(a) => a,
        None => Alignment::Start,
    }
}

/// The direction that all paragraphs of a selection have, if they agree.
pub open spec fn direction_over(
    blocks: Seq<Block>,
    start: Pos,
    end: Pos,
    base: Option<Direction>,
) -> Option<Direction> {
    let head = direction_at(blocks, start.path, base);
    let between = paths_between(blocks, start.path, end.path);
    if start.path == end.path {
        Some(head)
    } else if direction_at(blocks, end.path, base) == head && forall|i: int|
        0 <= i < between.len() ==> direction_at(blocks, #[trigger] between[i], base) == head {
        Some(head)
    } else {
        None
    }
}

/// The direction that all paragraphs of a selection have, if they agree.
pub fn paragraph_direction_over(
    doc: &DocumentTree,
    start: &LogicalPos,
    end: &LogicalPos,
    base: Option<Direction>,
) -> (r: Option<Direction>)
    ensures
        r == direction_over(doc.blocks@, start@, end@, base),
{
    let head = paragraph_direction_at(doc, &start.path, base);
    if start.path.same(&end.path) {
        return Some(head);
    }
    if paragraph_direction_at(doc, &end.path, base) != head {
        return None;
    }
    let paths = doc_paragraph_paths_between(doc, &start.path, &end.path);
    let ghost between = crate::document::paths_view(paths@);
    let mut i: usize = 0;
    while i < paths.len()
        invariant
            i <= paths@.len(),
            between == crate::document::paths_view(paths@),
            between == paths_between(doc.blocks@, start@.path, end@.path),
            start@.path != end@.path,
            head == direction_at(doc.blocks@, start@.path, base),
            forall|j: int|
                0 <= j < i ==> direction_at(doc.blocks@, #[trigger] between[j], base) == head,
        decreases paths.len() - i,
    {
        assert(between[i as int] == paths@[i as int]@);
        if paragraph_direction_at(doc, &paths[i], base) != head {
            assert(direction_at(doc.blocks@, between[i as int], base) != head);
            return None;
        }
        i += 1;
    }
    Some(head)
}

/// The place whose style the toolbar shows: the start of a selection, or the
/// character before a caret. `prev` is where that character starts.
pub open spec fn probe(start: Pos, end: Pos, prev: u32) -> Pos {
    if start != end || start.offset == 0 {
        start
    } else {
        Pos { path: start.path, offset: prev }
    }
}

/// The place whose style the toolbar shows.
pub fn attrs_probe(start: &LogicalPos, end: &LogicalPos, prev: u32) -> (r: LogicalPos)
    ensures
        r@ == probe(start@, end@, prev),
{
    if !start.same(end) || start.offset == 0 {
        start.clone()
    } else {
        LogicalPos { path: start.path.clone(), offset: prev }
    }
}

/// The style at a place, with a pending style laid over it.
pub open spec fn effective_style(blocks: Seq<Block>, pos: Pos, pending: Option<SpanStyle>) -> SpanStyle {
    let own = match para_at(blocks, pos.path) {
        Some(p) => style_in(p.spans@, pos.offset),
        None => plain_style(),
    };
    match pending {
        Some(over) => overlaid(own, over),
        None => own,
    }
}

/// The style at a place, with a pending style laid over it.
pub fn style_with_pending(doc: &DocumentTree, pos: &LogicalPos, pending: Option<SpanStyle>) -> (r:
    SpanStyle)
    ensures
        r == effective_style(doc.blocks@, pos@, pending),
{
    let own: SpanStyle = match doc.paragraph_at_path(&pos.path) {
        Some(p) => p.style_at(pos.offset),
        None => SpanStyle::default(),
    };
    match pending {
        Some(over) => own.merged_with(over),
        None => own,
    }
}

/// Resolved character attributes, as the toolbar shows them.
#[derive(Debug, PartialEq, Eq)]
pub struct TextAttrs {
    pub bold: bool,
    pub italic: bool,
    pub underline: UnderlineStyle,
    pub strike: bool,
    pub font_family: String,
    pub font_size: FontSize,
    pub color: Color,
    pub bg_color: Option<Color>,
    pub script: VerticalScript,
    pub language: String,
    pub caps: bool,
    pub small_caps: bool,
}

/// What [`TextAttrs`] say.
pub ghost struct Attrs {
    pub bold: bool,
    pub italic: bool,
    pub underline: UnderlineStyle,
    pub strike: bool,
    pub font_family: Seq<char>,
    pub font_size: FontSize,
    pub color: Color,
    pub bg_color: Option<Color>,
    pub script: VerticalScript,
    pub language: Seq<char>,
    pub caps: bool,
    pub small_caps: bool,
}

impl View for TextAttrs {
    type V = Attrs;

    open spec fn view(&self) -> Attrs {
        Attrs {
            bold: self.bold,
            italic: self.italic,
            underline: self.underline,
            strike: self.strike,
            font_family: self.font_family@,
            font_size: self.font_size,
            color: self.color,
            bg_color: self.bg_color,
            script: self.script,
            language: self.language@,
            caps: self.caps,
            small_caps: self.small_caps,
        }
    }
}

/// The size of text without a size of its own, before a document is rendered:
/// the pattern of 16.
pub const DEFAULT_SIZE_BITS: u32 = 0x4180_0000;

/// The attributes of a style in a document with these settings. The script and
/// the language are not reported.
pub open spec fn attrs_of(s: SpanStyle, cfg: Option<RenderConfig>) -> Attrs {
    Attrs {
        bold: or_else(s.bold, false),
        italic: or_else(s.italic, false),
        underline: or_else(s.underline, UnderlineStyle::NoLine),
        strike: or_else(s.strike, false),
        font_family: match (s.font_family, cfg) {
            (Some(f), _) => family_id(f),
            (None, Some(c)) => c.font_id@,
            (None, None) => Seq::empty(),
        },
        font_size: match (s.font_size, cfg) {
            (Some(size), _) => size,
            (None, Some(c)) => FontSize { bits: c.px_size_bits },
            (None, None) => FontSize { bits: DEFAULT_SIZE_BITS },
        },
        color: or_else(s.color, crate::spans::black()),
        bg_color: s.bg_color,
        script: VerticalScript::Normal,
        language: Seq::empty(),
        caps: or_else(s.caps, false),
        small_caps: or_else(s.small_caps, false),
    }
}

/// What an optional reference says.
pub open spec fn opt_config(cfg: Option<&RenderConfig>) -> Option<RenderConfig> {
    match cfg {
        Some(c) => Some(*c),
        None => None,
    }
}

/// The attributes that the toolbar shows for a place.
pub fn attrs_at(
    doc: &DocumentTree,
    pos: &LogicalPos,
    pending: Option<SpanStyle>,
    cfg: Option<&RenderConfig>,
) -> (r: TextAttrs)
    ensures
        r@ == attrs_of(effective_style(doc.blocks@, pos@, pending), opt_config(cfg)),
{
    let s = style_with_pending(doc, pos, pending);
    let font_family: String = match s.font_family {
        Some(f) => font_family_id(f).to_string(),
        None => match cfg {
            Some(c) => c.font_id.clone(),
            None => String::new(),
        },
    };
    let font_size: FontSize = match s.font_size {
        Some(size) => size,
        None => match cfg {
            Some(c) => FontSize { bits: c.px_size_bits },
            None => FontSize { bits: DEFAULT_SIZE_BITS },
        },
    };
    let color: Color = match s.color {
        Some(c) => c,
        None => Color { r: 0, g: 0, b: 0, a: 255 },
    };
    let r = TextAttrs {
        bold: flag(s.bold),
        italic: flag(s.italic),
        underline: underline_of(s.underline),
        strike: flag(s.strike),
        font_family,
        font_size,
        color,
        bg_color: s.bg_color,
        script: VerticalScript::Normal,
        language: String::new(),
        caps: flag(s.caps),
        small_caps: flag(s.small_caps),
    };
    assert(r.language@ =~= Seq::empty());
    assert(r.font_family@ =~= attrs_of(
        effective_style(doc.blocks@, pos@, pending),
        opt_config(cfg),
    ).font_family);
    r
}

/// A change of character attributes.
#[derive(Debug, PartialEq, Eq)]
pub struct TextAttrsPatch {
    pub bold: Option<bool>,
    pub italic: Option<bool>,
    pub underline: Option<UnderlineStyle>,
    pub strike: Option<bool>,
    pub font_family: Option<String>,
    pub font_size: Option<FontSize>,
    pub color: Option<Color>,
    pub bg_color: Option<Color>,
    pub script: Option<VerticalScript>,
    pub language: Option<String>,
    pub caps: Option<bool>,
    pub small_caps: Option<bool>,
}

/// Texts by their characters.
pub open spec fn opt_text(o: Option<String>) -> Seq<char> {
    match o {
        Some(s) => s@,
        None => Seq::empty(),
    }
}

/// The attributes that a change sets, with the defaults for the rest.
pub fn resolved_attrs(patch: &TextAttrsPatch, default_size: FontSize) -> (r: TextAttrs)
    ensures
        r@ == (Attrs {
            bold: or_else(patch.bold, false),
            italic: or_else(patch.italic, false),
            underline: or_else(patch.underline, UnderlineStyle::NoLine),
            strike: or_else(patch.strike, false),
            font_family: opt_text(patch.font_family),
            font_size: or_else(patch.font_size, default_size),
            color: or_else(patch.color, crate::spans::black()),
            bg_color: patch.bg_color,
            script: or_else(patch.script, VerticalScript::Normal),
            language: opt_text(patch.language),
            caps: or_else(patch.caps, false),
            small_caps: or_else(patch.small_caps, false),
        }),
{
    let font_family: String = match &patch.font_family {
        Some(s) => s.clone(),
        None => String::new(),
    };
    let language: String = match &patch.language {
        Some(s) => s.clone(),
        None => String::new(),
    };
    assert(font_family@ =~= opt_text(patch.font_family));
    assert(language@ =~= opt_text(patch.language));
    TextAttrs {
        bold: flag(patch.bold),
        italic: flag(patch.italic),
        underline: underline_of(patch.underline),
        strike: flag(patch.strike),
        font_family,
        font_size: match patch.font_size {
            Some(s) => s,
            None => default_size,
        },
        color: match patch.color {
            Some(c) => c,
            None => Color { r: 0, g: 0, b: 0, a: 255 },
        },
        bg_color: patch.bg_color,
        script: match patch.script {
            Some(s) => s,
            None => VerticalScript::Normal,
        },
        language,
        caps: flag(patch.caps),
        small_caps: flag(patch.small_caps),
    }
}

/// The vertical position that a script stands for. The normal script is set
/// explicitly, so that it wins over an inherited one.
pub open spec fn script_position(s: VerticalScript) -> VertAlign {
    match s {
        VerticalScript::Superscript => VertAlign::Superscript,
        VerticalScript::Subscript => VertAlign::Subscript,
        VerticalScript::Normal => VertAlign::Baseline,
    }
}

/// The family that an identifier names.
pub open spec fn is_family(id: Seq<char>, f: Option<crate::document::FontFamily>) -> bool {
    match f {
        Some(x) => family_id(x) == id,
        None => forall|x: crate::document::FontFamily| #[trigger] family_id(x) != id,
    }
}

/// The style that a change of attributes lays over text. An unknown family
/// changes nothing.
pub fn patch_style(patch: &TextAttrsPatch) -> (r: SpanStyle)
    ensures
        r.bold == patch.bold,
        r.italic == patch.italic,
        r.underline == patch.underline,
        r.strike == patch.strike,
        r.font_size == patch.font_size,
        r.color == patch.color,
        r.bg_color == patch.bg_color,
        patch.font_family is None ==> r.font_family is None,
        patch.font_family matches Some(id) ==> is_family(id@, r.font_family),
        patch.script is None ==> r.vert_align is None,
        patch.script matches Some(s) ==> r.vert_align == Some(script_position(s)),
        r.caps == patch.caps,
        r.small_caps == patch.small_caps,
{
    SpanStyle {
        bold: patch.bold,
        italic: patch.italic,
        underline: patch.underline,
        strike: patch.strike,
        font_family: match &patch.font_family {
            Some(id) => parse_font_family(id.as_str()),
            None => None,
        },
        font_size: patch.font_size,
        color: patch.color,
        bg_color: patch.bg_color,
        vert_align: match patch.script {
            Some(VerticalScript::Superscript) => Some(VertAlign::Superscript),
            Some(VerticalScript::Subscript) => Some(VertAlign::Subscript),
            Some(VerticalScript::Normal) => Some(VertAlign::Baseline),
            None => None,
        },
        caps: patch.caps,
        small_caps: patch.small_caps,
    }
}

/// A pending style after a further change.
pub open spec fn armed(pending: Option<SpanStyle>, patch: SpanStyle) -> SpanStyle {
    match pending {
        Some(p) => overlaid(p, patch),
        None => overlaid(plain_style(), patch),
    }
}

/// What a formatting command does: it arms a style for the next typing, or it
/// changes a range of text.
#[derive(Debug, PartialEq, Eq)]
pub enum FormatAction {
    Arm { style: SpanStyle },
    Restyle { start: LogicalPos, end: LogicalPos, patch: SpanStyle },
}

/// What a [`FormatAction`] says.
pub ghost enum Formatting {
    Arm { style: SpanStyle },
    Restyle { start: Pos, end: Pos, patch: SpanStyle },
}

impl View for FormatAction {
    type V = Formatting;

    open spec fn view(&self) -> Formatting {
        match *self {
            FormatAction::Arm { style } => Formatting::Arm { style },
            FormatAction::Restyle { start, end, patch } => Formatting::Restyle {
                start: start@,
                end: end@,
                patch,
            },
        }
    }
}

/// A change of style over an empty range arms it for the next typing, when
/// there is a caret; over text it is applied.
pub open spec fn formatting(
    start: Pos,
    end: Pos,
    has_selection: bool,
    pending: Option<SpanStyle>,
    patch: SpanStyle,
) -> Formatting {
    if start == end && has_selection {
        Formatting::Arm { style: armed(pending, patch) }
    } else {
        Formatting::Restyle { start, end, patch }
    }
}

/// What a change of style from `start` to `end` does.
pub fn apply_formatting(
    start: LogicalPos,
    end: LogicalPos,
    has_selection: bool,
    pending: Option<SpanStyle>,
    patch: SpanStyle,
) -> (r: FormatAction)
    ensures
        r@ == formatting(start@, end@, has_selection, pending, patch),
{
    if start.same(&end) && has_selection {
        let under: SpanStyle = match pending {
            Some(p) => p,
            None => SpanStyle::default(),
        };
        FormatAction::Arm { style: under.merged_with(patch) }
    } else {
        FormatAction::Restyle { start, end, patch }
    }
}

/// A style has the attribute of a toggle.
pub open spec fn has_attr(s: SpanStyle, attr: FormattingToggle) -> bool {
    match attr {
        FormattingToggle::Bold => is_bold(s),
        FormattingToggle::Italic => is_italic(s),
        FormattingToggle::Underline => line_under(s) != UnderlineStyle::NoLine,
        FormattingToggle::Strike => is_struck(s),
        FormattingToggle::Superscript => s.vert_align == Some(VertAlign::Superscript),
        FormattingToggle::Subscript => s.vert_align == Some(VertAlign::Subscript),
        FormattingToggle::Caps => or_else(s.caps, false),
        FormattingToggle::SmallCaps => or_else(s.small_caps, false),
    }
}

/// The change that turns an attribute on or off. Underlining comes in the
/// style asked for, else single; the two scripts, and the two kinds of
/// capitals, exclude each other.
pub open spec fn switched(
    attr: FormattingToggle,
    on: bool,
    underline: Option<UnderlineStyle>,
) -> SpanStyle {
    let none = plain_style();
    match attr {
        FormattingToggle::Bold => SpanStyle { bold: Some(on), ..none },
        FormattingToggle::Italic => SpanStyle { italic: Some(on), ..none },
        FormattingToggle::Underline => SpanStyle {
            underline: Some(
                if on {
                    or_else(underline, UnderlineStyle::Single)
                } else {
                    UnderlineStyle::NoLine
                },
            ),
            ..none
        },
        FormattingToggle::Strike => SpanStyle { strike: Some(on), ..none },
        FormattingToggle::Superscript => SpanStyle {
            vert_align: Some(
                if on {
                    VertAlign::Superscript
                } else {
                    VertAlign::Baseline
                },
            ),
            ..none
        },
        FormattingToggle::Subscript => SpanStyle {
            vert_align: Some(
                if on {
                    VertAlign::Subscript
                } else {
                    VertAlign::Baseline
                },
            ),
            ..none
        },
        FormattingToggle::Caps => if on {
            SpanStyle { caps: Some(true), small_caps: Some(false), ..none }
        } else {
            SpanStyle { caps: Some(false), ..none }
        },
        FormattingToggle::SmallCaps => if on {
            SpanStyle { small_caps: Some(true), caps: Some(false), ..none }
        } else {
            SpanStyle { small_caps: Some(false), ..none }
        },
    }
}

fn style_has(s: &SpanStyle, attr: FormattingToggle) -> (r: bool)
    ensures
        r == has_attr(*s, attr),
{
    match attr {
        FormattingToggle::Bold => flag(s.bold),
        FormattingToggle::Italic => flag(s.italic),
        FormattingToggle::Underline => underline_of(s.underline) != UnderlineStyle::NoLine,
        FormattingToggle::Strike => flag(s.strike),
        FormattingToggle::Superscript => match s.vert_align {
            Some(v) => v == VertAlign::Superscript,
            None => false,
        },
        FormattingToggle::Subscript => match s.vert_align {
            Some(v) => v == VertAlign::Subscript,
            None => false,
        },
        FormattingToggle::Caps => flag(s.caps),
        FormattingToggle::SmallCaps => flag(s.small_caps),
    }
}

/// The change that turns an attribute on or off.
pub fn switch_attr(attr: FormattingToggle, on: bool, underline: Option<UnderlineStyle>) -> (r:
    SpanStyle)
    ensures
        r == switched(attr, on, underline),
{
    let mut s = SpanStyle::default();
    match attr {
        FormattingToggle::Bold => {
            s.bold = Some(on);
        },
        FormattingToggle::Italic => {
            s.italic = Some(on);
        },
        FormattingToggle::Underline => {
            s.underline = Some(
                if on {
                    match underline {
                        Some(u) => u,
                        None => UnderlineStyle::Single,
                    }
                } else {
                    UnderlineStyle::NoLine
                },
            );
        },
        FormattingToggle::Strike => {
            s.strike = Some(on);
        },
        FormattingToggle::Superscript => {
            s.vert_align = Some(
                if on {
                    VertAlign::Superscript
                } else {
                    VertAlign::Baseline
                },
            );
        },
        FormattingToggle::Subscript => {
            s.vert_align = Some(
                if on {
                    VertAlign::Subscript
                } else {
                    VertAlign::Baseline
                },
            );
        },
        FormattingToggle::Caps => {
            s.caps = Some(on);
            if on {
                s.small_caps = Some(false);
            }
        },
        FormattingToggle::SmallCaps => {
            s.small_caps = Some(on);
            if on {
                s.caps = Some(false);
            }
        },
    }
    s
}

/// Whether a toggle turns its attribute on: at a caret, when the style there
/// lacks it; over text, unless all of it has it.
pub open spec fn turns_on(
    blocks: Seq<Block>,
    start: Pos,
    end: Pos,
    prev: u32,
    pending: Option<SpanStyle>,
    attr: FormattingToggle,
) -> bool {
    if start == end {
        !has_attr(effective_style(blocks, probe(start, end, prev), pending), attr)
    } else {
        let styles = selected_styles(blocks, start, end);
        styles.len() == 0 || exists|i: int|
            0 <= i < styles.len() && !has_attr(#[trigger] styles[i], attr)
    }
}

/// Why a toggle fails.
#[derive(Debug, Clone, Copy, PartialEq, Eq, Structural)]
pub enum ToggleError {
    NoSelection,
}

/// Flip an attribute of the selection. `prev` is where the character before a
/// caret starts.
pub fn toggle_formatting(
    doc: &DocumentTree,
    selection: Option<(LogicalPos, LogicalPos)>,
    prev: u32,
    pending: Option<SpanStyle>,
    attr: FormattingToggle,
    underline: Option<UnderlineStyle>,
) -> (r: Result<FormatAction, ToggleError>)
    ensures
        match selection {
            None => r == Err::<FormatAction, _>(ToggleError::NoSelection),
            Some((start, end)) => r is Ok && (r->Ok_0)@ == formatting(
                start@,
                end@,
                true,
                pending,
                switched(
                    attr,
                    turns_on(doc.blocks@, start@, end@, prev, pending, attr),
                    underline,
                ),
            ),
        },
{
    let (start, end): (LogicalPos, LogicalPos) = match selection {
        Some(range) => range,
        None => {
            return Err(ToggleError::NoSelection);
        },
    };
    let on: bool = if start.same(&end) {
        let at = attrs_probe(&start, &end, prev);
        let s = style_with_pending(doc, &at, pending);
        !style_has(&s, attr)
    } else {
        let styles = collect_styles(doc, &start, &end);
        let mut lacking: bool = styles.len() == 0;
        let mut i: usize = 0;
        while i < styles.len()
            invariant
                i <= styles@.len(),
                lacking == (styles@.len() == 0 || exists|j: int|
                    0 <= j < i && !has_attr(#[trigger] styles@[j], attr)),
            decreases styles.len() - i,
        {
            if !style_has(&styles[i], attr) {
                lacking = true;
                assert(!has_attr(styles@[i as int], attr));
            }
            i += 1;
        }
        lacking
    };
    let patch = switch_attr(attr, on, underline);
    Ok(apply_formatting(start, end, true, pending, patch))
}

/// The toolbar shows an attribute. It shows neither of the scripts.
pub open spec fn shows(a: Attrs, attr: FormattingToggle) -> bool {
    match attr {
        FormattingToggle::Bold => a.bold,
        FormattingToggle::Italic => a.italic,
        FormattingToggle::Underline => a.underline != UnderlineStyle::NoLine,
        FormattingToggle::Strike => a.strike,
        FormattingToggle::Superscript | FormattingToggle::Subscript => false,
        FormattingToggle::Caps => a.caps,
        FormattingToggle::SmallCaps => a.small_caps,
    }
}

/// A toggle at a caret flips what the toolbar shows there, and the toolbar then
/// shows the new state.
pub proof fn law_toggle_flips_the_toolbar(
    blocks: Seq<Block>,
    at: Pos,
    prev: u32,
    pending: Option<SpanStyle>,
    attr: FormattingToggle,
    underline: Option<UnderlineStyle>,
    cfg: Option<RenderConfig>,
)
    requires
        attr != FormattingToggle::Superscript,
        attr != FormattingToggle::Subscript,
        underline != Some(UnderlineStyle::NoLine),
    ensures
        ({
            let place = probe(at, at, prev);
            let on = turns_on(blocks, at, at, prev, pending, attr);
            let style = armed(pending, switched(attr, on, underline));
            &&& on == !shows(attrs_of(effective_style(blocks, place, pending), cfg), attr)
            &&& shows(attrs_of(effective_style(blocks, place, Some(style)), cfg), attr) == on
        }),
{
}

/// A toggle over text leaves every piece of it with the attribute, or every
/// piece without it.
pub proof fn law_toggle_is_uniform(
    s: SpanStyle,
    attr: FormattingToggle,
    on: bool,
    underline: Option<UnderlineStyle>,
)
    requires
        underline != Some(UnderlineStyle::NoLine),
    ensures
        has_attr(overlaid(s, switched(attr, on, underline)), attr) == on,
{
}

/// A toggle at a caret, and another one before anything is typed, leave the
/// attribute as it was.
#[verifier::rlimit(50)]
pub proof fn law_toggle_twice(
    blocks: Seq<Block>,
    at: Pos,
    prev: u32,
    pending: Option<SpanStyle>,
    attr: FormattingToggle,
    underline: Option<UnderlineStyle>,
)
    requires
        underline != Some(UnderlineStyle::NoLine),
    ensures
        ({
            let first = turns_on(blocks, at, at, prev, pending, attr);
            let style = armed(pending, switched(attr, first, underline));
            let second = turns_on(blocks, at, at, prev, Some(style), attr);
            let after = armed(Some(style), switched(attr, second, underline));
            let place = probe(at, at, prev);
            &&& second == !first
            &&& has_attr(effective_style(blocks, place, Some(style)), attr) == first
            &&& has_attr(effective_style(blocks, place, Some(after)), attr) == has_attr(
                effective_style(blocks, place, pending),
                attr,
            )
        }),
{
}

/// Turning one of two attributes on that exclude each other turns the other
/// off.
pub proof fn law_scripts_and_capitals_exclude(s: SpanStyle, underline: Option<UnderlineStyle>)
    ensures
        !has_attr(
            overlaid(s, switched(FormattingToggle::Superscript, true, underline)),
            FormattingToggle::Subscript,
        ),
        !has_attr(
            overlaid(s, switched(FormattingToggle::Subscript, true, underline)),
            FormattingToggle::Superscript,
        ),
        !has_attr(
            overlaid(s, switched(FormattingToggle::Caps, true, underline)),
            FormattingToggle::SmallCaps,
        ),
        !has_attr(
            overlaid(s, switched(FormattingToggle::SmallCaps, true, underline)),
            FormattingToggle::Caps,
        ),
{
}

proof fn lemma_styles_cover(spans: Seq<StyleRun>, at: u32, hi: u32, off: u32)
    requires
        at <= off < hi,
        forall|i: int| 0 <= i < spans.len() ==> (#[trigger] spans[i]).start <= spans[i].end,
        forall|i: int, j: int|
            0 <= i < j < spans.len() ==> (#[trigger] spans[i]).end <= (#[trigger] spans[j]).start,
    ensures
        styles_from(spans, at, hi).contains(style_in(spans, off)),
    decreases spans.len(),
{
    let all = styles_from(spans, at, hi);
    if spans.len() == 0 {
        assert(all[0] == plain_style());
    } else {
        let run = spans[0];
        let rest = spans.drop_first();
        assert forall|i: int, j: int| 0 <= i < j < rest.len() implies (#[trigger] rest[i]).end <= (
        #[trigger] rest[j]).start by {
            assert(spans[i + 1].end <= spans[j + 1].start);
        }
        if run.end <= at {
            lemma_styles_cover(rest, at, hi, off);
        } else if run.start >= hi {
            lemma_gap_is_plain(spans, off);
            assert(all[0] == plain_style());
        } else {
            let lo = if run.start > at {
                run.start
            } else {
                at
            };
            let end = at_most(run.end, hi);
            let head = (if lo > at {
                seq![plain_style()]
            } else {
                Seq::empty()
            });
            let mid = (if end > lo {
                seq![run.style]
            } else {
                Seq::empty()
            });
            let tail = styles_from(rest, end, hi);
            assert(all == head + mid + tail);
            if off < run.start {
                lemma_gap_is_plain(spans, off);
                assert(all[0] == plain_style());
            } else if off < run.end {
                assert(all[head.len() as int] == run.style);
            } else {
                lemma_styles_cover(rest, end, hi, off);
                let k = choose|k: int| 0 <= k < tail.len() && tail[k] == style_in(rest, off);
                assert(all[head.len() + mid.len() + k] == tail[k]);
            }
        }
    }
}

/// No run covers a byte before all of them.
proof fn lemma_gap_is_plain(spans: Seq<StyleRun>, off: u32)
    requires
        spans.len() == 0 || off < spans[0].start,
        forall|i: int| 0 <= i < spans.len() ==> (#[trigger] spans[i]).start <= spans[i].end,
        forall|i: int, j: int|
            0 <= i < j < spans.len() ==> (#[trigger] spans[i]).end <= (#[trigger] spans[j]).start,
    ensures
        style_in(spans, off) == plain_style(),
    decreases spans.len(),
{
    if spans.len() > 0 {
        let rest = spans.drop_first();
        assert forall|i: int, j: int| 0 <= i < j < rest.len() implies (#[trigger] rest[i]).end <= (
        #[trigger] rest[j]).start by {
            assert(spans[i + 1].end <= spans[j + 1].start);
        }
        if rest.len() > 0 {
            assert(spans[0].end <= spans[1].start);
        }
        lemma_gap_is_plain(rest, off);
    }
}

proof fn lemma_style_has_place(spans: Seq<StyleRun>, at: u32, hi: u32, k: int) -> (off: u32)
    requires
        at <= hi,
        0 <= k < styles_from(spans, at, hi).len(),
        forall|i: int| 0 <= i < spans.len() ==> (#[trigger] spans[i]).start <= spans[i].end,
        forall|i: int, j: int|
            0 <= i < j < spans.len() ==> (#[trigger] spans[i]).end <= (#[trigger] spans[j]).start,
    ensures
        at <= off < hi,
        style_in(spans, off) == styles_from(spans, at, hi)[k],
    decreases spans.len(),
{
    let all = styles_from(spans, at, hi);
    if spans.len() == 0 {
        at
    } else {
        let run = spans[0];
        let rest = spans.drop_first();
        assert forall|i: int, j: int| 0 <= i < j < rest.len() implies (#[trigger] rest[i]).end <= (
        #[trigger] rest[j]).start by {
            assert(spans[i + 1].end <= spans[j + 1].start);
        }
        if run.end <= at {
            lemma_style_has_place(rest, at, hi, k)
        } else if run.start >= hi {
            lemma_gap_is_plain(spans, at);
            at
        } else {
            let lo = if run.start > at {
                run.start
            } else {
                at
            };
            let end = at_most(run.end, hi);
            let head = (if lo > at {
                seq![plain_style()]
            } else {
                Seq::empty()
            });
            let mid = (if end > lo {
                seq![run.style]
            } else {
                Seq::empty()
            });
            let tail = styles_from(rest, end, hi);
            assert(all == head + mid + tail);
            if k < head.len() {
                lemma_gap_is_plain(spans, at);
                at
            } else if k < head.len() + mid.len() {
                lo
            } else {
                let off = lemma_style_has_place(rest, end, hi, k - head.len() - mid.len());
                assert(all[k] == tail[k - head.len() - mid.len()]);
                off
            }
        }
    }
}

/// Some byte of a range of the paragraph at a path has a style.
spec fn has_place(blocks: Seq<Block>, path: Seq<PathStep>, lo: u32, hi: u32, style: SpanStyle) -> bool {
    para_at(blocks, path) matches Some(p) && exists|x: u32|
        lo <= x < hi && #[trigger] style_in(p.spans@, x) == style
}

/// The runs of every paragraph are in order and lie inside its text.
pub open spec fn all_runs_ok(blocks: Seq<Block>) -> bool {
    forall|path: Seq<PathStep>|
        (#[trigger] para_at(blocks, path)) matches Some(p) ==> runs_ok(p.text@, p.spans@)
}

/// A selection covers a byte of the text: one of its first paragraph from its
/// start on, one of a paragraph between, or one of its last paragraph before its
/// end.
pub open spec fn covers_byte(blocks: Seq<Block>, start: Pos, end: Pos, at: Pos) -> bool {
    &&& at.offset < len_at(blocks, at.path)
    &&& if start.path == end.path {
        at.path == start.path && start.offset <= at.offset < end.offset
    } else {
        ||| at.path == start.path && start.offset <= at.offset
        ||| paths_between(blocks, start.path, end.path).contains(at.path)
        ||| at.path == end.path && at.offset < end.offset
    }
}

/// The style of a byte of the text.
pub open spec fn style_of_byte(blocks: Seq<Block>, at: Pos) -> SpanStyle {
    match para_at(blocks, at.path) {
        Some(p) => style_in(p.spans@, at.offset),
        None => plain_style(),
    }
}

/// Some byte that a selection covers has a style.
spec fn covers_style(blocks: Seq<Block>, start: Pos, end: Pos, style: SpanStyle) -> bool {
    exists|at: Pos| #[trigger]
        covers_byte(blocks, start, end, at) && style_of_byte(blocks, at) == style
}

/// The styles met in a range of a paragraph are those of its bytes.
proof fn lemma_sampled_styles(
    blocks: Seq<Block>,
    path: Seq<PathStep>,
    lo: u32,
    hi: u32,
    style: SpanStyle,
)
    requires
        all_runs_ok(blocks),
        hi <= len_at(blocks, path),
    ensures
        sampled_at(blocks, path, lo, hi).contains(style) <==> has_place(
            blocks,
            path,
            lo,
            hi,
            style,
        ),
{
    if let Some(p) = para_at(blocks, path) {
        let spans = p.spans@;
        let styles = sampled(p, lo, hi);
        if lo < hi {
            assert(styles == styles_from(spans, lo, hi));
            if styles.contains(style) {
                let k = choose|k: int| 0 <= k < styles.len() && styles[k] == style;
                let x = lemma_style_has_place(spans, lo, hi, k);
                assert(style_in(spans, x) == style);
            }
            if has_place(blocks, path, lo, hi, style) {
                let x = choose|x: u32| lo <= x < hi && #[trigger] style_in(spans, x) == style;
                lemma_styles_cover(spans, lo, hi, x);
            }
        }
    }
}

/// The styles met in whole paragraphs are those of their bytes.
proof fn lemma_whole_styles(
    blocks: Seq<Block>,
    paths: Seq<Seq<PathStep>>,
    n: nat,
    style: SpanStyle,
)
    requires
        all_runs_ok(blocks),
        n <= paths.len(),
    ensures
        sampled_whole(blocks, paths, n).contains(style) <==> exists|i: int|
            0 <= i < n && has_place(
                blocks,
                #[trigger] paths[i],
                0,
                len_at(blocks, paths[i]),
                style,
            ),
    decreases n,
{
    if n > 0 {
        let m = (n - 1) as nat;
        let path = paths[n - 1];
        lemma_whole_styles(blocks, paths, m, style);
        lemma_sampled_styles(blocks, path, 0, len_at(blocks, path), style);
        let (head, last) = (
            sampled_whole(blocks, paths, m),
            sampled_at(blocks, path, 0, len_at(blocks, path)),
        );
        assert((head + last).contains(style) <==> head.contains(style) || last.contains(style));
        if exists|i: int|
            0 <= i < n && has_place(blocks, #[trigger] paths[i], 0, len_at(blocks, paths[i]), style) {
            let i = choose|i: int|
                0 <= i < n && has_place(
                    blocks,
                    #[trigger] paths[i],
                    0,
                    len_at(blocks, paths[i]),
                    style,
                );
            if i < m {
                assert(head.contains(style));
            }
        }
    }
}

/// A place in a range that a selection covers is one that it covers.
proof fn lemma_place_covered(
    blocks: Seq<Block>,
    start: Pos,
    end: Pos,
    path: Seq<PathStep>,
    lo: u32,
    hi: u32,
    style: SpanStyle,
)
    requires
        has_place(blocks, path, lo, hi, style),
        forall|x: u32|
            lo <= x < hi ==> #[trigger] covers_byte(blocks, start, end, (Pos { path, offset: x })),
    ensures
        covers_style(blocks, start, end, style),
{
    let spans = para_at(blocks, path)->0.spans@;
    let x = choose|x: u32| lo <= x < hi && #[trigger] style_in(spans, x) == style;
    let at = Pos { path, offset: x };
    assert(covers_byte(blocks, start, end, at));
    assert(style_of_byte(blocks, at) == style);
}

/// The styles that a selection covers are those of the bytes that it covers.
proof fn lemma_selected_styles(blocks: Seq<Block>, start: Pos, end: Pos, style: SpanStyle)
    requires
        all_runs_ok(blocks),
        start.offset <= len_at(blocks, start.path),
        end.offset <= len_at(blocks, end.path),
    ensures
        selected_styles(blocks, start, end).contains(style) <==> covers_style(
            blocks,
            start,
            end,
            style,
        ),
{
    let styles = selected_styles(blocks, start, end);
    if start.path == end.path {
        lemma_sampled_styles(blocks, start.path, start.offset, end.offset, style);
        if styles.contains(style) {
            lemma_place_covered(
                blocks,
                start,
                end,
                start.path,
                start.offset,
                end.offset,
                style,
            );
        }
        if covers_style(blocks, start, end, style) {
            let at = choose|at: Pos| #[trigger]
                covers_byte(blocks, start, end, at) && style_of_byte(blocks, at) == style;
            assert(style_in(para_at(blocks, at.path)->0.spans@, at.offset) == style);
        }
    } else {
        let between = paths_between(blocks, start.path, end.path);
        let first_len = len_at(blocks, start.path);
        let a = sampled_at(blocks, start.path, start.offset, first_len);
        let b = sampled_whole(blocks, between, between.len());
        let c = sampled_at(blocks, end.path, 0, end.offset);
        lemma_sampled_styles(blocks, start.path, start.offset, first_len, style);
        lemma_whole_styles(blocks, between, between.len(), style);
        lemma_sampled_styles(blocks, end.path, 0, end.offset, style);
        assert((a + b).contains(style) <==> a.contains(style) || b.contains(style));
        assert((a + b + c).contains(style) <==> (a + b).contains(style) || c.contains(style));
        if a.contains(style) {
            lemma_place_covered(
                blocks,
                start,
                end,
                start.path,
                start.offset,
                first_len,
                style,
            );
        }
        if b.contains(style) {
            let i = choose|i: int|
                0 <= i < between.len() && has_place(
                    blocks,
                    #[trigger] between[i],
                    0,
                    len_at(blocks, between[i]),
                    style,
                );
            assert(between.contains(between[i]));
            lemma_place_covered(
                blocks,
                start,
                end,
                between[i],
                0,
                len_at(blocks, between[i]),
                style,
            );
        }
        if c.contains(style) {
            lemma_place_covered(blocks, start, end, end.path, 0, end.offset, style);
        }
        if covers_style(blocks, start, end, style) {
            let at = choose|at: Pos| #[trigger]
                covers_byte(blocks, start, end, at) && style_of_byte(blocks, at) == style;
            assert(style_in(para_at(blocks, at.path)->0.spans@, at.offset) == style);
            if between.contains(at.path) {
                let i = choose|i: int| 0 <= i < between.len() && between[i] == at.path;
                assert(has_place(blocks, between[i], 0, len_at(blocks, between[i]), style));
            }
        }
    }
}

/// Boldness, slant, underlining or striking is mixed over a selection exactly
/// when two bytes that it covers differ in it, in one paragraph or in two.
pub proof fn law_mixed_means_two_bytes_differ(blocks: Seq<Block>, start: Pos, end: Pos)
    requires
        all_runs_ok(blocks),
        start.offset <= len_at(blocks, start.path),
        end.offset <= len_at(blocks, end.path),
    ensures
        ({
            let m = mixed_over(blocks, start, end);
            &&& m.bold <==> exists|x: Pos, y: Pos| #[trigger]
                covers_byte(blocks, start, end, x) && #[trigger] covers_byte(blocks, start, end, y)
                    && is_bold(style_of_byte(blocks, x)) != is_bold(style_of_byte(blocks, y))
            &&& m.italic <==> exists|x: Pos, y: Pos| #[trigger]
                covers_byte(blocks, start, end, x) && #[trigger] covers_byte(blocks, start, end, y)
                    && is_italic(style_of_byte(blocks, x)) != is_italic(style_of_byte(blocks, y))
            &&& m.underline <==> exists|x: Pos, y: Pos| #[trigger]
                covers_byte(blocks, start, end, x) && #[trigger] covers_byte(blocks, start, end, y)
                    && line_under(style_of_byte(blocks, x)) != line_under(style_of_byte(blocks, y))
            &&& m.strike <==> exists|x: Pos, y: Pos| #[trigger]
                covers_byte(blocks, start, end, x) && #[trigger] covers_byte(blocks, start, end, y)
                    && is_struck(style_of_byte(blocks, x)) != is_struck(style_of_byte(blocks, y))
        }),
{
    let styles = selected_styles(blocks, start, end);
    assert forall|x: Pos| #[trigger] covers_byte(blocks, start, end, x) implies styles.contains(
        style_of_byte(blocks, x),
    ) by {
        lemma_selected_styles(blocks, start, end, style_of_byte(blocks, x));
    }
    assert forall|k: int| 0 <= k < styles.len() implies covers_style(
        blocks,
        start,
        end,
        #[trigger] styles[k],
    ) by {
        assert(styles.contains(styles[k]));
        lemma_selected_styles(blocks, start, end, styles[k]);
    }
    let m = mixed_over(blocks, start, end);
    if m.bold {
        let k = choose|k: int|
            0 <= k < styles.len() && is_bold(#[trigger] styles[k]) != is_bold(styles[0]);
        assert(covers_style(blocks, start, end, styles[k]));
        assert(covers_style(blocks, start, end, styles[0]));
    }
    if m.italic {
        let k = choose|k: int|
            0 <= k < styles.len() && is_italic(#[trigger] styles[k]) != is_italic(styles[0]);
        assert(covers_style(blocks, start, end, styles[k]));
        assert(covers_style(blocks, start, end, styles[0]));
    }
    if m.underline {
        let k = choose|k: int|
            0 <= k < styles.len() && line_under(#[trigger] styles[k]) != line_under(styles[0]);
        assert(covers_style(blocks, start, end, styles[k]));
        assert(covers_style(blocks, start, end, styles[0]));
    }
    if m.strike {
        let k = choose|k: int|
            0 <= k < styles.len() && is_struck(#[trigger] styles[k]) != is_struck(styles[0]);
        assert(covers_style(blocks, start, end, styles[k]));
        assert(covers_style(blocks, start, end, styles[0]));
    }
}

/// A tab stop as it is reported: one without a leader has a blank one.
pub open spec fn reported_stop(s: TabStop) -> TabStop {
    TabStop {
        leader: Some(
            match s.leader {
                Some(l) => l,
                None => BridgeTabLeader::Blank,
            },
        ),
        ..s
    }
}

/// The tab stops of the paragraph at a path; none outside a paragraph.
pub fn tab_stops_for_caret(doc: &DocumentTree, path: &BlockPath) -> (r: Vec<TabStop>)
    ensures
        r@ == (match para_at(doc.blocks@, path@) {
            Some(p) => p.props.tab_stops@.map_values(|s: TabStop| reported_stop(s)),
            None => Seq::empty(),
        }),
{
    let mut out: Vec<TabStop> = Vec::new();
    if let Some(p) = doc.paragraph_at_path(path) {
        let stops: &Vec<TabStop> = &p.props.tab_stops;
        let mut i: usize = 0;
        while i < stops.len()
            invariant
                i <= stops@.len(),
                out@ == stops@.take(i as int).map_values(|s: TabStop| reported_stop(s)),
            decreases stops.len() - i,
        {
            let s: TabStop = stops[i];
            let leader = match s.leader {
                Some(l) => l,
                None => BridgeTabLeader::Blank,
            };
            out.push(
                TabStop { position_bits: s.position_bits, kind: s.kind, leader: Some(leader) },
            );
            i += 1;
            assert(out@ =~= stops@.take(i as int).map_values(|s: TabStop| reported_stop(s)));
        }
        assert(stops@.take(i as int) =~= stops@);
    }
    out
}

/// The innermost cell that a path leads through.
pub open spec fn innermost_cell(blocks: Seq<Block>, path: Seq<PathStep>) -> Option<TableCell>
    decreases path.len(),
{
    if path.len() < 2 {
        None
    } else {
        match (path[0], path[1]) {
            (PathStep::Block { idx }, PathStep::Cell { row, col }) => if idx < blocks.len() {
                match blocks[idx as int] {
                    Block::Table(t) => match crate::document::cell_at(t, row as int, col as int) {
                        Some(cell) => match innermost_cell(cell.blocks@, path.skip(2)) {
                            Some(inner) => Some(inner),
                            None => Some(cell),
                        },
                        None => None,
                    },
                    Block::Paragraph(_) => None,
                }
            } else {
                None
            },
            _ => None,
        }
    }
}

/// The innermost cell that a path leads through.
pub fn cell_for_caret<'a>(doc: &'a DocumentTree, path: &BlockPath) -> (r: Option<&'a TableCell>)
    ensures
        match r {
            Some(c) => innermost_cell(doc.blocks@, path@) == Some(*c),
            None => innermost_cell(doc.blocks@, path@) is None,
        },
{
    find_cell(&doc.blocks, &path.steps, 0)
}

/// The top-level table that a path leads into runs from right to left.
pub open spec fn top_table_is_bidi(blocks: Seq<Block>, path: Seq<PathStep>) -> bool {
    path.len() > 0 && match path[0] {
        PathStep::Block { idx } => idx < blocks.len() && match blocks[idx as int] {
            Block::Table(t) => t.bidi_visual,
            Block::Paragraph(_) => false,
        },
        PathStep::Cell { .. } => false,
    }
}

/// What the caret's cell reports; nothing outside a table.
pub open spec fn cell_report(blocks: Seq<Block>, path: Seq<PathStep>) -> Option<
    BridgeCellProperties,
> {
    match innermost_cell(blocks, path) {
        Some(cell) => Some(
            BridgeCellProperties {
                shading: cell.props.shading,
                borders: match cell.props.borders {
                    Some(b) => b,
                    None => BridgeCellBorders { top: None, left: None, bottom: None, right: None },
                },
                table_bidi_visual: top_table_is_bidi(blocks, path),
            },
        ),
        None => None,
    }
}

/// The shading and borders of the innermost cell at a path, and whether its
/// top-level table runs from right to left; nothing outside a table.
pub fn cell_properties_for_caret(doc: &DocumentTree, path: &BlockPath) -> (r: Option<
    BridgeCellProperties,
>)
    ensures
        r == cell_report(doc.blocks@, path@),
{
    let cell: &TableCell = match cell_for_caret(doc, path) {
        Some(cell) => cell,
        None => return None,
    };
    let bidi: bool = match &path.steps[0] {
        PathStep::Block { idx } => match &doc.blocks[*idx as usize] {
            Block::Table(t) => t.bidi_visual,
            Block::Paragraph(_) => false,
        },
        PathStep::Cell { .. } => false,
    };
    Some(
        BridgeCellProperties {
            shading: cell.props.shading,
            borders: match cell.props.borders {
                Some(b) => b,
                None => BridgeCellBorders { top: None, left: None, bottom: None, right: None },
            },
            table_bidi_visual: bidi,
        },
    )
}

fn find_cell<'a>(blocks: &'a Vec<Block>, steps: &Vec<PathStep>, from: usize) -> (r: Option<
    &'a TableCell,
>)
    requires
        from <= steps@.len(),
    ensures
        match r {
            Some(c) => innermost_cell(blocks@, steps@.skip(from as int)) == Some(*c),
            None => innermost_cell(blocks@, steps@.skip(from as int)) is None,
        },
    decreases steps.len() - from,
{
    let ghost path = steps@.skip(from as int);
    if steps.len() - from < 2 {
        return None;
    }
    assert(path[0] == steps@[from as int]);
    assert(path[1] == steps@[from as int + 1]);
    match (&steps[from], &steps[from + 1]) {
        (PathStep::Block { idx }, PathStep::Cell { row, col }) => {
            if *idx as usize >= blocks.len() {
                return None;
            }
            match &blocks[*idx as usize] {
                Block::Table(t) => match t.cell(*row, *col) {
                    Some(cell) => {
                        assert(path.skip(2) =~= steps@.skip(from as int + 2));
                        match find_cell(&cell.blocks, steps, from + 2) {
                            Some(inner) => Some(inner),
                            None => Some(cell),
                        }
                    },
                    None => None,
                },
                Block::Paragraph(_) => None,
            }
        },
        _ => None,
    }
}

/// The toolbar shows each attribute of a style under its own name: flags that
/// the style does not set are off, the underline is none, and the size, family
/// and colour are the document's.
pub proof fn law_toolbar_shows_each_attribute(s: SpanStyle, cfg: Option<RenderConfig>)
    ensures
        ({
            let a = attrs_of(s, cfg);
            &&& a.bold == (s.bold == Some(true))
            &&& a.italic == (s.italic == Some(true))
            &&& a.strike == (s.strike == Some(true))
            &&& a.caps == (s.caps == Some(true))
            &&& a.small_caps == (s.small_caps == Some(true))
            &&& s.underline is None ==> a.underline == UnderlineStyle::NoLine
            &&& s.underline matches Some(u) ==> a.underline == u
            &&& s.font_size matches Some(size) ==> a.font_size == size
            &&& s.font_size is None && cfg is Some ==> a.font_size.bits == cfg->0.px_size_bits
            &&& s.font_family matches Some(f) ==> a.font_family == family_id(f)
            &&& s.font_family is None && cfg is Some ==> a.font_family == cfg->0.font_id@
            &&& s.color matches Some(c) ==> a.color == c
            &&& s.color is None ==> a.color == (Color { r: 0, g: 0, b: 0, a: 255 })
            &&& a.bg_color == s.bg_color
        }),
{
}

/// A style has an attribute where it sets that attribute itself.
pub proof fn law_attributes_are_read_one_by_one(s: SpanStyle)
    ensures
        is_bold(s) == (s.bold == Some(true)),
        is_italic(s) == (s.italic == Some(true)),
        is_struck(s) == (s.strike == Some(true)),
        (line_under(s) != UnderlineStyle::NoLine) == (s.underline is Some && s.underline != Some(
            UnderlineStyle::NoLine,
        )),
        has_attr(s, FormattingToggle::Bold) == (s.bold == Some(true)),
        has_attr(s, FormattingToggle::Italic) == (s.italic == Some(true)),
        has_attr(s, FormattingToggle::Strike) == (s.strike == Some(true)),
        has_attr(s, FormattingToggle::Underline) == (s.underline is Some && s.underline != Some(
            UnderlineStyle::NoLine,
        )),
        has_attr(s, FormattingToggle::Caps) == (s.caps == Some(true)),
        has_attr(s, FormattingToggle::SmallCaps) == (s.small_caps == Some(true)),
        has_attr(s, FormattingToggle::Superscript) == (s.vert_align == Some(
            VertAlign::Superscript,
        )),
        has_attr(s, FormattingToggle::Subscript) == (s.vert_align == Some(VertAlign::Subscript)),
{
}

/// A toggle changes its own attribute and no other, but for the one that
/// excludes it.
pub proof fn law_toggle_changes_one_attribute(
    s: SpanStyle,
    attr: FormattingToggle,
    on: bool,
    underline: Option<UnderlineStyle>,
)
    ensures
        ({
            let r = overlaid(s, switched(attr, on, underline));
            &&& attr is Bold ==> r.bold == Some(on)
            &&& !(attr is Bold) ==> r.bold == s.bold
            &&& attr is Italic ==> r.italic == Some(on)
            &&& !(attr is Italic) ==> r.italic == s.italic
            &&& attr is Strike ==> r.strike == Some(on)
            &&& !(attr is Strike) ==> r.strike == s.strike
            &&& attr is Underline && !on ==> r.underline == Some(UnderlineStyle::NoLine)
            &&& attr is Underline && on && underline is None ==> r.underline == Some(
                UnderlineStyle::Single,
            )
            &&& attr is Underline && on && underline is Some ==> r.underline == underline
            &&& !(attr is Underline) ==> r.underline == s.underline
            &&& attr is Superscript && on ==> r.vert_align == Some(VertAlign::Superscript)
            &&& attr is Subscript && on ==> r.vert_align == Some(VertAlign::Subscript)
            &&& (attr is Superscript || attr is Subscript) && !on ==> r.vert_align == Some(
                VertAlign::Baseline,
            )
            &&& !(attr is Superscript || attr is Subscript) ==> r.vert_align == s.vert_align
            &&& attr is Caps ==> r.caps == Some(on)
            &&& attr is SmallCaps ==> r.small_caps == Some(on)
            &&& !(attr is Caps || attr is SmallCaps) ==> r.caps == s.caps && r.small_caps
                == s.small_caps
            &&& r.font_family == s.font_family && r.font_size == s.font_size && r.color == s.color
                && r.bg_color == s.bg_color
        }),
{
}

/// The toolbar looks at the start of selected text; for a caret it looks at the
/// character before it, except at the very start of a paragraph.
pub proof fn law_toolbar_looks_before_the_caret(start: Pos, end: Pos, prev: u32)
    ensures
        start != end ==> probe(start, end, prev) == start,
        start.offset == 0 ==> probe(start, end, prev) == start,
        start == end && start.offset > 0 ==> probe(start, end, prev).path == start.path && probe(
            start,
            end,
            prev,
        ).offset == prev,
{
}

/// The style at a place is that of its byte, with a pending style laid over it
/// where there is one.
pub proof fn law_pending_style_comes_on_top(
    blocks: Seq<Block>,
    pos: Pos,
    p: Paragraph,
    over: SpanStyle,
)
    requires
        para_at(blocks, pos.path) == Some(p),
    ensures
        effective_style(blocks, pos, None) == style_in(p.spans@, pos.offset),
        over.bold is Some ==> effective_style(blocks, pos, Some(over)).bold == over.bold,
        over.bold is None ==> effective_style(blocks, pos, Some(over)).bold == style_in(
            p.spans@,
            pos.offset,
        ).bold,
        over.color is Some ==> effective_style(blocks, pos, Some(over)).color == over.color,
        over.color is None ==> effective_style(blocks, pos, Some(over)).color == style_in(
            p.spans@,
            pos.offset,
        ).color,
        effective_style(blocks, pos, Some(over)) == overlaid(
            effective_style(blocks, pos, None),
            over,
        ),
{
}

/// A paragraph's own alignment comes before the document's, and text stands at
/// the start where neither is set.
pub proof fn law_own_alignment_comes_first(
    blocks: Seq<Block>,
    path: Seq<PathStep>,
    default: Option<Alignment>,
    p: Paragraph,
)
    requires
        para_at(blocks, path) == Some(p),
    ensures
        p.props.alignment is Some ==> alignment_at(blocks, path, default) == p.props.alignment->0,
        p.props.alignment is None && default is Some ==> alignment_at(blocks, path, default)
            == default->0,
        p.props.alignment is None && default is None ==> alignment_at(blocks, path, default)
            == Alignment::Start,
{
}

/// A direction is reported over a selection only where its first and its last
/// paragraph and all between have it.
pub proof fn law_direction_is_shared(
    blocks: Seq<Block>,
    start: Pos,
    end: Pos,
    base: Option<Direction>,
)
    ensures
        direction_over(blocks, start, end, base) matches Some(d) ==> {
            &&& direction_at(blocks, start.path, base) == d
            &&& direction_at(blocks, end.path, base) == d
            &&& forall|i: int|
                0 <= i < paths_between(blocks, start.path, end.path).len() && start.path
                    != end.path ==> direction_at(
                    blocks,
                    #[trigger] paths_between(blocks, start.path, end.path)[i],
                    base,
                ) == d
        },
        direction_over(blocks, start, end, base) is None ==> start.path != end.path,
{
}

/// Over text, a toggle turns its attribute off exactly where every style that
/// the selection covers has it.
pub proof fn law_toggle_completes_before_it_clears(
    blocks: Seq<Block>,
    start: Pos,
    end: Pos,
    prev: u32,
    pending: Option<SpanStyle>,
    attr: FormattingToggle,
)
    requires
        start != end,
    ensures
        ({
            let styles = selected_styles(blocks, start, end);
            !turns_on(blocks, start, end, prev, pending, attr) <==> styles.len() > 0 && forall|
                i: int,
            |
                0 <= i < styles.len() ==> has_attr(#[trigger] styles[i], attr)
        }),
{
}

/// A change of style over nothing but a caret is kept for the next typing, with
/// what was kept before it; over text it goes to the text.
pub proof fn law_formatting_goes_to_the_text(
    start: Pos,
    end: Pos,
    has_selection: bool,
    pending: Option<SpanStyle>,
    patch: SpanStyle,
)
    ensures
        start != end || !has_selection ==> formatting(start, end, has_selection, pending, patch)
            == (Formatting::Restyle { start, end, patch }),
        start == end && has_selection ==> (formatting(
            start,
            end,
            has_selection,
            pending,
            patch,
        ) matches Formatting::Arm { style } && {
            &&& patch.bold is Some ==> style.bold == patch.bold
            &&& patch.italic is Some ==> style.italic == patch.italic
            &&& patch.italic is None && pending is Some ==> style.italic == pending->0.italic
            &&& patch.bold is None && pending is None ==> style.bold is None
        }),
{
}

/// The caret's cell is the one that its path names last. It reports its own
/// shading and borders, and whether the outermost table runs from right to left.
pub proof fn law_cell_reports_its_own(
    blocks: Seq<Block>,
    t: crate::document::Table,
    idx: u32,
    row: u32,
    col: u32,
    inner: u32,
)
    requires
        idx < blocks.len(),
        blocks[idx as int] == Block::Table(t),
        row < t.rows@.len(),
        col < t.rows@[row as int].cells@.len(),
    ensures
        ({
            let cell = t.rows@[row as int].cells@[col as int];
            let path = seq![
                PathStep::Block { idx },
                PathStep::Cell { row, col },
                PathStep::Block { idx: inner },
            ];
            &&& cell_report(blocks, path) matches Some(r) && {
                &&& r.shading == cell.props.shading
                &&& cell.props.borders is Some ==> r.borders == cell.props.borders->0
                &&& cell.props.borders is None ==> r.borders.top is None && r.borders.left is None
                    && r.borders.bottom is None && r.borders.right is None
                &&& r.table_bidi_visual == t.bidi_visual
            }
            &&& cell_report(blocks, seq![PathStep::Block { idx }]) is None
        }),
{
    let path = seq![
        PathStep::Block { idx },
        PathStep::Cell { row, col },
        PathStep::Block { idx: inner },
    ];
    assert(path.skip(2).len() == 1);
    reveal_with_fuel(innermost_cell, 3);
}

/// A tab stop is reported as it is; one without a leader with a blank one.
pub proof fn law_stops_are_reported(s: TabStop)
    ensures
        reported_stop(s).position_bits == s.position_bits,
        reported_stop(s).kind == s.kind,
        s.leader is Some ==> reported_stop(s).leader == s.leader,
        s.leader is None ==> reported_stop(s).leader == Some(BridgeTabLeader::Blank),
{
}

} // verus!
