//! Resolved style spans: a paragraph's sparse runs expanded into a gap-free
//! list, with capitals, tracked changes, hyperlinks and an input-method
//! composition laid over.

use crate::cache::same_mark;
use crate::common::{Color, UnderlineStyle};
use crate::document::{
    byte_len, style_in, text_len, FontFamily, FontSize, Hyperlink, Paragraph, Revision,
    RevisionKind, SpanStyle, StyleRun, VertAlign,
};
use crate::text::{
    char_width, chars_of, check_slice, lemma_text_len_push, same_text, slice_text, slices,
    text_slice,
};
use vstd::prelude::*;
use vstd::utf8::encode_utf8;

verus! {

/// The size of a span: the document default or an explicit size as it is, or
/// a run's size with its script shrink and its small-capitals shrink.
#[derive(Clone, Copy, Debug, PartialEq, Eq, Structural)]
pub enum SpanSize {
    Plain { size: Option<FontSize> },
    Run { size: Option<FontSize>, script: VertAlign, small: bool },
}

/// The least size of a run: one pixel.
pub const LEAST_SIZE: u32 = 64;

/// How much of its size a run keeps, in percent: superscripts and subscripts
/// are smaller.
pub open spec fn script_percent(script: VertAlign) -> int {
    match script {
        VertAlign::Baseline => 100,
        VertAlign::Superscript | VertAlign::Subscript => 65,
    }
}

/// How far a run is lifted, in percent of its size: superscripts go up and
/// subscripts down.
pub open spec fn shift_percent(script: VertAlign) -> int {
    match script {
        VertAlign::Baseline => 0,
        VertAlign::Superscript => 33,
        VertAlign::Subscript => -15,
    }
}

/// How much of its size a lowercase letter keeps in small capitals, in percent.
pub open spec fn small_percent(small: bool) -> int {
    if small {
        80
    } else {
        100
    }
}

/// The size at which text is set whose font size is `em`, both in layout units.
/// That of a run is rounded down, and is a pixel at least.
pub open spec fn set_size(size: SpanSize, em: u32) -> int {
    match size {
        SpanSize::Plain { .. } => em as int,
        SpanSize::Run { script, small, .. } => {
            let shrunk = (em * (script_percent(script) * small_percent(small))) / 10000;
            if shrunk >= LEAST_SIZE {
                shrunk
            } else {
                LEAST_SIZE as int
            }
        },
    }
}

/// How far above its baseline text stands whose font size is `em`, both in layout
/// units, rounded down.
pub open spec fn set_shift(size: SpanSize, em: u32) -> int {
    match size {
        SpanSize::Plain { .. } => 0,
        SpanSize::Run { script, .. } => (em * shift_percent(script)) / 100,
    }
}

impl SpanSize {
    /// The size at which text is set whose font size is `em`, both in layout
    /// units.
    pub fn set_size(self, em: u32) -> (r: u32)
        ensures
            r == set_size(self, em),
    {
        match self {
            SpanSize::Plain { .. } => em,
            SpanSize::Run { script, small, .. } => {
                let by_script: u64 = match script {
                    VertAlign::Baseline => 100,
                    VertAlign::Superscript | VertAlign::Subscript => 65,
                };
                let by_case: u64 = if small {
                    80
                } else {
                    100
                };
                assert(by_script * by_case <= 10000) by (nonlinear_arith)
                    requires
                        by_script <= 100,
                        by_case <= 100,
                ;
                let percent: u64 = by_script * by_case;
                assert(0 <= em * percent <= em * 10000) by (nonlinear_arith)
                    requires
                        0 <= percent <= 10000,
                        0 <= em,
                ;
                let shrunk: u64 = em as u64 * percent / 10000;
                if shrunk >= LEAST_SIZE as u64 {
                    shrunk as u32
                } else {
                    LEAST_SIZE
                }
            },
        }
    }

    /// How far above its baseline text stands whose font size is `em`, both in
    /// layout units.
    pub fn set_shift(self, em: u32) -> (r: i64)
        ensures
            r == set_shift(self, em),
    {
        match self {
            SpanSize::Plain { .. } => 0,
            SpanSize::Run { script, .. } => match script {
                VertAlign::Baseline => 0,
                VertAlign::Superscript => em as i64 * 33 / 100,
                VertAlign::Subscript => -((em as i64 * 15 + 99) / 100),
            },
        }
    }
}

/// A run is never set smaller than a pixel. Small capitals are no larger than
/// full ones, and superscripts and subscripts no larger than the text beside
/// them.
pub proof fn law_runs_shrink_down_to_a_pixel(
    size: Option<FontSize>,
    script: VertAlign,
    small: bool,
    em: u32,
)
    ensures
        ({
            let run = set_size(SpanSize::Run { size, script, small }, em);
            &&& run >= LEAST_SIZE
            &&& run <= set_size(SpanSize::Run { size, script, small: false }, em)
            &&& run <= set_size(SpanSize::Run { size, script: VertAlign::Baseline, small }, em)
            &&& em >= LEAST_SIZE ==> run <= em
        }),
{
    assert((em * 10000) / 10000 == em) by (nonlinear_arith)
        requires
            em >= 0,
    ;
    assert(em * 5200 <= em * 6500 <= em * 10000) by (nonlinear_arith)
        requires
            em >= 0,
    ;
    assert(em * 5200 <= em * 8000 <= em * 10000) by (nonlinear_arith)
        requires
            em >= 0,
    ;
}

/// A byte range with every attribute resolved.
#[derive(Clone, Copy, Debug, PartialEq, Eq, Structural)]
pub struct StyleSpan {
    pub start: u32,
    pub end: u32,
    pub size: SpanSize,
    pub color: Color,
    pub bold: bool,
    pub italic: bool,
    pub underline: UnderlineStyle,
    pub strike: bool,
    pub bg_color: Option<Color>,
    pub font_family: Option<FontFamily>,
    pub caps_transform: bool,
}

/// Opaque black, the colour of unstyled text.
pub open spec fn black() -> Color {
    Color { r: 0, g: 0, b: 0, a: 255 }
}

/// A span of unstyled text.
pub open spec fn gap_span(start: u32, end: u32, color: Color) -> StyleSpan {
    StyleSpan {
        start,
        end,
        size: SpanSize::Plain { size: None },
        color,
        bold: false,
        italic: false,
        underline: UnderlineStyle::NoLine,
        strike: false,
        bg_color: None,
        font_family: None,
        caps_transform: false,
    }
}

pub(crate) fn make_gap(start: u32, end: u32, color: Color) -> (r: StyleSpan)
    ensures
        r == gap_span(start, end, color),
{
    StyleSpan {
        start,
        end,
        size: SpanSize::Plain { size: None },
        color,
        bold: false,
        italic: false,
        underline: UnderlineStyle::NoLine,
        strike: false,
        bg_color: None,
        font_family: None,
        caps_transform: false,
    }
}

pub open spec fn or_else<T>(o: Option<T>, d: T) -> T {
    match o {
        Some(x) => x,
        None => d,
    }
}

fn or_default<T: Copy>(o: Option<T>, d: T) -> (r: T)
    ensures
        r == or_else(o, d),
{
    match o {
        Some(x) => x,
        None => d,
    }
}

/// A run's span before its capitals are laid out.
pub open spec fn run_template(run: StyleRun, color: Color) -> StyleSpan {
    StyleSpan {
        start: run.start,
        end: run.end,
        size: SpanSize::Run {
            size: run.style.font_size,
            script: or_else(run.style.vert_align, VertAlign::Baseline),
            small: false,
        },
        color: or_else(run.style.color, color),
        bold: or_else(run.style.bold, false),
        italic: or_else(run.style.italic, false),
        underline: or_else(run.style.underline, UnderlineStyle::NoLine),
        strike: or_else(run.style.strike, false),
        bg_color: run.style.bg_color,
        font_family: run.style.font_family,
        caps_transform: false,
    }
}

fn make_template(run: &StyleRun, color: Color) -> (r: StyleSpan)
    ensures
        r == run_template(*run, color),
{
    StyleSpan {
        start: run.start,
        end: run.end,
        size: SpanSize::Run {
            size: run.style.font_size,
            script: or_default(run.style.vert_align, VertAlign::Baseline),
            small: false,
        },
        color: or_default(run.style.color, color),
        bold: or_default(run.style.bold, false),
        italic: or_default(run.style.italic, false),
        underline: or_default(run.style.underline, UnderlineStyle::NoLine),
        strike: or_default(run.style.strike, false),
        bg_color: run.style.bg_color,
        font_family: run.style.font_family,
        caps_transform: false,
    }
}

/// Whether a character is a lowercase letter.
pub uninterp spec fn lowercase(c: char) -> bool;

/// Calls `char::is_lowercase`. Claimed: the result is the named property of
/// the character.
#[verifier::external_body]
fn is_lowercase(c: char) -> (r: bool)
    ensures
        r == lowercase(c),
{
    c.is_lowercase()
}

/// A span with the small-capitals flag set as asked.
pub open spec fn with_small(size: SpanSize, small: bool) -> SpanSize {
    match size {
        SpanSize::Plain { size } => SpanSize::Plain { size },
        SpanSize::Run { size, script, .. } => SpanSize::Run { size, script, small },
    }
}

fn set_small(size: SpanSize, small: bool) -> (r: SpanSize)
    ensures
        r == with_small(size, small),
{
    match size {
        SpanSize::Plain { size } => SpanSize::Plain { size },
        SpanSize::Run { size, script, .. } => SpanSize::Run { size, script, small },
    }
}

/// A piece of a run set in small capitals.
pub open spec fn small_piece(template: StyleSpan, start: u32, end: u32, lower: bool) -> StyleSpan {
    StyleSpan {
        start,
        end,
        size: with_small(template.size, lower),
        caps_transform: true,
        ..template
    }
}

/// Which of some characters are lowercase letters.
pub open spec fn lowercases(chars: Seq<char>) -> Seq<bool> {
    chars.map_values(|c: char| lowercase(c))
}

/// The pieces of a run set in small capitals over the first `n` of `chars`,
/// whose first byte is `lo`: one for each stretch of letters that are all
/// lowercase or all not. `lower` says which of them are.
pub open spec fn small_pieces(
    template: StyleSpan,
    chars: Seq<char>,
    lower: Seq<bool>,
    lo: int,
    n: nat,
) -> Seq<StyleSpan>
    decreases n,
{
    if n == 0 {
        Seq::empty()
    } else {
        let head = small_pieces(template, chars, lower, lo, (n - 1) as nat);
        let start = (lo + text_len(chars.take(n - 1))) as u32;
        let end = (lo + text_len(chars.take(n as int))) as u32;
        if n >= 2 && lower[n - 2] == lower[n - 1] {
            head.update(
                head.len() - 1,
                small_piece(template, head.last().start, end, lower[n - 1]),
            )
        } else {
            head.push(small_piece(template, start, end, lower[n - 1]))
        }
    }
}

/// The spans of one run: full capitals are one span; small capitals split at
/// changes of case; full capitals win over small ones.
pub open spec fn caps_spans(text: Seq<char>, style: SpanStyle, template: StyleSpan) -> Seq<
    StyleSpan,
> {
    let hi = if template.end <= text_len(text) {
        template.end as int
    } else {
        text_len(text) as int
    };
    if style.caps != Some(true) && style.small_caps != Some(true) {
        seq![template]
    } else if style.caps == Some(true) || template.start >= hi {
        seq![StyleSpan { caps_transform: true, ..template }]
    } else {
        let chars = text_slice(text, template.start as int, hi);
        small_pieces(template, chars, lowercases(chars), template.start as int, chars.len())
    }
}

/// A run set in small capitals starts and ends, as far as the text goes,
/// between characters.
pub open spec fn small_caps_ok(text: Seq<char>, style: SpanStyle, start: u32, end: u32) -> bool {
    let hi = if end <= text_len(text) {
        end as int
    } else {
        text_len(text) as int
    };
    style.caps != Some(true) && style.small_caps == Some(true) && start < hi ==> slices(
        text,
        start as int,
        hi,
    )
}

proof fn lemma_pieces_nonempty(
    template: StyleSpan,
    chars: Seq<char>,
    lower: Seq<bool>,
    lo: int,
    n: nat,
)
    requires
        n <= chars.len(),
    ensures
        n > 0 ==> small_pieces(template, chars, lower, lo, n).len() > 0,
    decreases n,
{
    if n > 0 {
        lemma_pieces_nonempty(template, chars, lower, lo, (n - 1) as nat);
    }
}

/// Which characters of a text are lowercase letters.
pub fn lowercase_flags(text: &str) -> (r: Vec<bool>)
    ensures
        r@ == lowercases(text@),
{
    let chars = chars_of(text);
    let mut out: Vec<bool> = Vec::new();
    let mut n: usize = 0;
    while n < chars.len()
        invariant
            n <= chars@.len(),
            chars@ == text@,
            out@ == lowercases(chars@.take(n as int)),
        decreases chars.len() - n,
    {
        out.push(is_lowercase(chars[n]));
        n += 1;
        assert(out@ =~= lowercases(chars@.take(n as int)));
    }
    assert(chars@.take(n as int) =~= chars@);
    out
}

/// Split a run set in small capitals whose text is `slice` and begins at byte
/// `lo`, where `lower` says which of its characters are lowercase letters.
pub fn split_small_caps(template: &StyleSpan, slice: &str, lower: &Vec<bool>, lo: u32) -> (r: Vec<
    StyleSpan,
>)
    requires
        lo + text_len(slice@) <= u32::MAX,
        lower@.len() == slice@.len(),
    ensures
        r@ == small_pieces(*template, slice@, lower@, lo as int, slice@.len()),
{
    let chars = chars_of(slice);
    let mut pieces: Vec<StyleSpan> = Vec::new();
    let mut at: u32 = lo;
    let mut n: usize = 0;
    proof {
        assert(chars@.take(0) =~= Seq::<char>::empty());
        assert(encode_utf8(Seq::<char>::empty()).len() == 0);
    }
    while n < chars.len()
        invariant
            n <= chars@.len(),
            chars@ == slice@,
            lower@.len() == chars@.len(),
            lo + text_len(chars@) <= u32::MAX,
            at == lo + text_len(chars@.take(n as int)),
            pieces@ == small_pieces(*template, chars@, lower@, lo as int, n as nat),
            n > 0 ==> pieces@.len() > 0,
        decreases chars.len() - n,
    {
        let c: char = chars[n];
        let c_lower: bool = lower[n];
        proof {
            assert(chars@.take(n as int + 1) =~= chars@.take(n as int).push(c));
            lemma_text_len_push(chars@.take(n as int), c);
            lemma_text_len_prefix(chars@, n as int + 1);
            lemma_pieces_nonempty(*template, chars@, lower@, lo as int, (n + 1) as nat);
        }
        let end: u32 = at + char_width(c) as u32;
        if n > 0 && lower[n - 1] == c_lower {
            let last: usize = pieces.len() - 1;
            let start: u32 = pieces[last].start;
            pieces.set(
                last,
                StyleSpan {
                    start,
                    end,
                    size: set_small(template.size, c_lower),
                    caps_transform: true,
                    ..*template
                },
            );
        } else {
            pieces.push(
                StyleSpan {
                    start: at,
                    end,
                    size: set_small(template.size, c_lower),
                    caps_transform: true,
                    ..*template
                },
            );
        }
        at = end;
        n += 1;
    }
    pieces
}

/// A prefix of a text is no longer than the text.
proof fn lemma_text_len_prefix(s: Seq<char>, n: int)
    requires
        0 <= n <= s.len(),
    ensures
        text_len(s.take(n)) <= text_len(s),
{
    assert(s =~= s.take(n) + s.skip(n));
    crate::text::lemma_encode_concat(s.take(n), s.skip(n));
}

fn push_all(out: &mut Vec<StyleSpan>, more: &Vec<StyleSpan>)
    ensures
        final(out)@ == old(out)@ + more@,
{
    let ghost before = out@;
    let mut i: usize = 0;
    assert(out@ =~= before + more@.take(0));
    while i < more.len()
        invariant
            i <= more@.len(),
            out@ == before + more@.take(i as int),
        decreases more.len() - i,
    {
        out.push(more[i]);
        i += 1;
        assert(out@ =~= before + more@.take(i as int));
    }
    assert(more@.take(i as int) =~= more@);
}

/// Append the spans of one run.
pub fn push_caps_spans(
    para_text: &str,
    rstyle: &SpanStyle,
    template: &StyleSpan,
    out: &mut Vec<StyleSpan>,
)
    requires
        small_caps_ok(para_text@, *rstyle, template.start, template.end),
    ensures
        final(out)@ == old(out)@ + caps_spans(para_text@, *rstyle, *template),
{
    let ghost before = out@;
    let caps: bool = matches!(rstyle.caps, Some(true));
    let small: bool = matches!(rstyle.small_caps, Some(true));
    if !caps && !small {
        out.push(*template);
        assert(out@ =~= before + seq![*template]);
        return;
    }
    let len: usize = crate::document::byte_len(para_text);
    let lo: usize = template.start as usize;
    let hi: usize = if template.end as usize <= len {
        template.end as usize
    } else {
        len
    };
    if caps || lo >= hi {
        out.push(StyleSpan { caps_transform: true, ..*template });
        assert(out@ =~= before + seq![StyleSpan { caps_transform: true, ..*template }]);
        return;
    }
    let slice = slice_text(para_text, lo, hi);
    assert(text_len(slice@) == hi - lo);
    let lower = lowercase_flags(slice);
    let pieces = split_small_caps(template, slice, &lower, template.start);
    push_all(out, &pieces);
}

/// Where the text after the first `n` runs begins.
pub open spec fn cursor(runs: Seq<StyleRun>, n: nat) -> u32 {
    if n == 0 {
        0
    } else {
        runs[n - 1].end
    }
}

/// The spans of the first `n` runs and of the gaps before them.
pub open spec fn spans_upto(text: Seq<char>, runs: Seq<StyleRun>, color: Color, n: nat) -> Seq<
    StyleSpan,
>
    decreases n,
{
    if n == 0 {
        Seq::empty()
    } else {
        let run = runs[n - 1];
        let at = cursor(runs, (n - 1) as nat);
        spans_upto(text, runs, color, (n - 1) as nat) + (if run.start > at {
            seq![gap_span(at, run.start, color)]
        } else {
            Seq::empty()
        }) + caps_spans(text, run.style, run_template(run, color))
    }
}

/// The resolved spans of a paragraph.
pub open spec fn style_spans(text: Seq<char>, runs: Seq<StyleRun>, color: Color) -> Seq<StyleSpan> {
    let len = text_len(text) as u32;
    let at = cursor(runs, runs.len());
    spans_upto(text, runs, color, runs.len()) + (if at < len {
        seq![gap_span(at, len, color)]
    } else {
        Seq::empty()
    })
}

/// The runs of a paragraph are in order, do not overlap, lie inside the text
/// and fall between characters.
pub open spec fn runs_ok(text: Seq<char>, runs: Seq<StyleRun>) -> bool {
    &&& text_len(text) <= u32::MAX
    &&& forall|i: int|
        0 <= i < runs.len() ==> (#[trigger] runs[i]).start <= runs[i].end && slices(
            text,
            runs[i].start as int,
            runs[i].end as int,
        )
    &&& forall|i: int, j: int|
        0 <= i < j < runs.len() ==> (#[trigger] runs[i]).end <= (#[trigger] runs[j]).start
}

/// Whether the runs of a paragraph are in order, do not overlap, lie inside the
/// text and fall between characters.
pub fn check_runs(text: &str, runs: &Vec<StyleRun>) -> (r: bool)
    ensures
        r == runs_ok(text@, runs@),
{
    if byte_len(text) > u32::MAX as usize {
        return false;
    }
    let mut at: u32 = 0;
    let mut n: usize = 0;
    while n < runs.len()
        invariant
            n <= runs@.len(),
            at == cursor(runs@, n as nat),
            forall|i: int| 0 <= i < n ==> (#[trigger] runs@[i]).end <= at,
            forall|i: int|
                0 <= i < n ==> (#[trigger] runs@[i]).start <= runs@[i].end && slices(
                    text@,
                    runs@[i].start as int,
                    runs@[i].end as int,
                ),
            forall|i: int, j: int|
                0 <= i < j < n ==> (#[trigger] runs@[i]).end <= (#[trigger] runs@[j]).start,
        decreases runs.len() - n,
    {
        let run: StyleRun = runs[n];
        if run.start < at {
            assert(runs@[n - 1].end > runs@[n as int].start);
            return false;
        }
        if !check_slice(text, run.start as usize, run.end as usize) {
            return false;
        }
        at = run.end;
        n += 1;
    }
    true
}

/// A run set in small capitals can be split.
pub open spec fn run_small_caps_ok(text: Seq<char>, run: StyleRun) -> bool {
    small_caps_ok(text, run.style, run.start, run.end)
}

/// Every run set in small capitals can be split.
pub open spec fn all_small_caps_ok(text: Seq<char>, runs: Seq<StyleRun>) -> bool {
    forall|i: int| 0 <= i < runs.len() ==> run_small_caps_ok(text, #[trigger] runs[i])
}

/// Expand a paragraph's runs into a gap-free list of resolved spans, filling
/// unstyled gaps with `default_color` and the document defaults.
pub fn build_style_spans(para: &Paragraph, default_color: Color) -> (r: Vec<StyleSpan>)
    requires
        all_small_caps_ok(para.text@, para.spans@),
    ensures
        r@ == style_spans(para.text@, para.spans@, default_color),
{
    let len: u32 = para.len32();
    let mut out: Vec<StyleSpan> = Vec::new();
    let mut at: u32 = 0;
    let mut n: usize = 0;
    while n < para.spans.len()
        invariant
            n <= para.spans@.len(),
            all_small_caps_ok(para.text@, para.spans@),
            at == cursor(para.spans@, n as nat),
            out@ == spans_upto(para.text@, para.spans@, default_color, n as nat),
        decreases para.spans.len() - n,
    {
        let run = para.spans[n];
        let ghost before = out@;
        if run.start > at {
            out.push(make_gap(at, run.start, default_color));
        }
        assert(out@ =~= before + (if run.start > at {
            seq![gap_span(at, run.start, default_color)]
        } else {
            Seq::empty()
        }));
        let template = make_template(&run, default_color);
        assert(run_small_caps_ok(para.text@, para.spans@[n as int]));
        push_caps_spans(para.text.as_str(), &run.style, &template, &mut out);
        at = run.end;
        n += 1;
    }
    let ghost before = out@;
    if at < len {
        out.push(make_gap(at, len, default_color));
    }
    assert(out@ =~= before + (if at < len {
        seq![gap_span(at, len, default_color)]
    } else {
        Seq::empty()
    }));
    out
}

/// Spans follow each other without gaps from `lo` to `hi`.
pub open spec fn tiles(s: Seq<StyleSpan>, lo: int, hi: int) -> bool {
    if s.len() == 0 {
        lo == hi
    } else {
        &&& s[0].start == lo
        &&& s.last().end == hi
        &&& forall|i: int| 0 <= i < s.len() ==> (#[trigger] s[i]).start <= s[i].end
        &&& forall|i: int, j: int|
            0 <= i < j < s.len() && j == i + 1 ==> (#[trigger] s[i]).end == (#[trigger] s[j]).start
    }
}

proof fn lemma_tiles_concat(a: Seq<StyleSpan>, b: Seq<StyleSpan>, lo: int, mid: int, hi: int)
    requires
        tiles(a, lo, mid),
        tiles(b, mid, hi),
    ensures
        tiles(a + b, lo, hi),
{
    let s = a + b;
    if a.len() == 0 {
        assert(s =~= b);
    } else if b.len() == 0 {
        assert(s =~= a);
    } else {
        assert forall|i: int, j: int| 0 <= i < j < s.len() && j == i + 1 implies (#[trigger] s[i]).end
            == (#[trigger] s[j]).start by {
            if j < a.len() {
                assert(s[i] == a[i] && s[j] == a[j]);
            } else if i < a.len() {
                assert(s[i] == a.last() && s[j] == b[0]);
            } else {
                assert(s[i] == b[i - a.len()] && s[j] == b[j - a.len()]);
            }
        }
        assert forall|i: int| 0 <= i < s.len() implies (#[trigger] s[i]).start <= s[i].end by {
            if i < a.len() {
                assert(s[i] == a[i]);
            } else {
                assert(s[i] == b[i - a.len()]);
            }
        }
    }
}

proof fn lemma_small_pieces_tile(
    template: StyleSpan,
    chars: Seq<char>,
    lower: Seq<bool>,
    lo: int,
    n: nat,
)
    requires
        n <= chars.len(),
        0 <= lo,
        lo + text_len(chars) <= u32::MAX,
    ensures
        tiles(
            small_pieces(template, chars, lower, lo, n),
            lo,
            lo + text_len(chars.take(n as int)),
        ),
    decreases n,
{
    if n == 0 {
        assert(chars.take(0) =~= Seq::<char>::empty());
        assert(encode_utf8(Seq::<char>::empty()).len() == 0);
    } else {
        lemma_small_pieces_tile(template, chars, lower, lo, (n - 1) as nat);
        let c = chars[n - 1];
        assert(chars.take(n as int) =~= chars.take(n - 1).push(c));
        lemma_text_len_push(chars.take(n - 1), c);
        lemma_text_len_prefix(chars, n as int);
        let head = small_pieces(template, chars, lower, lo, (n - 1) as nat);
        let s = small_pieces(template, chars, lower, lo, n);
        lemma_pieces_nonempty(template, chars, lower, lo, (n - 1) as nat);
        if n >= 2 && lower[n - 2] == lower[n - 1] {
            assert forall|i: int, j: int| 0 <= i < j < s.len() && j == i + 1 implies (
            #[trigger] s[i]).end == (#[trigger] s[j]).start by {
                assert(head[i].end == head[j].start);
            }
        } else {
            assert forall|i: int, j: int| 0 <= i < j < s.len() && j == i + 1 implies (
            #[trigger] s[i]).end == (#[trigger] s[j]).start by {
                if j < head.len() {
                    assert(head[i].end == head[j].start);
                }
            }
        }
    }
}

proof fn lemma_caps_tile(text: Seq<char>, run: StyleRun, color: Color)
    requires
        text_len(text) <= u32::MAX,
        run.start <= run.end,
        slices(text, run.start as int, run.end as int),
    ensures
        tiles(
            caps_spans(text, run.style, run_template(run, color)),
            run.start as int,
            run.end as int,
        ),
{
    let template = run_template(run, color);
    let chars = text_slice(text, run.start as int, run.end as int);
    if run.start < run.end {
        let bytes = encode_utf8(text).subrange(run.start as int, run.end as int);
        crate::text::lemma_slice_len(text, run.start as int, run.end as int);
        lemma_small_pieces_tile(
            template,
            chars,
            lowercases(chars),
            run.start as int,
            chars.len(),
        );
        assert(chars.take(chars.len() as int) =~= chars);
    }
}

proof fn lemma_spans_upto_tile(text: Seq<char>, runs: Seq<StyleRun>, color: Color, n: nat)
    requires
        runs_ok(text, runs),
        n <= runs.len(),
    ensures
        tiles(spans_upto(text, runs, color, n), 0, cursor(runs, n) as int),
    decreases n,
{
    if n > 0 {
        let m = (n - 1) as nat;
        lemma_spans_upto_tile(text, runs, color, m);
        let run = runs[n - 1];
        let at = cursor(runs, m);
        if m > 0 {
            assert(runs[m - 1].end <= runs[m as int].start);
        }
        let head = spans_upto(text, runs, color, m);
        let gap: Seq<StyleSpan> = if run.start > at {
            seq![gap_span(at, run.start, color)]
        } else {
            Seq::empty()
        };
        let tail = caps_spans(text, run.style, run_template(run, color));
        lemma_tiles_concat(head, gap, 0, at as int, run.start as int);
        lemma_caps_tile(text, run, color);
        lemma_tiles_concat(head + gap, tail, 0, run.start as int, run.end as int);
    }
}

/// The resolved spans cover the whole text without gaps or overlaps.
pub proof fn law_style_spans_tile_the_text(text: Seq<char>, runs: Seq<StyleRun>, color: Color)
    requires
        runs_ok(text, runs),
    ensures
        tiles(style_spans(text, runs, color), 0, text_len(text) as int),
{
    lemma_spans_upto_tile(text, runs, color, runs.len());
    let at = cursor(runs, runs.len());
    let len = text_len(text) as u32;
    if runs.len() > 0 {
        assert(slices(text, runs.last().start as int, runs.last().end as int));
    }
    let tail: Seq<StyleSpan> = if at < len {
        seq![gap_span(at, len, color)]
    } else {
        Seq::empty()
    };
    lemma_tiles_concat(spans_upto(text, runs, color, runs.len()), tail, 0, at as int, len as int);
}

/// Runs in order and inside the text can be split.
pub proof fn law_ordered_runs_can_be_split(text: Seq<char>, runs: Seq<StyleRun>)
    requires
        runs_ok(text, runs),
    ensures
        all_small_caps_ok(text, runs),
{
    assert forall|i: int| 0 <= i < runs.len() implies run_small_caps_ok(text, #[trigger] runs[i]) by {
        assert(slices(text, runs[i].start as int, runs[i].end as int));
    }
}

/// A cut point put into an increasing list, once.
pub open spec fn with_cut(cuts: Seq<u32>, x: u32) -> Seq<u32> {
    let k = below(cuts, x);
    if k < cuts.len() && cuts[k as int] == x {
        cuts
    } else {
        cuts.insert(k as int, x)
    }
}

/// How many leading cut points are below `x`.
pub open spec fn below(cuts: Seq<u32>, x: u32) -> nat
    decreases cuts.len(),
{
    if cuts.len() == 0 || cuts[0] >= x {
        0
    } else {
        1 + below(cuts.drop_first(), x)
    }
}

/// The cut points of a span: its ends, and the ends of the first `n` ranges
/// that overlap it, cut to it.
pub open spec fn cuts_of(span: StyleSpan, ranges: Seq<(u32, u32)>, n: nat) -> Seq<u32>
    decreases n,
{
    if n == 0 {
        with_cut(seq![span.start], span.end)
    } else {
        let cuts = cuts_of(span, ranges, (n - 1) as nat);
        let (s, e) = ranges[n - 1];
        if e > span.start && s < span.end {
            with_cut(
                with_cut(
                    cuts,
                    if s >= span.start {
                        s
                    } else {
                        span.start
                    },
                ),
                if e <= span.end {
                    e
                } else {
                    span.end
                },
            )
        } else {
            cuts
        }
    }
}

fn insert_cut(cuts: &mut Vec<u32>, x: u32)
    ensures
        final(cuts)@ == with_cut(old(cuts)@, x),
{
    let mut k: usize = 0;
    while k < cuts.len() && cuts[k] < x
        invariant
            k <= cuts@.len(),
            cuts@ == old(cuts)@,
            forall|i: int| 0 <= i < k ==> cuts@[i] < x,
        decreases cuts.len() - k,
    {
        k += 1;
    }
    proof {
        lemma_below(cuts@, x, k as int);
    }
    if k < cuts.len() && cuts[k] == x {
        return;
    }
    cuts.insert(k, x);
}

proof fn lemma_below(cuts: Seq<u32>, x: u32, k: int)
    requires
        0 <= k <= cuts.len(),
        forall|i: int| 0 <= i < k ==> cuts[i] < x,
        k < cuts.len() ==> cuts[k] >= x,
    ensures
        below(cuts, x) == k,
    decreases k,
{
    if k > 0 {
        assert(cuts[0] < x);
        let rest = cuts.drop_first();
        assert forall|i: int| 0 <= i < k - 1 implies rest[i] < x by {
            assert(cuts[i + 1] < x);
        }
        lemma_below(rest, x, k - 1);
    }
}

fn span_cuts(span: &StyleSpan, ranges: &Vec<(u32, u32)>) -> (r: Vec<u32>)
    ensures
        r@ == cuts_of(*span, ranges@, ranges@.len()),
{
    let mut cuts: Vec<u32> = Vec::new();
    cuts.push(span.start);
    assert(cuts@ =~= seq![span.start]);
    insert_cut(&mut cuts, span.end);
    let mut n: usize = 0;
    while n < ranges.len()
        invariant
            n <= ranges@.len(),
            cuts@ == cuts_of(*span, ranges@, n as nat),
        decreases ranges.len() - n,
    {
        let (s, e) = ranges[n];
        if e > span.start && s < span.end {
            insert_cut(
                &mut cuts,
                if s >= span.start {
                    s
                } else {
                    span.start
                },
            );
            insert_cut(
                &mut cuts,
                if e <= span.end {
                    e
                } else {
                    span.end
                },
            );
        }
        n += 1;
    }
    cuts
}

/// The colours of the review markup and of hyperlinks.
pub open spec fn insert_color() -> Color {
    Color { r: 0, g: 0x80, b: 0, a: 0xFF }
}

pub open spec fn delete_color() -> Color {
    Color { r: 0xCC, g: 0, b: 0, a: 0xFF }
}

pub open spec fn link_color() -> Color {
    Color { r: 0x05, g: 0x63, b: 0xC1, a: 0xFF }
}

/// The colour of one kind of tracked change.
pub open spec fn mark_color(kind: RevisionKind) -> Color {
    match kind {
        RevisionKind::Insert => insert_color(),
        RevisionKind::Delete => delete_color(),
    }
}

/// A tracked change covers a span.
pub open spec fn covers_span(r: Revision, span: StyleSpan) -> bool {
    r.start <= span.start && r.end >= span.end
}

/// A tracked change of this kind covers a span.
pub open spec fn covered_by(revisions: Seq<Revision>, span: StyleSpan, kind: RevisionKind) -> bool {
    exists|i: int|
        0 <= i < revisions.len() && covers_span(#[trigger] revisions[i], span)
            && revisions[i].kind == kind
}

/// A tracked change lies inside another and is shorter.
pub open spec fn nested_in(a: Revision, b: Revision) -> bool {
    b.start <= a.start && a.end <= b.end && (a.start != b.start || a.end != b.end)
}

/// Tracked change `i` covers a span, and none that covers it is nested in that
/// one.
pub open spec fn is_innermost(revisions: Seq<Revision>, span: StyleSpan, i: int) -> bool {
    &&& 0 <= i < revisions.len()
    &&& covers_span(revisions[i], span)
    &&& forall|j: int|
        0 <= j < revisions.len() && covers_span(#[trigger] revisions[j], span) ==> !nested_in(
            revisions[j],
            revisions[i],
        )
}

/// The innermost tracked change that covers a span, the first one from `from` on
/// where several are.
pub open spec fn innermost(revisions: Seq<Revision>, span: StyleSpan, from: nat) -> Option<int>
    decreases revisions.len() - from,
{
    if from >= revisions.len() {
        None
    } else if is_innermost(revisions, span, from as int) {
        Some(from as int)
    } else {
        innermost(revisions, span, from + 1)
    }
}

/// A span with the markup of the tracked changes that cover it: an underline
/// inside any insertion, a strike inside any deletion, and the colour of the
/// innermost change, unless the text has a colour of its own.
pub open spec fn marked(span: StyleSpan, revisions: Seq<Revision>, plain: Color) -> StyleSpan {
    StyleSpan {
        underline: if covered_by(revisions, span, RevisionKind::Insert) {
            UnderlineStyle::Single
        } else {
            span.underline
        },
        strike: span.strike || covered_by(revisions, span, RevisionKind::Delete),
        color: match innermost(revisions, span, 0) {
            Some(i) if span.color == plain => mark_color(revisions[i].kind),
            _ => span.color,
        },
        ..span
    }
}

/// The byte ranges of tracked changes.
pub open spec fn revision_ranges(revisions: Seq<Revision>) -> Seq<(u32, u32)> {
    revisions.map_values(|r: Revision| (r.start, r.end))
}

/// Piece `k` of a span between its cut points.
pub open spec fn piece(span: StyleSpan, cuts: Seq<u32>, k: int) -> StyleSpan {
    StyleSpan { start: cuts[k], end: cuts[k + 1], ..span }
}

/// The number of pieces between cut points.
pub open spec fn piece_count(cuts: Seq<u32>) -> nat {
    if cuts.len() == 0 {
        0
    } else {
        (cuts.len() - 1) as nat
    }
}

/// A span split at the ends of the tracked changes, with their markup.
pub open spec fn revised(span: StyleSpan, revisions: Seq<Revision>, plain: Color) -> Seq<StyleSpan> {
    let cuts = cuts_of(span, revision_ranges(revisions), revisions.len());
    Seq::new(
        piece_count(cuts),
        |k: int| marked(piece(span, cuts, k), revisions, plain),
    )
}

/// The first `n` spans with the markup of tracked changes.
pub open spec fn revision_overlay(
    spans: Seq<StyleSpan>,
    revisions: Seq<Revision>,
    plain: Color,
    n: nat,
) -> Seq<StyleSpan>
    decreases n,
{
    if n == 0 {
        Seq::empty()
    } else {
        revision_overlay(spans, revisions, plain, (n - 1) as nat) + revised(
            spans[n - 1],
            revisions,
            plain,
        )
    }
}

proof fn lemma_same_covered(a: Seq<Revision>, b: Seq<Revision>, span: StyleSpan, kind: RevisionKind)
    requires
        a.len() == b.len(),
        forall|i: int| 0 <= i < a.len() ==> same_mark(#[trigger] a[i], b[i]),
    ensures
        covered_by(a, span, kind) == covered_by(b, span, kind),
{
    if covered_by(a, span, kind) {
        let i = choose|i: int|
            0 <= i < a.len() && covers_span(#[trigger] a[i], span) && a[i].kind == kind;
        assert(same_mark(a[i], b[i]));
        assert(covers_span(b[i], span));
    }
    if covered_by(b, span, kind) {
        let i = choose|i: int|
            0 <= i < b.len() && covers_span(#[trigger] b[i], span) && b[i].kind == kind;
        assert(same_mark(a[i], b[i]));
        assert(covers_span(a[i], span));
    }
}

proof fn lemma_same_innermost(a: Seq<Revision>, b: Seq<Revision>, span: StyleSpan, from: nat)
    requires
        a.len() == b.len(),
        forall|i: int| 0 <= i < a.len() ==> same_mark(#[trigger] a[i], b[i]),
    ensures
        innermost(a, span, from) == innermost(b, span, from),
    decreases a.len() - from,
{
    if from < a.len() {
        let i = from as int;
        assert(same_mark(a[i], b[i]));
        if is_innermost(a, span, i) {
            assert forall|j: int| 0 <= j < b.len() && covers_span(#[trigger] b[j], span) implies
                !nested_in(b[j], b[i]) by {
                assert(same_mark(a[j], b[j]));
                assert(covers_span(a[j], span));
            }
        }
        if is_innermost(b, span, i) {
            assert forall|j: int| 0 <= j < a.len() && covers_span(#[trigger] a[j], span) implies
                !nested_in(a[j], a[i]) by {
                assert(same_mark(a[j], b[j]));
                assert(covers_span(b[j], span));
            }
        }
        lemma_same_innermost(a, b, span, from + 1);
    }
}

proof fn lemma_same_marked(span: StyleSpan, a: Seq<Revision>, b: Seq<Revision>, plain: Color)
    requires
        a.len() == b.len(),
        forall|i: int| 0 <= i < a.len() ==> same_mark(#[trigger] a[i], b[i]),
    ensures
        marked(span, a, plain) == marked(span, b, plain),
{
    lemma_same_covered(a, b, span, RevisionKind::Insert);
    lemma_same_covered(a, b, span, RevisionKind::Delete);
    lemma_same_innermost(a, b, span, 0);
    lemma_innermost_is(a, span, 0);
    if let Some(i) = innermost(a, span, 0) {
        assert(same_mark(a[i], b[i]));
    }
}

/// What is found as innermost is innermost, and nothing before it is.
proof fn lemma_innermost_is(revisions: Seq<Revision>, span: StyleSpan, from: nat)
    ensures
        match innermost(revisions, span, from) {
            Some(i) => from <= i && is_innermost(revisions, span, i) && forall|j: int|
                from <= j < i ==> !#[trigger] is_innermost(revisions, span, j),
            None => forall|j: int| from <= j ==> !#[trigger] is_innermost(revisions, span, j),
        },
    decreases revisions.len() - from,
{
    if from < revisions.len() && !is_innermost(revisions, span, from as int) {
        lemma_innermost_is(revisions, span, from + 1);
    }
}

/// The markup of tracked changes depends on where they stand and of which kind
/// they are, not on who made them and when.
pub proof fn law_markup_needs_only_the_marks(
    spans: Seq<StyleSpan>,
    a: Seq<Revision>,
    b: Seq<Revision>,
    plain: Color,
    n: nat,
)
    requires
        n <= spans.len(),
        a.len() == b.len(),
        forall|i: int| 0 <= i < a.len() ==> same_mark(#[trigger] a[i], b[i]),
    ensures
        revision_overlay(spans, a, plain, n) == revision_overlay(spans, b, plain, n),
    decreases n,
{
    if n > 0 {
        law_markup_needs_only_the_marks(spans, a, b, plain, (n - 1) as nat);
        let span = spans[n - 1];
        assert forall|i: int| 0 <= i < a.len() implies #[trigger] revision_ranges(a)[i]
            == revision_ranges(b)[i] by {
            assert(same_mark(a[i], b[i]));
        }
        assert(revision_ranges(a) =~= revision_ranges(b));
        let cuts = cuts_of(span, revision_ranges(a), a.len());
        assert forall|k: int| 0 <= k < piece_count(cuts) implies #[trigger] revised(span, a, plain)[k]
            == revised(span, b, plain)[k] by {
            lemma_same_marked(piece(span, cuts, k), a, b, plain);
        }
        assert(revised(span, a, plain) =~= revised(span, b, plain));
    }
}

fn check_covers(r: &Revision, span: &StyleSpan) -> (b: bool)
    ensures
        b == covers_span(*r, *span),
{
    r.start <= span.start && r.end >= span.end
}

fn check_innermost(revisions: &Vec<Revision>, span: &StyleSpan, i: usize) -> (b: bool)
    requires
        i < revisions@.len(),
    ensures
        b == is_innermost(revisions@, *span, i as int),
{
    if !check_covers(&revisions[i], span) {
        return false;
    }
    let (lo, hi): (u32, u32) = (revisions[i].start, revisions[i].end);
    let mut j: usize = 0;
    while j < revisions.len()
        invariant
            j <= revisions@.len(),
            i < revisions@.len(),
            lo == revisions@[i as int].start,
            hi == revisions@[i as int].end,
            forall|k: int|
                0 <= k < j && covers_span(#[trigger] revisions@[k], *span) ==> !nested_in(
                    revisions@[k],
                    revisions@[i as int],
                ),
        decreases revisions.len() - j,
    {
        let (s, e): (u32, u32) = (revisions[j].start, revisions[j].end);
        if check_covers(&revisions[j], span) && lo <= s && e <= hi && (s != lo || e != hi) {
            assert(nested_in(revisions@[j as int], revisions@[i as int]));
            return false;
        }
        j += 1;
    }
    true
}

fn mark_piece(span: StyleSpan, revisions: &Vec<Revision>, plain: Color) -> (r: StyleSpan)
    ensures
        r == marked(span, revisions@, plain),
{
    let mut s: StyleSpan = span;
    let mut n: usize = 0;
    while n < revisions.len()
        invariant
            n <= revisions@.len(),
            s == (StyleSpan { underline: s.underline, strike: s.strike, ..span }),
            s.underline == (if covered_by(revisions@.take(n as int), span, RevisionKind::Insert) {
                UnderlineStyle::Single
            } else {
                span.underline
            }),
            s.strike == (span.strike || covered_by(
                revisions@.take(n as int),
                span,
                RevisionKind::Delete,
            )),
        decreases revisions.len() - n,
    {
        proof {
            lemma_covered_push(revisions@, span, n as nat, RevisionKind::Insert);
            lemma_covered_push(revisions@, span, n as nat, RevisionKind::Delete);
        }
        if check_covers(&revisions[n], &span) {
            match revisions[n].kind {
                RevisionKind::Insert => {
                    s.underline = UnderlineStyle::Single;
                },
                RevisionKind::Delete => {
                    s.strike = true;
                },
            }
        }
        n += 1;
    }
    assert(revisions@.take(n as int) =~= revisions@);
    if span.color == plain {
        let mut i: usize = 0;
        while i < revisions.len() && !check_innermost(revisions, &span, i)
            invariant
                i <= revisions@.len(),
                innermost(revisions@, span, 0) == innermost(revisions@, span, i as nat),
            decreases revisions.len() - i,
        {
            i += 1;
        }
        if i < revisions.len() {
            s.color = match revisions[i].kind {
                RevisionKind::Insert => Color { r: 0, g: 0x80, b: 0, a: 0xFF },
                RevisionKind::Delete => Color { r: 0xCC, g: 0, b: 0, a: 0xFF },
            };
        }
    }
    s
}

proof fn lemma_covered_push(revisions: Seq<Revision>, span: StyleSpan, n: nat, kind: RevisionKind)
    requires
        n < revisions.len(),
    ensures
        covered_by(revisions.take(n as int + 1), span, kind) == (covered_by(
            revisions.take(n as int),
            span,
            kind,
        ) || (covers_span(revisions[n as int], span) && revisions[n as int].kind == kind)),
{
    let (now, next) = (revisions.take(n as int), revisions.take(n as int + 1));
    if covered_by(now, span, kind) {
        let i = choose|i: int|
            0 <= i < now.len() && covers_span(#[trigger] now[i], span) && now[i].kind == kind;
        assert(next[i] == now[i]);
    }
    if covers_span(revisions[n as int], span) && revisions[n as int].kind == kind {
        assert(next[n as int] == revisions[n as int]);
    }
    if covered_by(next, span, kind) {
        let i = choose|i: int|
            0 <= i < next.len() && covers_span(#[trigger] next[i], span) && next[i].kind == kind;
        if i < n {
            assert(now[i] == next[i]);
        }
    }
}

/// Among the tracked changes that cover a span there is an innermost one.
proof fn lemma_some_innermost(revisions: Seq<Revision>, span: StyleSpan, i: int)
    requires
        0 <= i < revisions.len(),
        covers_span(revisions[i], span),
        span.start < span.end,
    ensures
        exists|k: int| #[trigger] is_innermost(revisions, span, k),
    decreases revisions[i].end - revisions[i].start,
{
    if !is_innermost(revisions, span, i) {
        let j = choose|j: int|
            0 <= j < revisions.len() && covers_span(#[trigger] revisions[j], span) && nested_in(
                revisions[j],
                revisions[i],
            );
        lemma_some_innermost(revisions, span, j);
    }
}

/// Where tracked changes nest, the innermost one gives the colour, in whichever
/// order they are listed, and the lines of all of them add up.
pub proof fn law_innermost_change_gives_the_colour(
    span: StyleSpan,
    revisions: Seq<Revision>,
    plain: Color,
    k: int,
)
    requires
        0 <= k < revisions.len(),
        covers_span(revisions[k], span),
        forall|j: int|
            0 <= j < revisions.len() && j != k && covers_span(#[trigger] revisions[j], span)
                ==> nested_in(revisions[k], revisions[j]),
    ensures
        ({
            let m = marked(span, revisions, plain);
            &&& span.color == plain ==> m.color == mark_color(revisions[k].kind)
            &&& forall|j: int|
                0 <= j < revisions.len() && covers_span(#[trigger] revisions[j], span) ==> (
                match revisions[j].kind {
                    RevisionKind::Insert => m.underline == UnderlineStyle::Single,
                    RevisionKind::Delete => m.strike,
                })
        }),
{
    assert(is_innermost(revisions, span, k));
    lemma_innermost_is(revisions, span, 0);
    let i = innermost(revisions, span, 0)->0;
    if i != k {
        assert(covers_span(revisions[i], span));
        assert(nested_in(revisions[k], revisions[i]));
    }
}

/// Text inside a tracked change has the colour of a change that covers it, and of
/// none that has another nested in it. Text with a colour of its own, and text
/// outside the changes, keeps its look.
pub proof fn law_markup_colours_covered_text_only(
    span: StyleSpan,
    revisions: Seq<Revision>,
    plain: Color,
)
    requires
        span.start < span.end,
    ensures
        ({
            let m = marked(span, revisions, plain);
            let covered = exists|i: int|
                0 <= i < revisions.len() && covers_span(#[trigger] revisions[i], span);
            &&& span.color != plain ==> m.color == span.color
            &&& !covered ==> m == span
            &&& covered && span.color == plain ==> exists|i: int| #[trigger]
                is_innermost(revisions, span, i) && m.color == mark_color(revisions[i].kind)
        }),
{
    lemma_innermost_is(revisions, span, 0);
    let covered = exists|i: int|
        0 <= i < revisions.len() && covers_span(#[trigger] revisions[i], span);
    if covered {
        let i = choose|i: int|
            0 <= i < revisions.len() && covers_span(#[trigger] revisions[i], span);
        lemma_some_innermost(revisions, span, i);
    }
}

/// Lay the markup of tracked changes over resolved spans. A span is split
/// where a change begins or ends. Where changes nest, their lines add up and the
/// innermost gives the colour; text with a colour of its own keeps it.
pub fn apply_revision_overlay(
    spans: Vec<StyleSpan>,
    revisions: &Vec<Revision>,
    default_color: Color,
) -> (r: Vec<StyleSpan>)
    ensures
        revisions@.len() == 0 ==> r@ == spans@,
        revisions@.len() > 0 ==> r@ == revision_overlay(
            spans@,
            revisions@,
            default_color,
            spans@.len(),
        ),
{
    if revisions.len() == 0 {
        return spans;
    }
    let mut ranges: Vec<(u32, u32)> = Vec::new();
    let mut i: usize = 0;
    while i < revisions.len()
        invariant
            i <= revisions@.len(),
            ranges@ =~= revision_ranges(revisions@).take(i as int),
        decreases revisions.len() - i,
    {
        ranges.push((revisions[i].start, revisions[i].end));
        i += 1;
    }
    assert(ranges@ =~= revision_ranges(revisions@));
    let mut out: Vec<StyleSpan> = Vec::new();
    let mut n: usize = 0;
    while n < spans.len()
        invariant
            n <= spans@.len(),
            ranges@ == revision_ranges(revisions@),
            out@ == revision_overlay(spans@, revisions@, default_color, n as nat),
        decreases spans.len() - n,
    {
        let span = spans[n];
        let cuts = span_cuts(&span, &ranges);
        let ghost before = out@;
        let ghost pieces = revised(span, revisions@, default_color);
        let count: usize = if cuts.len() == 0 {
            0
        } else {
            cuts.len() - 1
        };
        let mut k: usize = 0;
        assert(out@ =~= before + pieces.take(0));
        while k < count
            invariant
                k <= count == piece_count(cuts@),
                cuts@ == cuts_of(span, revision_ranges(revisions@), revisions@.len()),
                pieces == revised(span, revisions@, default_color),
                out@ == before + pieces.take(k as int),
            decreases count - k,
        {
            let sub = StyleSpan { start: cuts[k], end: cuts[k + 1], ..span };
            out.push(mark_piece(sub, revisions, default_color));
            k += 1;
            assert(out@ =~= before + pieces.take(k as int));
        }
        assert(pieces.take(k as int) =~= pieces);
        n += 1;
    }
    out
}

/// Some of the first `n` links covers the range.
pub open spec fn linked(links: Seq<Hyperlink>, start: u32, end: u32) -> bool {
    exists|i: int|
        0 <= i < links.len() && (#[trigger] links[i]).start <= start && links[i].end >= end
}

/// A span with the look of a hyperlink, when a link covers it.
pub open spec fn link_styled(span: StyleSpan, links: Seq<Hyperlink>, plain: Color) -> StyleSpan {
    if linked(links, span.start, span.end) {
        StyleSpan {
            underline: UnderlineStyle::Single,
            color: if span.color == plain {
                link_color()
            } else {
                span.color
            },
            ..span
        }
    } else {
        span
    }
}

/// The byte ranges of links.
pub open spec fn link_ranges(links: Seq<Hyperlink>) -> Seq<(u32, u32)> {
    links.map_values(|l: Hyperlink| (l.start, l.end))
}

/// A span split at the ends of the links, with their look.
pub open spec fn link_split(span: StyleSpan, links: Seq<Hyperlink>, plain: Color) -> Seq<StyleSpan> {
    let cuts = cuts_of(span, link_ranges(links), links.len());
    Seq::new(piece_count(cuts), |k: int| link_styled(piece(span, cuts, k), links, plain))
}

/// The first `n` spans with the look of hyperlinks.
pub open spec fn link_overlay(
    spans: Seq<StyleSpan>,
    links: Seq<Hyperlink>,
    plain: Color,
    n: nat,
) -> Seq<StyleSpan>
    decreases n,
{
    if n == 0 {
        Seq::empty()
    } else {
        link_overlay(spans, links, plain, (n - 1) as nat) + link_split(spans[n - 1], links, plain)
    }
}

fn is_linked(links: &Vec<Hyperlink>, start: u32, end: u32) -> (r: bool)
    ensures
        r == linked(links@, start, end),
{
    let mut i: usize = 0;
    while i < links.len()
        invariant
            i <= links@.len(),
            forall|j: int|
                0 <= j < i ==> !((#[trigger] links@[j]).start <= start && links@[j].end >= end),
        decreases links.len() - i,
    {
        if links[i].start <= start && links[i].end >= end {
            return true;
        }
        i += 1;
    }
    false
}

/// Lay the look of hyperlinks over resolved spans: an underline, and the link
/// colour unless the text has a colour of its own.
pub fn apply_hyperlink_overlay(
    spans: Vec<StyleSpan>,
    hyperlinks: &Vec<Hyperlink>,
    default_color: Color,
) -> (r: Vec<StyleSpan>)
    ensures
        hyperlinks@.len() == 0 ==> r@ == spans@,
        hyperlinks@.len() > 0 ==> r@ == link_overlay(
            spans@,
            hyperlinks@,
            default_color,
            spans@.len(),
        ),
{
    if hyperlinks.len() == 0 {
        return spans;
    }
    let mut ranges: Vec<(u32, u32)> = Vec::new();
    let mut i: usize = 0;
    while i < hyperlinks.len()
        invariant
            i <= hyperlinks@.len(),
            ranges@ =~= link_ranges(hyperlinks@).take(i as int),
        decreases hyperlinks.len() - i,
    {
        ranges.push((hyperlinks[i].start, hyperlinks[i].end));
        i += 1;
    }
    assert(ranges@ =~= link_ranges(hyperlinks@));
    let mut out: Vec<StyleSpan> = Vec::new();
    let mut n: usize = 0;
    while n < spans.len()
        invariant
            n <= spans@.len(),
            ranges@ == link_ranges(hyperlinks@),
            out@ == link_overlay(spans@, hyperlinks@, default_color, n as nat),
        decreases spans.len() - n,
    {
        let span = spans[n];
        let cuts = span_cuts(&span, &ranges);
        let ghost before = out@;
        let ghost pieces = link_split(span, hyperlinks@, default_color);
        let count: usize = if cuts.len() == 0 {
            0
        } else {
            cuts.len() - 1
        };
        let mut k: usize = 0;
        assert(out@ =~= before + pieces.take(0));
        while k < count
            invariant
                k <= count == piece_count(cuts@),
                cuts@ == cuts_of(span, link_ranges(hyperlinks@), hyperlinks@.len()),
                pieces == link_split(span, hyperlinks@, default_color),
                out@ == before + pieces.take(k as int),
            decreases count - k,
        {
            let mut sub = StyleSpan { start: cuts[k], end: cuts[k + 1], ..span };
            if is_linked(hyperlinks, sub.start, sub.end) {
                sub.underline = UnderlineStyle::Single;
                if sub.color == default_color {
                    sub.color = Color { r: 0x05, g: 0x63, b: 0xC1, a: 0xFF };
                }
            }
            out.push(sub);
            k += 1;
            assert(out@ =~= before + pieces.take(k as int));
        }
        assert(pieces.take(k as int) =~= pieces);
        n += 1;
    }
    out
}

/// Increasing cut points from `lo` to `hi`.
pub open spec fn cuts_ok(cuts: Seq<u32>, lo: u32, hi: u32) -> bool {
    &&& cuts.len() >= 1
    &&& cuts[0] == lo
    &&& cuts.last() == hi
    &&& forall|i: int, j: int| 0 <= i < j < cuts.len() ==> cuts[i] < cuts[j]
}

proof fn lemma_with_cut(cuts: Seq<u32>, lo: u32, hi: u32, x: u32)
    requires
        cuts_ok(cuts, lo, hi),
        lo <= x <= hi,
    ensures
        cuts_ok(with_cut(cuts, x), lo, hi),
        with_cut(cuts, x).contains(x),
{
    lemma_below_splits(cuts, x);
    let k = below(cuts, x) as int;
    let out = with_cut(cuts, x);
    if k < cuts.len() && cuts[k] == x {
        assert(out[k] == x);
    } else {
        assert(k > 0);
        assert(out[k] == x);
        if k == cuts.len() {
            assert(cuts.last() < x);
        }
        assert forall|i: int, j: int| 0 <= i < j < out.len() implies out[i] < out[j] by {
            if j < k {
            } else if i >= k {
                if i > k {
                    assert(cuts[i - 1] < cuts[j - 1]);
                } else {
                    assert(cuts[j - 1] >= cuts[k]);
                }
            } else {
                assert(cuts[i] < x);
                if j > k {
                    assert(cuts[j - 1] >= cuts[k]);
                }
            }
        }
    }
}

proof fn lemma_below_splits(cuts: Seq<u32>, x: u32)
    ensures
        below(cuts, x) <= cuts.len(),
        forall|i: int| 0 <= i < below(cuts, x) ==> cuts[i] < x,
        below(cuts, x) < cuts.len() ==> cuts[below(cuts, x) as int] >= x,
    decreases cuts.len(),
{
    if cuts.len() > 0 && cuts[0] < x {
        let rest = cuts.drop_first();
        lemma_below_splits(rest, x);
        assert forall|i: int| 0 <= i < below(cuts, x) implies cuts[i] < x by {
            if i > 0 {
                assert(rest[i - 1] < x);
            }
        }
    }
}

proof fn lemma_cuts_of(span: StyleSpan, ranges: Seq<(u32, u32)>, n: nat)
    requires
        span.start < span.end,
        n <= ranges.len(),
    ensures
        cuts_ok(cuts_of(span, ranges, n), span.start, span.end),
        cuts_of(span, ranges, n).len() >= 2,
    decreases n,
{
    if n == 0 {
        let base = seq![span.start];
        assert(below(base, span.end) == 1) by {
            assert(base.drop_first() =~= Seq::<u32>::empty());
            assert(below(base.drop_first(), span.end) == 0);
        }
        assert(with_cut(base, span.end) =~= seq![span.start, span.end]);
    } else {
        lemma_cuts_of(span, ranges, (n - 1) as nat);
        let cuts = cuts_of(span, ranges, (n - 1) as nat);
        let (s, e) = ranges[n - 1];
        if e > span.start && s < span.end {
            let x = if s >= span.start {
                s
            } else {
                span.start
            };
            let y = if e <= span.end {
                e
            } else {
                span.end
            };
            lemma_with_cut(cuts, span.start, span.end, x);
            lemma_with_cut(with_cut(cuts, x), span.start, span.end, y);
            assert(cuts_of(span, ranges, n).len() >= 2) by {
                let c = cuts_of(span, ranges, n);
                assert(c[0] != c.last());
            }
        }
    }
}

/// Every span has some text.
pub open spec fn all_nonempty(s: Seq<StyleSpan>) -> bool {
    forall|i: int| 0 <= i < s.len() ==> (#[trigger] s[i]).start < s[i].end
}

proof fn lemma_pieces_tile(out: Seq<StyleSpan>, cuts: Seq<u32>, lo: u32, hi: u32)
    requires
        cuts_ok(cuts, lo, hi),
        cuts.len() >= 2,
        out.len() == cuts.len() - 1,
        forall|k: int|
            0 <= k < out.len() ==> (#[trigger] out[k]).start == cuts[k] && out[k].end == cuts[k + 1],
    ensures
        tiles(out, lo as int, hi as int),
        all_nonempty(out),
{
    assert forall|k: int| 0 <= k < out.len() implies (#[trigger] out[k]).start < out[k].end by {
        assert(cuts[k] < cuts[k + 1]);
    }
}

/// Laying tracked changes over spans keeps their coverage: the result tiles
/// the same range, without empty spans.
pub proof fn law_revision_overlay_tiles(
    spans: Seq<StyleSpan>,
    revisions: Seq<Revision>,
    plain: Color,
    n: nat,
    lo: int,
)
    requires
        n <= spans.len(),
        all_nonempty(spans),
        tiles(spans, lo, if spans.len() == 0 { lo } else { spans.last().end as int }),
    ensures
        tiles(
            revision_overlay(spans, revisions, plain, n),
            lo,
            if n == 0 {
                lo
            } else {
                spans[n - 1].end as int
            },
        ),
        all_nonempty(revision_overlay(spans, revisions, plain, n)),
    decreases n,
{
    if n > 0 {
        let m = (n - 1) as nat;
        law_revision_overlay_tiles(spans, revisions, plain, m, lo);
        let span = spans[m as int];
        let ranges = revision_ranges(revisions);
        let cuts = cuts_of(span, ranges, revisions.len());
        lemma_cuts_of(span, ranges, revisions.len());
        let out = revised(span, revisions, plain);
        assert forall|k: int| 0 <= k < out.len() implies (#[trigger] out[k]).start == cuts[k]
            && out[k].end == cuts[k + 1] by {
        }
        lemma_pieces_tile(out, cuts, span.start, span.end);
        let head = revision_overlay(spans, revisions, plain, m);
        if m > 0 {
            assert(spans[m - 1].end == spans[m as int].start);
        }
        lemma_tiles_concat(head, out, lo, span.start as int, span.end as int);
        let all = head + out;
        assert forall|i: int| 0 <= i < all.len() implies (#[trigger] all[i]).start < all[i].end by {
            if i < head.len() {
                assert(all[i] == head[i]);
            } else {
                assert(all[i] == out[i - head.len()]);
            }
        }
    }
}

/// Laying hyperlinks over spans keeps their coverage: the result tiles the
/// same range, without empty spans.
pub proof fn law_link_overlay_tiles(
    spans: Seq<StyleSpan>,
    links: Seq<Hyperlink>,
    plain: Color,
    n: nat,
    lo: int,
)
    requires
        n <= spans.len(),
        all_nonempty(spans),
        tiles(spans, lo, if spans.len() == 0 { lo } else { spans.last().end as int }),
    ensures
        tiles(
            link_overlay(spans, links, plain, n),
            lo,
            if n == 0 {
                lo
            } else {
                spans[n - 1].end as int
            },
        ),
        all_nonempty(link_overlay(spans, links, plain, n)),
    decreases n,
{
    if n > 0 {
        let m = (n - 1) as nat;
        law_link_overlay_tiles(spans, links, plain, m, lo);
        let span = spans[m as int];
        let ranges = link_ranges(links);
        let cuts = cuts_of(span, ranges, links.len());
        lemma_cuts_of(span, ranges, links.len());
        let out = link_split(span, links, plain);
        lemma_pieces_tile(out, cuts, span.start, span.end);
        let head = link_overlay(spans, links, plain, m);
        if m > 0 {
            assert(spans[m - 1].end == spans[m as int].start);
        }
        lemma_tiles_concat(head, out, lo, span.start as int, span.end as int);
        let all = head + out;
        assert forall|i: int| 0 <= i < all.len() implies (#[trigger] all[i]).start < all[i].end by {
            if i < head.len() {
                assert(all[i] == head[i]);
            } else {
                assert(all[i] == out[i - head.len()]);
            }
        }
    }
}

/// Spans moved to make room for `len` bytes at `off`: those after it shift,
/// and one that straddles it is split. The first `n` spans.
pub open spec fn opened_up(spans: Seq<StyleSpan>, off: u32, len: u32, n: nat) -> Seq<StyleSpan>
    decreases n,
{
    if n == 0 {
        Seq::empty()
    } else {
        let s = spans[n - 1];
        let head = opened_up(spans, off, len, (n - 1) as nat);
        if s.end <= off {
            head.push(s)
        } else if s.start >= off {
            head.push(StyleSpan { start: (s.start + len) as u32, end: (s.end + len) as u32, ..s })
        } else {
            head.push(StyleSpan { end: off, ..s }).push(
                StyleSpan { start: (off + len) as u32, end: (s.end + len) as u32, ..s },
            )
        }
    }
}

/// The span of a composition: the style at its place, underlined.
pub open spec fn composition_span(style: SpanStyle, off: u32, len: u32) -> StyleSpan {
    StyleSpan {
        start: off,
        end: (off + len) as u32,
        size: SpanSize::Plain { size: style.font_size },
        color: or_else(style.color, black()),
        bold: or_else(style.bold, false),
        italic: or_else(style.italic, false),
        underline: UnderlineStyle::Single,
        strike: or_else(style.strike, false),
        bg_color: style.bg_color,
        font_family: style.font_family,
        caps_transform: false,
    }
}

/// How many leading spans start at or before `x`.
pub open spec fn at_or_before(spans: Seq<StyleSpan>, x: u32) -> nat
    decreases spans.len(),
{
    if spans.len() == 0 || spans[0].start > x {
        0
    } else {
        1 + at_or_before(spans.drop_first(), x)
    }
}

/// The first `n` spans in order of their starts, equal starts in their given
/// order.
pub open spec fn sorted_by_start(spans: Seq<StyleSpan>, n: nat) -> Seq<StyleSpan>
    decreases n,
{
    if n == 0 {
        Seq::empty()
    } else {
        let head = sorted_by_start(spans, (n - 1) as nat);
        head.insert(at_or_before(head, spans[n - 1].start) as int, spans[n - 1])
    }
}

/// The spans of a paragraph with a composition of `len` bytes at `off`.
pub open spec fn composed_spans(text: Seq<char>, runs: Seq<StyleRun>, off: u32, len: u32) -> Seq<
    StyleSpan,
> {
    let base = style_spans(text, runs, black());
    let all = opened_up(base, off, len, base.len()).push(
        composition_span(style_in(runs, off), off, len),
    );
    sorted_by_start(all, all.len())
}

/// Every span has room to shift by `len`.
pub open spec fn can_shift(spans: Seq<StyleSpan>, len: u32) -> bool {
    forall|i: int|
        0 <= i < spans.len() ==> (#[trigger] spans[i]).start + len <= u32::MAX && spans[i].end + len
            <= u32::MAX
}

proof fn lemma_at_or_before(spans: Seq<StyleSpan>, x: u32, k: int)
    requires
        0 <= k <= spans.len(),
        forall|i: int| 0 <= i < k ==> (#[trigger] spans[i]).start <= x,
        k < spans.len() ==> spans[k].start > x,
    ensures
        at_or_before(spans, x) == k,
    decreases k,
{
    if k > 0 {
        assert(spans[0].start <= x);
        let rest = spans.drop_first();
        assert forall|i: int| 0 <= i < k - 1 implies (#[trigger] rest[i]).start <= x by {
            assert(spans[i + 1].start <= x);
        }
        lemma_at_or_before(rest, x, k - 1);
    }
}

proof fn lemma_at_or_before_len(spans: Seq<StyleSpan>, x: u32)
    ensures
        at_or_before(spans, x) <= spans.len(),
    decreases spans.len(),
{
    if spans.len() > 0 {
        lemma_at_or_before_len(spans.drop_first(), x);
    }
}

fn sort_by_start(spans: &Vec<StyleSpan>) -> (r: Vec<StyleSpan>)
    ensures
        r@ == sorted_by_start(spans@, spans@.len()),
{
    let mut out: Vec<StyleSpan> = Vec::new();
    let mut n: usize = 0;
    while n < spans.len()
        invariant
            n <= spans@.len(),
            out@ == sorted_by_start(spans@, n as nat),
        decreases spans.len() - n,
    {
        let s = spans[n];
        let mut k: usize = 0;
        while k < out.len() && out[k].start <= s.start
            invariant
                k <= out@.len(),
                forall|i: int| 0 <= i < k ==> (#[trigger] out@[i]).start <= s.start,
            decreases out.len() - k,
        {
            k += 1;
        }
        proof {
            lemma_at_or_before(out@, s.start, k as int);
        }
        out.insert(k, s);
        n += 1;
    }
    out
}

/// The spans of a paragraph with an input-method composition of `comp_len`
/// bytes at `off`: committed spans shift and split to make room, and the
/// composition is underlined in the style of the text it is typed into.
pub fn composition_layout_spans(para: &Paragraph, off: u32, comp_len: u32) -> (r: Vec<StyleSpan>)
    requires
        all_small_caps_ok(para.text@, para.spans@),
        off + comp_len <= u32::MAX,
        can_shift(style_spans(para.text@, para.spans@, black()), comp_len),
    ensures
        r@ == composed_spans(para.text@, para.spans@, off, comp_len),
{
    let base = build_style_spans(para, Color { r: 0, g: 0, b: 0, a: 255 });
    let mut out: Vec<StyleSpan> = Vec::new();
    let mut n: usize = 0;
    while n < base.len()
        invariant
            n <= base@.len(),
            off + comp_len <= u32::MAX,
            can_shift(base@, comp_len),
            out@ == opened_up(base@, off, comp_len, n as nat),
        decreases base.len() - n,
    {
        let s = base[n];
        assert(base@[n as int].end + comp_len <= u32::MAX);
        if s.end <= off {
            out.push(s);
        } else if s.start >= off {
            out.push(StyleSpan { start: s.start + comp_len, end: s.end + comp_len, ..s });
        } else {
            out.push(StyleSpan { end: off, ..s });
            out.push(StyleSpan { start: off + comp_len, end: s.end + comp_len, ..s });
        }
        n += 1;
    }
    let st = para.style_at(off);
    out.push(
        StyleSpan {
            start: off,
            end: off + comp_len,
            size: SpanSize::Plain { size: st.font_size },
            color: or_default(st.color, Color { r: 0, g: 0, b: 0, a: 255 }),
            bold: or_default(st.bold, false),
            italic: or_default(st.italic, false),
            underline: UnderlineStyle::Single,
            strike: or_default(st.strike, false),
            bg_color: st.bg_color,
            font_family: st.font_family,
            caps_transform: false,
        },
    );
    sort_by_start(&out)
}

/// Spans in order of their starts.
pub open spec fn in_order(s: Seq<StyleSpan>) -> bool {
    forall|i: int, j: int| 0 <= i < j < s.len() ==> (#[trigger] s[i]).start <= (#[trigger] s[j]).start
}

/// Spans with a composition are in order of their starts, and none is lost.
pub proof fn law_composed_spans_in_order(spans: Seq<StyleSpan>, n: nat)
    requires
        n <= spans.len(),
    ensures
        in_order(sorted_by_start(spans, n)),
        sorted_by_start(spans, n).to_multiset() == spans.take(n as int).to_multiset(),
    decreases n,
{
    broadcast use vstd::seq_lib::group_to_multiset_ensures;

    if n == 0 {
        assert(spans.take(0) =~= Seq::<StyleSpan>::empty());
        assert(sorted_by_start(spans, 0) =~= Seq::<StyleSpan>::empty());
    } else {
        let m = (n - 1) as nat;
        law_composed_spans_in_order(spans, m);
        let head = sorted_by_start(spans, m);
        let x = spans[n - 1];
        lemma_at_or_before_splits(head, x.start);
        let k = at_or_before(head, x.start) as int;
        let out = head.insert(k, x);
        assert forall|i: int, j: int| 0 <= i < j < out.len() implies (#[trigger] out[i]).start <= (
        #[trigger] out[j]).start by {
            if j < k {
                assert(out[i] == head[i] && out[j] == head[j]);
            } else if i >= k {
                if i == k {
                    assert(head[k].start > x.start);
                    if j - 1 > k {
                        assert(head[k].start <= head[j - 1].start);
                    }
                } else {
                    assert(head[i - 1].start <= head[j - 1].start);
                }
            } else {
                assert(head[i].start <= x.start);
                if j > k {
                    assert(head[i].start <= head[j - 1].start);
                }
            }
        }
        head.insert_ensures(k, x);
        assert(spans.take(n as int) =~= spans.take(m as int).push(x));
        vstd::seq_lib::to_multiset_insert(head, k, x);
    }
}

proof fn lemma_at_or_before_splits(spans: Seq<StyleSpan>, x: u32)
    ensures
        at_or_before(spans, x) <= spans.len(),
        forall|i: int|
            0 <= i < at_or_before(spans, x) ==> (#[trigger] spans[i]).start <= x,
        at_or_before(spans, x) < spans.len() ==> spans[at_or_before(spans, x) as int].start > x,
    decreases spans.len(),
{
    if spans.len() > 0 && spans[0].start <= x {
        let rest = spans.drop_first();
        lemma_at_or_before_splits(rest, x);
        assert forall|i: int| 0 <= i < at_or_before(spans, x) implies (#[trigger] spans[i]).start
            <= x by {
            if i > 0 {
                assert(rest[i - 1].start <= x);
            }
        }
    }
}

/// The identifier under which a family's font is loaded.
pub open spec fn family_id(family: FontFamily) -> Seq<char> {
    match family {
        FontFamily::Amiri => "amiri"@,
        FontFamily::LiberationSans => "liberation"@,
        FontFamily::NotoNaskhArabic => "noto-naskh"@,
    }
}

/// The identifier under which a family's font is loaded.
pub fn font_family_id(family: FontFamily) -> (r: &'static str)
    ensures
        r@ == family_id(family),
{
    match family {
        FontFamily::Amiri => "amiri",
        FontFamily::LiberationSans => "liberation",
        FontFamily::NotoNaskhArabic => "noto-naskh",
    }
}

/// The family with a given font identifier.
pub fn parse_font_family(id: &str) -> (r: Option<FontFamily>)
    ensures
        match r {
            Some(f) => family_id(f) == id@,
            None => forall|f: FontFamily| family_id(f) != id@,
        },
{
    proof {
        reveal_strlit("amiri");
        reveal_strlit("liberation");
        reveal_strlit("noto-naskh");
    }
    if same_text(id, "amiri") {
        Some(FontFamily::Amiri)
    } else if same_text(id, "liberation") {
        Some(FontFamily::LiberationSans)
    } else if same_text(id, "noto-naskh") {
        Some(FontFamily::NotoNaskhArabic)
    } else {
        None
    }
}

/// Two families never share a font identifier.
pub proof fn law_family_ids_distinct(a: FontFamily, b: FontFamily)
    requires
        family_id(a) == family_id(b),
    ensures
        a == b,
{
    reveal_strlit("amiri");
    reveal_strlit("liberation");
    reveal_strlit("noto-naskh");
    assert("amiri"@.len() == 5 && "liberation"@.len() == 10 && "noto-naskh"@.len() == 10);
    assert("liberation"@[0] == 'l' && "noto-naskh"@[0] == 'n');
}

/// The spans of a text shift by as much as keeps the text's end in range.
pub proof fn law_spans_of_a_text_can_shift(
    text: Seq<char>,
    runs: Seq<StyleRun>,
    color: Color,
    len: u32,
)
    requires
        runs_ok(text, runs),
        text_len(text) + len <= u32::MAX,
    ensures
        can_shift(style_spans(text, runs, color), len),
{
    law_style_spans_tile_the_text(text, runs, color);
    let spans = style_spans(text, runs, color);
    assert forall|i: int| 0 <= i < spans.len() implies (#[trigger] spans[i]).start + len <= u32::MAX
        && spans[i].end + len <= u32::MAX by {
        lemma_tiles_ends_rise(spans, 0, text_len(text) as int, i, spans.len() - 1);
    }
}

/// Ends do not fall along a tiling.
proof fn lemma_tiles_ends_rise(s: Seq<StyleSpan>, lo: int, hi: int, i: int, j: int)
    requires
        tiles(s, lo, hi),
        0 <= i <= j < s.len(),
    ensures
        s[i].end <= s[j].end,
        i < j ==> s[i].end <= s[j].start,
        s[i].start <= s[j].start,
    decreases j - i,
{
    if i < j {
        lemma_tiles_ends_rise(s, lo, hi, i, j - 1);
        assert(s[j - 1].end == s[j].start);
    }
}

/// Where a tiling that makes room for `len` bytes at `off` divides.
#[verifier::rlimit(50)]
proof fn lemma_opened_divides(s: Seq<StyleSpan>, hi: int, off: u32, len: u32, n: nat) -> (k: nat)
    requires
        tiles(s, 0, hi),
        n <= s.len(),
        can_shift(s, len),
        off + len <= u32::MAX,
    ensures
        ({
            let o = opened_up(s, off, len, n);
            let end: int = if n == 0 {
                0
            } else {
                s[n - 1].end as int
            };
            &&& k <= o.len()
            &&& end <= off ==> k == o.len() && tiles(o, 0, end)
            &&& end > off ==> tiles(o.take(k as int), 0, off as int) && tiles(
                o.skip(k as int),
                off + len,
                end + len,
            ) && o.len() > k
        }),
    decreases n,
{
    let o = opened_up(s, off, len, n);
    if n == 0 {
        return 0;
    }
    let m = (n - 1) as nat;
    let p = opened_up(s, off, len, m);
    let k0 = lemma_opened_divides(s, hi, off, len, m);
    let x = s[n - 1];
    let prev: int = if m == 0 {
        0
    } else {
        s[m - 1].end as int
    };
    if m > 0 {
        assert(s[m - 1].end == s[n - 1].start);
    }
    assert(x.start == prev);
    assert(x.start <= x.end);
    if x.end <= off {
        lemma_tiles_concat(p, seq![x], 0, prev, x.end as int);
        assert(o =~= p + seq![x]);
        o.len()
    } else if x.start >= off {
        let y = StyleSpan { start: (x.start + len) as u32, end: (x.end + len) as u32, ..x };
        if prev <= off {
            assert(o.take(p.len() as int) =~= p);
            assert(o.skip(p.len() as int) =~= seq![y]);
            p.len()
        } else {
            lemma_tiles_concat(p.skip(k0 as int), seq![y], off + len, prev + len, x.end + len);
            assert(o.take(k0 as int) =~= p.take(k0 as int));
            assert(o.skip(k0 as int) =~= p.skip(k0 as int) + seq![y]);
            k0
        }
    } else {
        let a = StyleSpan { end: off, ..x };
        let b = StyleSpan { start: (off + len) as u32, end: (x.end + len) as u32, ..x };
        lemma_tiles_concat(p, seq![a], 0, prev, off as int);
        assert(o =~= p + seq![a] + seq![b]);
        assert(o.take(p.len() as int + 1) =~= p + seq![a]);
        assert(o.skip(p.len() as int + 1) =~= seq![b]);
        p.len() + 1
    }
}

/// Spans in order of their starts stay as they are when sorted.
proof fn lemma_sorting_keeps_order(s: Seq<StyleSpan>, n: nat)
    requires
        n <= s.len(),
        in_order(s),
    ensures
        sorted_by_start(s, n) == s.take(n as int),
    decreases n,
{
    if n > 0 {
        let m = (n - 1) as nat;
        lemma_sorting_keeps_order(s, m);
        let head = s.take(m as int);
        assert forall|i: int| 0 <= i < m implies (#[trigger] head[i]).start <= s[n - 1].start by {
            assert(s[i].start <= s[n - 1].start);
        }
        lemma_at_or_before(head, s[n - 1].start, m as int);
        assert(head.insert(m as int, s[n - 1]) =~= s.take(n as int));
    } else {
        assert(s.take(0) =~= Seq::empty());
    }
}

proof fn lemma_sorted_prefix(s: Seq<StyleSpan>, x: StyleSpan, n: nat)
    requires
        n <= s.len(),
    ensures
        sorted_by_start(s.push(x), n) == sorted_by_start(s, n),
    decreases n,
{
    if n > 0 {
        lemma_sorted_prefix(s, x, (n - 1) as nat);
    }
}

/// The spans of a paragraph with a composition cover the text and the
/// composition together, without gaps or overlaps.
#[verifier::rlimit(50)]
pub proof fn law_composed_spans_tile(text: Seq<char>, runs: Seq<StyleRun>, off: u32, len: u32)
    requires
        runs_ok(text, runs),
        off <= text_len(text),
        len > 0,
        text_len(text) + len <= u32::MAX,
    ensures
        tiles(composed_spans(text, runs, off, len), 0, text_len(text) + len),
{
    let base = style_spans(text, runs, black());
    let hi = text_len(text) as int;
    law_style_spans_tile_the_text(text, runs, black());
    assert forall|i: int| 0 <= i < base.len() implies (#[trigger] base[i]).start + len <= u32::MAX
        && base[i].end + len <= u32::MAX by {
        lemma_tiles_ends_rise(base, 0, hi, i, base.len() - 1);
    }
    let n = base.len();
    let o = opened_up(base, off, len, n);
    let k = lemma_opened_divides(base, hi, off, len, n) as int;
    let comp = composition_span(style_in(runs, off), off, len);
    let end: int = if n == 0 {
        0
    } else {
        base[n - 1].end as int
    };
    assert(end == hi);
    let (front, back) = (o.take(k), o.skip(k));
    assert(o =~= front + back);
    if end <= off {
        assert(back =~= Seq::empty());
        assert(front =~= o);
        assert(end == off);
    }
    assert(tiles(front, 0, off as int));
    assert(tiles(back, off + len, hi + len));
    assert forall|i: int, j: int| 0 <= i < j < o.len() implies (#[trigger] o[i]).start <= (
    #[trigger] o[j]).start by {
        if j < k {
            lemma_tiles_ends_rise(front, 0, off as int, i, j);
        } else if i >= k {
            lemma_tiles_ends_rise(back, off + len, hi + len, i - k, j - k);
        } else {
            lemma_tiles_ends_rise(front, 0, off as int, i, k - 1);
            lemma_tiles_ends_rise(back, off + len, hi + len, 0, j - k);
            assert(front[k - 1].end == off);
        }
    }
    lemma_sorting_keeps_order(o, o.len());
    assert(o.take(o.len() as int) =~= o);
    lemma_sorted_prefix(o, comp, o.len());
    assert forall|i: int| 0 <= i < k implies (#[trigger] o[i]).start <= off by {
        lemma_tiles_ends_rise(front, 0, off as int, i, k - 1);
        assert(front[i] == o[i]);
    }
    if k < o.len() {
        assert(o[k] == back[0]);
    }
    lemma_at_or_before(o, off, k);
    let all = composed_spans(text, runs, off, len);
    assert(all =~= front + seq![comp] + back);
    lemma_tiles_concat(front, seq![comp], 0, off as int, off + len);
    lemma_tiles_concat(front + seq![comp], back, 0, off + len, hi + len);
}

/// A span shows a style: each attribute that the style sets, under its own name,
/// and for those that it does not set the plain ones.
pub open spec fn span_shows(span: StyleSpan, style: SpanStyle, color: Color) -> bool {
    &&& span.bold == (style.bold == Some(true))
    &&& span.italic == (style.italic == Some(true))
    &&& span.strike == (style.strike == Some(true))
    &&& style.underline is None ==> span.underline == UnderlineStyle::NoLine
    &&& style.underline matches Some(u) ==> span.underline == u
    &&& style.color is None ==> span.color == color
    &&& style.color matches Some(c) ==> span.color == c
    &&& span.bg_color == style.bg_color
    &&& span.font_family == style.font_family
    &&& span.size matches SpanSize::Run { size, script, .. } && {
        &&& size == style.font_size
        &&& style.vert_align is None ==> script == VertAlign::Baseline
        &&& style.vert_align matches Some(v) ==> script == v
    }
    &&& span.caps_transform == (style.caps == Some(true) || style.small_caps == Some(true))
}

/// Every span that a run is laid out with shows the run's style; without
/// capitals there is one, over the run's bytes.
pub proof fn law_run_is_laid_out_in_its_style(text: Seq<char>, run: StyleRun, color: Color, k: int)
    requires
        0 <= k < caps_spans(text, run.style, run_template(run, color)).len(),
    ensures
        ({
            let spans = caps_spans(text, run.style, run_template(run, color));
            &&& span_shows(spans[k], run.style, color)
            &&& run.style.small_caps != Some(true) || run.style.caps == Some(true) ==> spans.len()
                == 1 && spans[0].start == run.start && spans[0].end == run.end
        }),
{
    let template = run_template(run, color);
    let hi = if template.end <= text_len(text) {
        template.end as int
    } else {
        text_len(text) as int
    };
    if run.style.caps != Some(true) && run.style.small_caps == Some(true) && template.start < hi {
        let chars = text_slice(text, template.start as int, hi);
        lemma_small_pieces_show(
            template,
            chars,
            lowercases(chars),
            template.start as int,
            chars.len(),
            k,
        );
    }
}

proof fn lemma_small_pieces_show(
    template: StyleSpan,
    chars: Seq<char>,
    lower: Seq<bool>,
    lo: int,
    n: nat,
    k: int,
)
    requires
        0 <= k < small_pieces(template, chars, lower, lo, n).len(),
        template.size is Run,
    ensures
        ({
            let s = small_pieces(template, chars, lower, lo, n)[k];
            &&& s.caps_transform
            &&& s.size == with_small(template.size, false) || s.size == with_small(
                template.size,
                true,
            )
            &&& s == (StyleSpan {
                start: s.start,
                end: s.end,
                size: s.size,
                caps_transform: true,
                ..template
            })
        }),
    decreases n,
{
    let head = small_pieces(template, chars, lower, lo, (n - 1) as nat);
    let all = small_pieces(template, chars, lower, lo, n);
    if k < head.len() && !(n >= 2 && lower[n - 2] == lower[n - 1] && k == head.len() - 1) {
        lemma_small_pieces_show(template, chars, lower, lo, (n - 1) as nat, k);
        assert(all[k] == head[k]);
    } else {
        let end = (lo + text_len(chars.take(n as int))) as u32;
        if n >= 2 && lower[n - 2] == lower[n - 1] {
            lemma_some_piece(template, chars, lower, lo, (n - 1) as nat);
            assert(all[k] == small_piece(template, head.last().start, end, lower[n - 1]));
        } else {
            let start = (lo + text_len(chars.take(n - 1))) as u32;
            assert(all[k] == small_piece(template, start, end, lower[n - 1]));
        }
    }
}

proof fn lemma_some_piece(
    template: StyleSpan,
    chars: Seq<char>,
    lower: Seq<bool>,
    lo: int,
    n: nat,
)
    requires
        n >= 1,
    ensures
        small_pieces(template, chars, lower, lo, n).len() >= 1,
    decreases n,
{
    if n >= 2 {
        lemma_some_piece(template, chars, lower, lo, (n - 1) as nat);
    }
}

/// Every run of a paragraph is laid out: the spans of the paragraph hold those
/// of each run, and plain ones for the gaps before, between and after the runs.
pub proof fn law_every_run_is_laid_out(
    text: Seq<char>,
    runs: Seq<StyleRun>,
    color: Color,
    i: int,
    k: int,
)
    requires
        0 <= i < runs.len(),
        0 <= k < caps_spans(text, runs[i].style, run_template(runs[i], color)).len(),
    ensures
        style_spans(text, runs, color).contains(
            caps_spans(text, runs[i].style, run_template(runs[i], color))[k],
        ),
{
    let goal = caps_spans(text, runs[i].style, run_template(runs[i], color))[k];
    lemma_run_spans_listed(text, runs, color, runs.len(), i, k);
    let head = spans_upto(text, runs, color, runs.len());
    let j = choose|j: int| 0 <= j < head.len() && head[j] == goal;
    assert(style_spans(text, runs, color)[j] == goal);
}

proof fn lemma_run_spans_listed(
    text: Seq<char>,
    runs: Seq<StyleRun>,
    color: Color,
    n: nat,
    i: int,
    k: int,
)
    requires
        0 <= i < n <= runs.len(),
        0 <= k < caps_spans(text, runs[i].style, run_template(runs[i], color)).len(),
    ensures
        spans_upto(text, runs, color, n).contains(
            caps_spans(text, runs[i].style, run_template(runs[i], color))[k],
        ),
    decreases n,
{
    let goal = caps_spans(text, runs[i].style, run_template(runs[i], color))[k];
    let run = runs[n - 1];
    let at = cursor(runs, (n - 1) as nat);
    let head = spans_upto(text, runs, color, (n - 1) as nat);
    let gap = if run.start > at {
        seq![gap_span(at, run.start, color)]
    } else {
        Seq::empty()
    };
    let own = caps_spans(text, run.style, run_template(run, color));
    let all = spans_upto(text, runs, color, n);
    assert(all =~= head + gap + own);
    if i < n - 1 {
        lemma_run_spans_listed(text, runs, color, (n - 1) as nat, i, k);
        let j = choose|j: int| 0 <= j < head.len() && head[j] == goal;
        assert(all[j] == head[j]);
    } else {
        assert(all[head.len() + gap.len() + k] == own[k]);
    }
}

/// Text that no run covers is plain: neither bold, italic, underlined nor
/// struck, without a background, in the colour given.
pub proof fn law_gaps_are_plain(start: u32, end: u32, color: Color)
    ensures
        ({
            let s = gap_span(start, end, color);
            &&& s.start == start && s.end == end && s.color == color
            &&& !s.bold && !s.italic && !s.strike && s.underline == UnderlineStyle::NoLine
            &&& s.bg_color is None && s.font_family is None && !s.caps_transform
            &&& s.size == (SpanSize::Plain { size: None })
        }),
{
}

/// Superscripts and subscripts are set at 65 percent of the size and small
/// letters of small capitals at 80, in text large enough that none of it falls to
/// a pixel; a superscript stands 33 percent above the line, a subscript 15 below.
pub proof fn law_sizes_of_scripts(size: Option<FontSize>, em: u32)
    requires
        em >= 640,
    ensures
        set_size(SpanSize::Run { size, script: VertAlign::Baseline, small: false }, em) == em,
        set_size(SpanSize::Run { size, script: VertAlign::Superscript, small: false }, em) == (em
            * 65) / 100,
        set_size(SpanSize::Run { size, script: VertAlign::Subscript, small: false }, em) == (em
            * 65) / 100,
        set_size(SpanSize::Run { size, script: VertAlign::Baseline, small: true }, em) == (em * 80)
            / 100,
        set_shift(SpanSize::Run { size, script: VertAlign::Baseline, small: false }, em) == 0,
        set_shift(SpanSize::Run { size, script: VertAlign::Superscript, small: false }, em) == (em
            * 33) / 100,
        set_shift(SpanSize::Run { size, script: VertAlign::Subscript, small: false }, em) == (em * (
        -15)) / 100,
{
    assert((em * (100 * 100)) / 10000 == em) by (nonlinear_arith);
    assert((em * (65 * 100)) / 10000 == (em * 65) / 100) by (nonlinear_arith)
        requires
            em >= 0,
    ;
    assert((em * (100 * 80)) / 10000 == (em * 80) / 100) by (nonlinear_arith)
        requires
            em >= 0,
    ;
}

/// The markup of tracked changes: what an insertion covers is underlined, what
/// a deletion covers is struck, and all else of its look stays.
pub proof fn law_markup_adds_lines(span: StyleSpan, revisions: Seq<Revision>, plain: Color, i: int)
    requires
        0 <= i < revisions.len(),
    ensures
        ({
            let r = marked(span, revisions, plain);
            let covers = revisions[i].start <= span.start && span.end <= revisions[i].end;
            &&& covers && revisions[i].kind is Insert ==> r.underline == UnderlineStyle::Single
            &&& covers && revisions[i].kind is Delete ==> r.strike
            &&& (forall|j: int|
                0 <= j < revisions.len() ==> !((#[trigger] revisions[j]).start <= span.start
                    && span.end <= revisions[j].end)) ==> r == span
            &&& r.start == span.start && r.end == span.end && r.bold == span.bold && r.italic
                == span.italic && r.size == span.size && r.bg_color == span.bg_color
                && r.font_family == span.font_family && r.caps_transform == span.caps_transform
            &&& span.color != plain ==> r.color == span.color
        }),
{
    let covers = revisions[i].start <= span.start && span.end <= revisions[i].end;
    if covers {
        assert(covers_span(revisions[i], span));
    }
    if forall|j: int|
        0 <= j < revisions.len() ==> !((#[trigger] revisions[j]).start <= span.start && span.end
            <= revisions[j].end) {
        assert(forall|j: int|
            0 <= j < revisions.len() ==> !covers_span(#[trigger] revisions[j], span));
        lemma_no_innermost(revisions, span, 0);
    }
}

proof fn lemma_no_innermost(revisions: Seq<Revision>, span: StyleSpan, from: nat)
    requires
        from <= revisions.len(),
        forall|j: int| 0 <= j < revisions.len() ==> !covers_span(#[trigger] revisions[j], span),
    ensures
        innermost(revisions, span, from) is None,
    decreases revisions.len() - from,
{
    if from < revisions.len() {
        assert(!covers_span(revisions[from as int], span));
        lemma_no_innermost(revisions, span, from + 1);
    }
}

/// What a link covers is underlined, and in the colour of links unless it has
/// one of its own; all else keeps its look.
pub proof fn law_links_look_like_links(span: StyleSpan, links: Seq<Hyperlink>, plain: Color, i: int)
    requires
        0 <= i < links.len(),
    ensures
        ({
            let r = link_styled(span, links, plain);
            &&& links[i].start <= span.start && span.end <= links[i].end ==> {
                &&& r.underline == UnderlineStyle::Single
                &&& span.color == plain ==> r.color == (Color { r: 5, g: 99, b: 193, a: 255 })
                &&& span.color != plain ==> r.color == span.color
            }
            &&& (forall|j: int|
                0 <= j < links.len() ==> !((#[trigger] links[j]).start <= span.start && span.end
                    <= links[j].end)) ==> r == span
            &&& r.start == span.start && r.end == span.end && r.bold == span.bold && r.italic
                == span.italic && r.strike == span.strike && r.size == span.size && r.bg_color
                == span.bg_color && r.font_family == span.font_family
        }),
{
    if links[i].start <= span.start && span.end <= links[i].end {
        assert(linked(links, span.start, span.end));
    }
}

/// No piece of a split span lies across the end of a range: each range covers
/// it whole or lies outside it.
pub proof fn law_pieces_end_where_ranges_end(
    span: StyleSpan,
    ranges: Seq<(u32, u32)>,
    i: int,
    k: int,
)
    requires
        span.start < span.end,
        0 <= i < ranges.len(),
        ranges[i].0 <= ranges[i].1,
        0 <= k,
        k + 1 < cuts_of(span, ranges, ranges.len()).len(),
    ensures
        ({
            let p = piece(span, cuts_of(span, ranges, ranges.len()), k);
            let (s, e) = ranges[i];
            (s <= p.start && p.end <= e) || e <= p.start || p.end <= s
        }),
{
    let n = ranges.len();
    let cuts = cuts_of(span, ranges, n);
    lemma_cuts_of(span, ranges, n);
    let (s, e) = ranges[i];
    assert(span.start <= cuts[k] < cuts[k + 1] <= span.end) by {
        if k > 0 {
            assert(cuts[0] < cuts[k]);
        }
        if k + 1 < cuts.len() - 1 {
            assert(cuts[k + 1] < cuts[cuts.len() - 1]);
        }
    }
    if e > span.start && s < span.end {
        lemma_ends_are_cuts(span, ranges, n, i);
        let x = if s >= span.start {
            s
        } else {
            span.start
        };
        let y = if e <= span.end {
            e
        } else {
            span.end
        };
        let a = choose|a: int| 0 <= a < cuts.len() && cuts[a] == x;
        let b = choose|b: int| 0 <= b < cuts.len() && cuts[b] == y;
        assert(a <= k ==> cuts[a] <= cuts[k]);
        assert(a >= k + 1 ==> cuts[k + 1] <= cuts[a]);
        assert(b <= k ==> cuts[b] <= cuts[k]);
        assert(b >= k + 1 ==> cuts[k + 1] <= cuts[b]);
    }
}

proof fn lemma_ends_are_cuts(span: StyleSpan, ranges: Seq<(u32, u32)>, n: nat, i: int)
    requires
        span.start < span.end,
        0 <= i < n <= ranges.len(),
        ranges[i].0 <= ranges[i].1,
        ranges[i].1 > span.start && ranges[i].0 < span.end,
    ensures
        cuts_of(span, ranges, n).contains(
            if ranges[i].0 >= span.start {
                ranges[i].0
            } else {
                span.start
            },
        ),
        cuts_of(span, ranges, n).contains(
            if ranges[i].1 <= span.end {
                ranges[i].1
            } else {
                span.end
            },
        ),
    decreases n,
{
    let cuts = cuts_of(span, ranges, (n - 1) as nat);
    lemma_cuts_of(span, ranges, (n - 1) as nat);
    let x = if ranges[i].0 >= span.start {
        ranges[i].0
    } else {
        span.start
    };
    let y = if ranges[i].1 <= span.end {
        ranges[i].1
    } else {
        span.end
    };
    let (s, e) = ranges[n - 1];
    if i < n - 1 {
        lemma_ends_are_cuts(span, ranges, (n - 1) as nat, i);
    }
    if e > span.start && s < span.end {
        let c = if s >= span.start {
            s
        } else {
            span.start
        };
        let d = if e <= span.end {
            e
        } else {
            span.end
        };
        lemma_with_cut(cuts, span.start, span.end, c);
        let one = with_cut(cuts, c);
        lemma_with_cut(one, span.start, span.end, d);
        lemma_cut_keeps(cuts, c, x);
        lemma_cut_keeps(cuts, c, y);
        lemma_cut_keeps(one, d, x);
        lemma_cut_keeps(one, d, y);
        lemma_cut_keeps(one, d, c);
    }
}

proof fn lemma_cut_keeps(cuts: Seq<u32>, x: u32, y: u32)
    ensures
        cuts.contains(y) ==> with_cut(cuts, x).contains(y),
{
    if cuts.contains(y) {
        lemma_below_splits(cuts, x);
        let k = below(cuts, x) as int;
        let j = choose|j: int| 0 <= j < cuts.len() && cuts[j] == y;
        let out = with_cut(cuts, x);
        if k < cuts.len() && cuts[k] == x {
            assert(out[j] == y);
        } else if j < k {
            assert(out[j] == y);
        } else {
            assert(out[j + 1] == y);
        }
    }
}

/// A composition reads in the style of the text where it stands, and is
/// underlined.
pub proof fn law_composition_is_underlined(style: SpanStyle, off: u32, len: u32)
    requires
        off + len <= u32::MAX,
    ensures
        ({
            let s = composition_span(style, off, len);
            &&& s.start == off && s.end == off + len
            &&& s.underline == UnderlineStyle::Single
            &&& s.bold == (style.bold == Some(true))
            &&& s.italic == (style.italic == Some(true))
            &&& s.strike == (style.strike == Some(true))
            &&& style.color is None ==> s.color == (Color { r: 0, g: 0, b: 0, a: 255 })
            &&& style.color matches Some(c) ==> s.color == c
            &&& s.bg_color == style.bg_color && s.font_family == style.font_family
            &&& s.size == (SpanSize::Plain { size: style.font_size })
        }),
{
}

/// Text makes room for a composition: spans before it stay, spans after it move
/// on by its length, and one that it stands in is parted.
pub proof fn law_text_makes_room(spans: Seq<StyleSpan>, off: u32, len: u32, n: nat, i: int)
    requires
        0 <= i < n <= spans.len(),
        can_shift(spans, len),
        off + len <= u32::MAX,
    ensures
        ({
            let s = spans[i];
            let all = opened_up(spans, off, len, n);
            &&& s.end <= off ==> all.contains(s)
            &&& s.end > off && s.start >= off ==> all.contains(
                (StyleSpan { start: (s.start + len) as u32, end: (s.end + len) as u32, ..s }),
            )
            &&& s.start < off < s.end ==> all.contains((StyleSpan { end: off, ..s }))
                && all.contains(
                (StyleSpan { start: (off + len) as u32, end: (s.end + len) as u32, ..s }),
            )
        }),
    decreases n,
{
    let head = opened_up(spans, off, len, (n - 1) as nat);
    let all = opened_up(spans, off, len, n);
    assert forall|e: StyleSpan| head.contains(e) implies all.contains(e) by {
        let j = choose|j: int| 0 <= j < head.len() && head[j] == e;
        assert(all[j] == e);
    }
    if i < n - 1 {
        law_text_makes_room(spans, off, len, (n - 1) as nat, i);
    } else {
        let s = spans[i];
        let at = head.len() as int;
        if s.end <= off {
            assert(all[at] == s);
        } else if s.start >= off {
            assert(all[at] == (StyleSpan {
                start: (s.start + len) as u32,
                end: (s.end + len) as u32,
                ..s
            }));
        } else {
            assert(all[at] == (StyleSpan { end: off, ..s }));
            assert(all[at + 1] == (StyleSpan {
                start: (off + len) as u32,
                end: (s.end + len) as u32,
                ..s
            }));
        }
    }
}

/// In small capitals every letter is a capital, and those that were small are
/// set small: the piece that holds a character is small where the character is a
/// lowercase letter, and full otherwise.
pub proof fn law_small_letters_become_small_capitals(
    template: StyleSpan,
    chars: Seq<char>,
    lower: Seq<bool>,
    lo: int,
    n: nat,
    c: int,
)
    requires
        0 <= c < n <= chars.len() == lower.len(),
        0 <= lo,
        lo + text_len(chars) <= u32::MAX,
        template.size is Run,
    ensures
        ({
            let pieces = small_pieces(template, chars, lower, lo, n);
            let at = lo + text_len(chars.take(c));
            exists|k: int|
                0 <= k < pieces.len() && (#[trigger] pieces[k]).start <= at && lo + text_len(
                    chars.take(c + 1),
                ) <= pieces[k].end && pieces[k].caps_transform && (
                pieces[k].size matches SpanSize::Run { small, .. } && small == lower[c])
        }),
{
    lemma_piece_of_a_char(template, chars, lower, lo, n, c);
    let pieces = small_pieces(template, chars, lower, lo, n);
    let at = lo + text_len(chars.take(c));
    let to = lo + text_len(chars.take(c + 1));
    let k = choose|k: int|
        0 <= k < pieces.len() && (#[trigger] pieces[k]).start <= at && to <= pieces[k].end
            && pieces[k].caps_transform && pieces[k].size == with_small(template.size, lower[c]);
    assert(pieces[k].start <= at);
}

proof fn lemma_piece_of_a_char(
    template: StyleSpan,
    chars: Seq<char>,
    lower: Seq<bool>,
    lo: int,
    n: nat,
    c: int,
)
    requires
        0 <= c < n <= chars.len() == lower.len(),
        0 <= lo,
        lo + text_len(chars) <= u32::MAX,
    ensures
        ({
            let pieces = small_pieces(template, chars, lower, lo, n);
            let at = lo + text_len(chars.take(c));
            let to = lo + text_len(chars.take(c + 1));
            &&& pieces.len() >= 1
            &&& pieces.last().end == lo + text_len(chars.take(n as int))
            &&& pieces.last().size == with_small(template.size, lower[n - 1])
            &&& pieces.last().caps_transform
            &&& pieces.last().start <= lo + text_len(chars.take(n - 1))
            &&& exists|k: int|
                0 <= k < pieces.len() && (#[trigger] pieces[k]).start <= at && to <= pieces[k].end
                    && pieces[k].caps_transform && pieces[k].size == with_small(
                    template.size,
                    lower[c],
                )
        }),
    decreases n,
{
    let all = small_pieces(template, chars, lower, lo, n);
    let head = small_pieces(template, chars, lower, lo, (n - 1) as nat);
    lemma_prefix_len(chars, n as int);
    lemma_prefix_len(chars, n - 1);
    lemma_prefix_grows(chars, n - 1, n as int);
    if n > 1 {
        lemma_prefix_grows(chars, n - 2, n - 1);
        lemma_piece_of_a_char(template, chars, lower, lo, (n - 1) as nat, if c < n - 1 {
            c
        } else {
            0
        });
    }
    let at = lo + text_len(chars.take(c));
    let to = lo + text_len(chars.take(c + 1));
    if n >= 2 && lower[n - 2] == lower[n - 1] {
        assert(all.last() == small_piece(
            template,
            head.last().start,
            (lo + text_len(chars.take(n as int))) as u32,
            lower[n - 1],
        ));
    } else {
        assert(all.last() == small_piece(
            template,
            (lo + text_len(chars.take(n - 1))) as u32,
            (lo + text_len(chars.take(n as int))) as u32,
            lower[n - 1],
        ));
    }
    if c == n - 1 {
        assert(all[all.len() - 1].start <= at);
    } else {
        let k = choose|k: int|
            0 <= k < head.len() && (#[trigger] head[k]).start <= at && to <= head[k].end
                && head[k].caps_transform && head[k].size == with_small(template.size, lower[c]);
        if k < head.len() - 1 || !(n >= 2 && lower[n - 2] == lower[n - 1]) {
            assert(all[k] == head[k]);
        } else {
            assert(all[k].start == head[k].start);
            assert(with_small(template.size, lower[c]) == with_small(template.size, lower[n - 2]));
            assert(all[k].end >= head[k].end);
        }
    }
}

proof fn lemma_prefix_grows(chars: Seq<char>, j: int, k: int)
    requires
        0 <= j <= k <= chars.len(),
    ensures
        text_len(chars.take(j)) <= text_len(chars.take(k)),
    decreases k - j,
{
    if j < k {
        lemma_prefix_grows(chars, j, k - 1);
        assert(chars.take(k) =~= chars.take(k - 1).push(chars[k - 1]));
        crate::text::lemma_text_len_push(chars.take(k - 1), chars[k - 1]);
    }
}

proof fn lemma_prefix_len(chars: Seq<char>, n: int)
    requires
        0 <= n <= chars.len(),
    ensures
        text_len(chars.take(n)) <= text_len(chars),
{
    lemma_prefix_grows(chars, n, chars.len() as int);
    assert(chars.take(chars.len() as int) =~= chars);
}

} // verus!
