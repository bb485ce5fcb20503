//! The layout cache: the key that a paragraph's layout is kept under, and the
//! bounded cache of layouts, most recently used first.

use crate::a11y::{find_marker, marker_of, NoteMarker};
use crate::command::BridgeTabKind;
use crate::common::{Alignment, Color, Direction, UnderlineStyle};
use crate::document::{
    FontFamily, FontSize, Hyperlink, InlineKind, InlineObject, LineHeight, Paragraph, Revision,
    RevisionKind, StyleRun, TabStop, VertAlign,
};
use crate::pipeline::{object_shape, objects_shape};
use lru::LruCache;
use std::collections::hash_map::DefaultHasher;
use std::hash::Hasher;
use std::num::NonZeroUsize;
use vstd::bytes::{spec_u64_to_le_bytes, u64_to_le_bytes};
use vstd::prelude::*;
use vstd::std_specs::hash::DefaultHasherAdditionalSpecFns;
use vstd::utf8::encode_utf8;

verus! {

broadcast use vstd::seq_lib::group_seq_properties;

/// The number of layouts that the cache keeps.
pub const LAYOUT_CACHE_CAP: usize = 4096;

/// The settings that a document is laid out with. Sizes are IEEE-754 patterns.
#[derive(Clone, Debug, PartialEq, Eq)]
pub struct RenderConfig {
    pub font_id: String,
    pub base_direction: Direction,
    pub px_size_bits: u32,
    pub line_height_bits: u32,
    pub alignment: Alignment,
}

pub open spec fn flag_word(o: Option<bool>) -> u64 {
    match o {
        None => 0,
        Some(false) => 1,
        Some(true) => 2,
    }
}

fn of_flag(o: Option<bool>) -> (r: u64)
    ensures
        r == flag_word(o),
{
    match o {
        None => 0,
        Some(false) => 1,
        Some(true) => 2,
    }
}

pub open spec fn color_word(o: Option<Color>) -> u64 {
    match o {
        None => 0,
        Some(c) => (1 + c.r + 0x100 * c.g + 0x1_0000 * c.b + 0x100_0000 * c.a) as u64,
    }
}

fn of_color(o: Option<Color>) -> (r: u64)
    ensures
        r == color_word(o),
{
    match o {
        None => 0,
        Some(c) => 1 + c.r as u64 + 0x100 * c.g as u64 + 0x1_0000 * c.b as u64 + 0x100_0000
            * c.a as u64,
    }
}

pub open spec fn underline_word(o: Option<UnderlineStyle>) -> u64 {
    match o {
        None => 0,
        Some(UnderlineStyle::NoLine) => 1,
        Some(UnderlineStyle::Single) => 2,
        Some(UnderlineStyle::Double) => 3,
        Some(UnderlineStyle::Dotted) => 4,
        Some(UnderlineStyle::Dashed) => 5,
        Some(UnderlineStyle::Wavy) => 6,
    }
}

fn of_underline(o: Option<UnderlineStyle>) -> (r: u64)
    ensures
        r == underline_word(o),
{
    match o {
        None => 0,
        Some(UnderlineStyle::NoLine) => 1,
        Some(UnderlineStyle::Single) => 2,
        Some(UnderlineStyle::Double) => 3,
        Some(UnderlineStyle::Dotted) => 4,
        Some(UnderlineStyle::Dashed) => 5,
        Some(UnderlineStyle::Wavy) => 6,
    }
}

pub open spec fn family_word(o: Option<FontFamily>) -> u64 {
    match o {
        None => 0,
        Some(FontFamily::Amiri) => 1,
        Some(FontFamily::LiberationSans) => 2,
        Some(FontFamily::NotoNaskhArabic) => 3,
    }
}

fn of_family(o: Option<FontFamily>) -> (r: u64)
    ensures
        r == family_word(o),
{
    match o {
        None => 0,
        Some(FontFamily::Amiri) => 1,
        Some(FontFamily::LiberationSans) => 2,
        Some(FontFamily::NotoNaskhArabic) => 3,
    }
}

pub open spec fn size_word(o: Option<FontSize>) -> u64 {
    match o {
        None => 0,
        Some(s) => (1 + s.bits) as u64,
    }
}

fn of_size(o: Option<FontSize>) -> (r: u64)
    ensures
        r == size_word(o),
{
    match o {
        None => 0,
        Some(s) => 1 + s.bits as u64,
    }
}

pub open spec fn vert_word(o: Option<VertAlign>) -> u64 {
    match o {
        None => 0,
        Some(VertAlign::Baseline) => 1,
        Some(VertAlign::Superscript) => 2,
        Some(VertAlign::Subscript) => 3,
    }
}

fn of_vert(o: Option<VertAlign>) -> (r: u64)
    ensures
        r == vert_word(o),
{
    match o {
        None => 0,
        Some(VertAlign::Baseline) => 1,
        Some(VertAlign::Superscript) => 2,
        Some(VertAlign::Subscript) => 3,
    }
}

pub open spec fn align_word(o: Option<Alignment>) -> u64 {
    match o {
        None => 0,
        Some(Alignment::Start) => 1,
        Some(Alignment::End) => 2,
        Some(Alignment::Center) => 3,
        Some(Alignment::Justify) => 4,
    }
}

fn of_align(o: Option<Alignment>) -> (r: u64)
    ensures
        r == align_word(o),
{
    match o {
        None => 0,
        Some(Alignment::Start) => 1,
        Some(Alignment::End) => 2,
        Some(Alignment::Center) => 3,
        Some(Alignment::Justify) => 4,
    }
}

pub open spec fn direction_word(o: Option<Direction>) -> u64 {
    match o {
        None => 0,
        Some(Direction::Ltr) => 1,
        Some(Direction::Rtl) => 2,
    }
}

fn of_direction(o: Option<Direction>) -> (r: u64)
    ensures
        r == direction_word(o),
{
    match o {
        None => 0,
        Some(Direction::Ltr) => 1,
        Some(Direction::Rtl) => 2,
    }
}

/// A length in twips as a word.
pub open spec fn twips_word(t: i32) -> u64 {
    (t + 0x8000_0000) as u64
}

fn of_twips(t: i32) -> (r: u64)
    ensures
        r == twips_word(t),
{
    (t as i64 + 0x8000_0000) as u64
}

pub open spec fn height_word(o: Option<LineHeight>) -> u64 {
    match o {
        None => 0,
        Some(LineHeight::Auto { twips }) => (0x1_0000_0000 + twips_word(twips)) as u64,
        Some(LineHeight::Exact { twips }) => (0x2_0000_0000 + twips_word(twips)) as u64,
        Some(LineHeight::AtLeast { twips }) => (0x3_0000_0000 + twips_word(twips)) as u64,
    }
}

fn of_height(o: Option<LineHeight>) -> (r: u64)
    ensures
        r == height_word(o),
{
    match o {
        None => 0,
        Some(LineHeight::Auto { twips }) => 0x1_0000_0000 + of_twips(twips),
        Some(LineHeight::Exact { twips }) => 0x2_0000_0000 + of_twips(twips),
        Some(LineHeight::AtLeast { twips }) => 0x3_0000_0000 + of_twips(twips),
    }
}

pub open spec fn tab_word(s: TabStop) -> u64 {
    let kind: int = match s.kind {
        BridgeTabKind::Left => 0,
        BridgeTabKind::Center => 1,
        BridgeTabKind::Right => 2,
        BridgeTabKind::Decimal => 3,
        BridgeTabKind::Clear => 4,
    };
    (s.position_bits + 0x1_0000_0000 * kind) as u64
}

fn of_tab(s: TabStop) -> (r: u64)
    ensures
        r == tab_word(s),
{
    let kind: u64 = match s.kind {
        BridgeTabKind::Left => 0,
        BridgeTabKind::Center => 1,
        BridgeTabKind::Right => 2,
        BridgeTabKind::Decimal => 3,
        BridgeTabKind::Clear => 4,
    };
    s.position_bits as u64 + 0x1_0000_0000 * kind
}

/// The words of a style run.
pub open spec fn run_words(run: StyleRun) -> Seq<u64> {
    seq![
        run.start as u64,
        run.end as u64,
        size_word(run.style.font_size),
        color_word(run.style.color),
        flag_word(run.style.bold),
        flag_word(run.style.italic),
        underline_word(run.style.underline),
        flag_word(run.style.strike),
        color_word(run.style.bg_color),
        family_word(run.style.font_family),
        vert_word(run.style.vert_align),
        flag_word(run.style.caps),
        flag_word(run.style.small_caps),
    ]
}

/// Two runs with the same words are the same run.
proof fn lemma_run_words(a: StyleRun, b: StyleRun)
    requires
        run_words(a) == run_words(b),
    ensures
        a == b,
{
    let (s, t) = (run_words(a), run_words(b));
    assert(s[0] == t[0] && s[1] == t[1] && s[2] == t[2] && s[3] == t[3] && s[4] == t[4] && s[5]
        == t[5] && s[6] == t[6] && s[7] == t[7] && s[8] == t[8] && s[9] == t[9] && s[10] == t[10]
        && s[11] == t[11] && s[12] == t[12]);
    lemma_color_word(a.style.color, b.style.color);
    lemma_color_word(a.style.bg_color, b.style.bg_color);
    assert(a.style.font_size == b.style.font_size);
    assert(a.style == b.style);
}

#[verifier::rlimit(50)]
proof fn lemma_color_word(a: Option<Color>, b: Option<Color>)
    ensures
        color_word(a) == color_word(b) ==> a == b,
{
}

/// The words of the first `n` runs.
pub open spec fn runs_words(runs: Seq<StyleRun>, n: nat) -> Seq<u64>
    decreases n,
{
    if n == 0 {
        Seq::empty()
    } else {
        runs_words(runs, (n - 1) as nat) + run_words(runs[n - 1])
    }
}

/// The words of the first `n` links.
pub open spec fn links_words(links: Seq<Hyperlink>, n: nat) -> Seq<u64>
    decreases n,
{
    if n == 0 {
        Seq::empty()
    } else {
        links_words(links, (n - 1) as nat) + seq![
            links[n - 1].start as u64,
            links[n - 1].end as u64,
        ]
    }
}

/// The words of the first `n` tracked changes.
pub open spec fn revisions_words(revs: Seq<Revision>, n: nat) -> Seq<u64>
    decreases n,
{
    if n == 0 {
        Seq::empty()
    } else {
        revisions_words(revs, (n - 1) as nat) + seq![
            revs[n - 1].start as u64,
            revs[n - 1].end as u64,
            if revs[n - 1].kind == RevisionKind::Insert {
                1
            } else {
                0
            },
        ]
    }
}

/// The words of tab stops.
pub open spec fn tabs_words(tabs: Seq<TabStop>) -> Seq<u64> {
    tabs.map_values(|t: TabStop| tab_word(t))
}

/// Bytes as words.
pub open spec fn byte_words(s: Seq<u8>) -> Seq<u64> {
    s.map_values(|b: u8| b as u64)
}

/// The words of a text: its length in bytes, then each byte.
pub open spec fn text_words(text: Seq<char>) -> Seq<u64> {
    seq![encode_utf8(text).len() as u64] + byte_words(encode_utf8(text))
}

/// What the layout of a paragraph starts from: the paragraph, the settings, the
/// patterns of the scale and of the width, the marks of the notes, and the mark
/// of the note that the paragraph is in.
pub ghost struct LayoutInput {
    pub para: Paragraph,
    pub cfg: RenderConfig,
    pub scale: u32,
    pub width: u32,
    pub markers: Seq<NoteMarker>,
    pub own: Seq<char>,
}

/// What the layout of a paragraph starts from.
pub open spec fn input(
    para: Paragraph,
    cfg: RenderConfig,
    scale: u32,
    width: u32,
    markers: Seq<NoteMarker>,
    own: Seq<char>,
) -> LayoutInput {
    LayoutInput { para, cfg, scale, width, markers, own }
}

/// The kinds of inline object that are laid out in different ways.
#[derive(Debug, Clone, Copy, PartialEq, Eq, Structural)]
pub enum ObjectTag {
    Image,
    Mark,
    TextBox,
}

/// What the layout is told of an inline object. `label` is the picture, the text
/// box or the text of the mark; the size is that of a picture or a text box.
pub ghost struct ObjectKey {
    pub at: u32,
    pub tag: ObjectTag,
    pub width_emu: i64,
    pub height_emu: i64,
    pub label: Seq<char>,
}

/// What the layout is told of an inline object.
pub open spec fn object_key(o: InlineObject, markers: Seq<NoteMarker>, own: Seq<char>) -> ObjectKey {
    match o.kind {
        InlineKind::Image { rel_id, width_emu, height_emu, .. } => ObjectKey {
            at: o.at,
            tag: ObjectTag::Image,
            width_emu,
            height_emu,
            label: rel_id@,
        },
        InlineKind::TextBox { id, width_emu, height_emu, .. } => ObjectKey {
            at: o.at,
            tag: ObjectTag::TextBox,
            width_emu,
            height_emu,
            label: id@,
        },
        InlineKind::NoteRef { kind, id } => ObjectKey {
            at: o.at,
            tag: ObjectTag::Mark,
            width_emu: 0,
            height_emu: 0,
            label: marker_of(markers, kind, id),
        },
        InlineKind::NoteSelfRef { .. } => ObjectKey {
            at: o.at,
            tag: ObjectTag::Mark,
            width_emu: 0,
            height_emu: 0,
            label: own,
        },
    }
}

/// What the layout is told of the inline objects.
pub open spec fn object_keys(x: LayoutInput) -> Seq<ObjectKey> {
    x.para.inline_objects@.map_values(|o: InlineObject| object_key(o, x.markers, x.own))
}

pub open spec fn tag_word(t: ObjectTag) -> u64 {
    match t {
        ObjectTag::Image => 0,
        ObjectTag::Mark => 1,
        ObjectTag::TextBox => 2,
    }
}

/// A length in EMU as a word.
pub open spec fn emu_word(v: i64) -> u64 {
    (v + 0x8000_0000_0000_0000) as u64
}

fn of_emu(v: i64) -> (r: u64)
    ensures
        r == emu_word(v),
{
    (v as i128 + 0x8000_0000_0000_0000) as u64
}

/// The words of an inline object.
pub open spec fn object_words(k: ObjectKey) -> Seq<u64> {
    seq![k.at as u64, tag_word(k.tag), emu_word(k.width_emu), emu_word(k.height_emu)]
        + text_words(k.label)
}

/// The words of inline objects.
pub open spec fn objects_words(keys: Seq<ObjectKey>) -> Seq<u64>
    decreases keys.len(),
{
    if keys.len() == 0 {
        Seq::empty()
    } else {
        object_words(keys[0]) + objects_words(keys.drop_first())
    }
}

/// The text of an optional string.
pub open spec fn opt_text(s: Option<String>) -> Option<Seq<char>> {
    match s {
        Some(t) => Some(t@),
        None => None,
    }
}

/// The words of an optional text.
pub open spec fn opt_text_words(s: Option<Seq<char>>) -> Seq<u64> {
    match s {
        Some(t) => seq![1u64] + text_words(t),
        None => seq![0u64],
    }
}

/// The words of a paragraph's fixed settings.
pub open spec fn props_words(p: Paragraph) -> Seq<u64> {
    seq![
        align_word(p.props.alignment),
        direction_word(p.props.direction),
        twips_word(p.props.indent.start_twips),
        twips_word(p.props.indent.end_twips),
        twips_word(p.props.indent.first_line_twips),
        twips_word(p.props.indent.hanging_twips),
        height_word(p.props.line_height),
        direction_word(p.auto_direction),
    ]
}

/// The words of the settings, the scale and the width.
pub open spec fn config_words(cfg: RenderConfig, scale_bits: u32, width_bits: u32) -> Seq<u64> {
    seq![
        direction_word(Some(cfg.base_direction)),
        cfg.px_size_bits as u64,
        cfg.line_height_bits as u64,
        align_word(Some(cfg.alignment)),
        scale_bits as u64,
        width_bits as u64,
    ]
}

/// The lengths of a paragraph's lists.
pub open spec fn count_words(p: Paragraph) -> Seq<u64> {
    seq![
        p.spans@.len() as u64,
        p.hyperlinks@.len() as u64,
        p.revisions@.len() as u64,
        p.props.tab_stops@.len() as u64,
        p.inline_objects@.len() as u64,
    ]
}

/// The words before the lists.
pub open spec fn fixed_words(x: LayoutInput) -> Seq<u64> {
    props_words(x.para) + config_words(x.cfg, x.scale, x.width) + count_words(x.para)
}

/// Everything that the layout of a paragraph depends on, as words. Each list
/// comes with its length before it.
pub open spec fn layout_words(x: LayoutInput) -> Seq<u64> {
    let p = x.para;
    fixed_words(x) + runs_words(p.spans@, p.spans@.len()) + links_words(
        p.hyperlinks@,
        p.hyperlinks@.len(),
    ) + revisions_words(p.revisions@, p.revisions@.len()) + tabs_words(p.props.tab_stops@)
        + text_words(p.text@) + text_words(x.cfg.font_id@) + opt_text_words(opt_text(p.marker))
        + objects_words(object_keys(x))
}

/// What the hasher is given: each word as eight bytes.
pub open spec fn writes(words: Seq<u64>) -> Seq<Seq<u8>> {
    words.map_values(|w: u64| spec_u64_to_le_bytes(w))
}

fn push_words(out: &mut Vec<u64>, words: &Vec<u64>)
    ensures
        final(out)@ == old(out)@ + words@,
{
    let ghost before = out@;
    let mut i: usize = 0;
    assert(out@ =~= before + words@.take(0));
    while i < words.len()
        invariant
            i <= words@.len(),
            out@ == before + words@.take(i as int),
        decreases words.len() - i,
    {
        out.push(words[i]);
        i += 1;
        assert(out@ =~= before + words@.take(i as int));
    }
    assert(words@.take(i as int) =~= words@);
}

fn push_text(out: &mut Vec<u64>, text: &str)
    ensures
        final(out)@ == old(out)@ + text_words(text@),
{
    let ghost before = out@;
    let bytes = text.as_bytes();
    let ghost all = byte_words(encode_utf8(text@));
    out.push(bytes.len() as u64);
    let mut i: usize = 0;
    let ghost head = before + seq![bytes@.len() as u64];
    assert(out@ =~= head + all.take(0));
    while i < bytes.len()
        invariant
            i <= bytes@.len(),
            bytes@ == encode_utf8(text@),
            all == byte_words(encode_utf8(text@)),
            out@ == head + all.take(i as int),
        decreases bytes.len() - i,
    {
        out.push(bytes[i] as u64);
        i += 1;
        assert(out@ =~= head + all.take(i as int));
    }
    assert(out@ =~= before + text_words(text@));
}

fn push_object(out: &mut Vec<u64>, o: &InlineObject, markers: &Vec<NoteMarker>, own: &String)
    ensures
        final(out)@ == old(out)@ + object_words(object_key(*o, markers@, own@)),
{
    let ghost before = out@;
    let ghost key = object_key(*o, markers@, own@);
    let (tag, width, height): (u64, u64, u64) = match &o.kind {
        InlineKind::Image { width_emu, height_emu, .. } => (
            0,
            of_emu(*width_emu),
            of_emu(*height_emu),
        ),
        InlineKind::TextBox { width_emu, height_emu, .. } => (
            2,
            of_emu(*width_emu),
            of_emu(*height_emu),
        ),
        InlineKind::NoteRef { .. } | InlineKind::NoteSelfRef { .. } => (1, of_emu(0), of_emu(0)),
    };
    let words: Vec<u64> = vec![o.at as u64, tag, width, height];
    assert(words@ =~= seq![
        key.at as u64,
        tag_word(key.tag),
        emu_word(key.width_emu),
        emu_word(key.height_emu),
    ]);
    push_words(out, &words);
    match &o.kind {
        InlineKind::Image { rel_id, .. } => push_text(out, rel_id.as_str()),
        InlineKind::TextBox { id, .. } => push_text(out, id.as_str()),
        InlineKind::NoteRef { kind, id } => {
            let text = find_marker(markers, *kind, *id);
            push_text(out, text.as_str());
        },
        InlineKind::NoteSelfRef { .. } => push_text(out, own.as_str()),
    }
    assert(out@ =~= before + object_words(key));
}

fn push_objects(out: &mut Vec<u64>, p: &Paragraph, markers: &Vec<NoteMarker>, own: &String)
    ensures
        final(out)@ == old(out)@ + objects_words(
            p.inline_objects@.map_values(|o: InlineObject| object_key(o, markers@, own@)),
        ),
{
    let ghost keys = p.inline_objects@.map_values(|o: InlineObject| object_key(o, markers@, own@));
    let ghost before = out@;
    let mut i: usize = 0;
    assert(keys.skip(0) =~= keys);
    while i < p.inline_objects.len()
        invariant
            i <= p.inline_objects@.len(),
            keys == p.inline_objects@.map_values(
                |o: InlineObject| object_key(o, markers@, own@),
            ),
            out@ + objects_words(keys.skip(i as int)) == before + objects_words(keys),
        decreases p.inline_objects.len() - i,
    {
        let ghost now = out@;
        let ghost rest = keys.skip(i as int);
        assert(rest.drop_first() =~= keys.skip(i as int + 1));
        assert(rest[0] == keys[i as int]);
        push_object(out, &p.inline_objects[i], markers, own);
        assert(now + objects_words(rest) =~= out@ + objects_words(rest.drop_first()));
        i += 1;
    }
    assert(keys.skip(i as int) =~= Seq::empty());
    assert(out@ =~= out@ + objects_words(keys.skip(i as int)));
}

/// Everything that the layout of a paragraph depends on, as words.
pub fn key_words(
    p: &Paragraph,
    cfg: &RenderConfig,
    scale_bits: u32,
    width_bits: u32,
    markers: &Vec<NoteMarker>,
    own: &String,
) -> (r: Vec<u64>)
    ensures
        r@ == layout_words(input(*p, *cfg, scale_bits, width_bits, markers@, own@)),
{
    let ghost x = input(*p, *cfg, scale_bits, width_bits, markers@, own@);
    let mut out: Vec<u64> = vec![
        of_align(p.props.alignment),
        of_direction(p.props.direction),
        of_twips(p.props.indent.start_twips),
        of_twips(p.props.indent.end_twips),
        of_twips(p.props.indent.first_line_twips),
        of_twips(p.props.indent.hanging_twips),
        of_height(p.props.line_height),
        of_direction(p.auto_direction),
        of_direction(Some(cfg.base_direction)),
        cfg.px_size_bits as u64,
        cfg.line_height_bits as u64,
        of_align(Some(cfg.alignment)),
        scale_bits as u64,
        width_bits as u64,
        p.spans.len() as u64,
        p.hyperlinks.len() as u64,
        p.revisions.len() as u64,
        p.props.tab_stops.len() as u64,
        p.inline_objects.len() as u64,
    ];
    let ghost fixed = fixed_words(x);
    assert(out@ =~= fixed);
    let mut i: usize = 0;
    assert(out@ =~= fixed + runs_words(p.spans@, 0));
    while i < p.spans.len()
        invariant
            i <= p.spans@.len(),
            out@ == fixed + runs_words(p.spans@, i as nat),
        decreases p.spans.len() - i,
    {
        let run: StyleRun = p.spans[i];
        let words: Vec<u64> = vec![
            run.start as u64,
            run.end as u64,
            of_size(run.style.font_size),
            of_color(run.style.color),
            of_flag(run.style.bold),
            of_flag(run.style.italic),
            of_underline(run.style.underline),
            of_flag(run.style.strike),
            of_color(run.style.bg_color),
            of_family(run.style.font_family),
            of_vert(run.style.vert_align),
            of_flag(run.style.caps),
            of_flag(run.style.small_caps),
        ];
        assert(words@ =~= run_words(run));
        push_words(&mut out, &words);
        i += 1;
        assert(out@ =~= fixed + runs_words(p.spans@, i as nat));
    }
    let ghost upto = out@;
    let mut i: usize = 0;
    assert(out@ =~= upto + links_words(p.hyperlinks@, 0));
    while i < p.hyperlinks.len()
        invariant
            i <= p.hyperlinks@.len(),
            out@ == upto + links_words(p.hyperlinks@, i as nat),
        decreases p.hyperlinks.len() - i,
    {
        out.push(p.hyperlinks[i].start as u64);
        out.push(p.hyperlinks[i].end as u64);
        i += 1;
        assert(out@ =~= upto + links_words(p.hyperlinks@, i as nat));
    }
    let ghost upto2 = out@;
    let mut i: usize = 0;
    assert(out@ =~= upto2 + revisions_words(p.revisions@, 0));
    while i < p.revisions.len()
        invariant
            i <= p.revisions@.len(),
            out@ == upto2 + revisions_words(p.revisions@, i as nat),
        decreases p.revisions.len() - i,
    {
        out.push(p.revisions[i].start as u64);
        out.push(p.revisions[i].end as u64);
        out.push(if p.revisions[i].kind == RevisionKind::Insert { 1 } else { 0 });
        i += 1;
        assert(out@ =~= upto2 + revisions_words(p.revisions@, i as nat));
    }
    let ghost upto3 = out@;
    let ghost tabs = tabs_words(p.props.tab_stops@);
    let mut i: usize = 0;
    assert(out@ =~= upto3 + tabs.take(0));
    while i < p.props.tab_stops.len()
        invariant
            i <= p.props.tab_stops@.len(),
            tabs == tabs_words(p.props.tab_stops@),
            out@ == upto3 + tabs.take(i as int),
        decreases p.props.tab_stops.len() - i,
    {
        out.push(of_tab(p.props.tab_stops[i]));
        i += 1;
        assert(out@ =~= upto3 + tabs.take(i as int));
    }
    assert(tabs.take(i as int) =~= tabs);
    push_text(&mut out, &p.text);
    push_text(&mut out, &cfg.font_id);
    let ghost upto4 = out@;
    match &p.marker {
        Some(text) => {
            out.push(1);
            push_text(&mut out, text.as_str());
        },
        None => out.push(0),
    }
    assert(out@ =~= upto4 + opt_text_words(opt_text(p.marker)));
    push_objects(&mut out, p, markers, own);
    out
}

/// The key that a paragraph's layout is kept under: the hash of everything
/// that the layout depends on.
pub fn paragraph_layout_key(
    p: &Paragraph,
    cfg: &RenderConfig,
    scale_bits: u32,
    width_bits: u32,
    markers: &Vec<NoteMarker>,
    own: &String,
) -> (r: u64)
    ensures
        r == DefaultHasher::spec_finish(
            writes(layout_words(input(*p, *cfg, scale_bits, width_bits, markers@, own@))),
        ),
{
    let words = key_words(p, cfg, scale_bits, width_bits, markers, own);
    let mut h = DefaultHasher::new();
    let mut i: usize = 0;
    assert(h@ =~= writes(words@).take(0));
    while i < words.len()
        invariant
            i <= words@.len(),
            h@ == writes(words@).take(i as int),
        decreases words.len() - i,
    {
        let bytes = u64_to_le_bytes(words[i]);
        h.write(bytes.as_slice());
        i += 1;
        assert(h@ =~= writes(words@).take(i as int));
    }
    assert(writes(words@).take(i as int) =~= writes(words@));
    h.finish()
}

/// Two tracked changes mark the same text in the same way.
pub open spec fn same_mark(a: Revision, b: Revision) -> bool {
    a.start == b.start && a.end == b.end && a.kind == b.kind
}

/// The layouts of two paragraphs have everything in common that they depend
/// on: text, styles, settings, links, tracked changes, tab stops, the marker as
/// an item of a list, inline objects, and the document's settings, scale and
/// width.
pub open spec fn same_layout(x: LayoutInput, y: LayoutInput) -> bool {
    let (p, q) = (x.para, y.para);
    &&& p.text@ == q.text@
    &&& p.auto_direction == q.auto_direction
    &&& p.spans@ == q.spans@
    &&& p.hyperlinks@ == q.hyperlinks@
    &&& p.revisions@.len() == q.revisions@.len()
    &&& forall|i: int|
        0 <= i < p.revisions@.len() ==> same_mark(#[trigger] p.revisions@[i], q.revisions@[i])
    &&& p.props.tab_stops@.len() == q.props.tab_stops@.len()
    &&& forall|i: int|
        0 <= i < p.props.tab_stops@.len() ==> (#[trigger] p.props.tab_stops@[i]).position_bits
            == q.props.tab_stops@[i].position_bits && p.props.tab_stops@[i].kind
            == q.props.tab_stops@[i].kind
    &&& opt_text(p.marker) == opt_text(q.marker)
    &&& object_keys(x) == object_keys(y)
    &&& p.props.alignment == q.props.alignment
    &&& p.props.direction == q.props.direction
    &&& p.props.indent == q.props.indent
    &&& p.props.line_height == q.props.line_height
    &&& x.cfg.font_id@ == y.cfg.font_id@
    &&& x.cfg.base_direction == y.cfg.base_direction
    &&& x.cfg.px_size_bits == y.cfg.px_size_bits
    &&& x.cfg.line_height_bits == y.cfg.line_height_bits
    &&& x.cfg.alignment == y.cfg.alignment
    &&& x.scale == y.scale
    &&& x.width == y.width
}

/// Paragraphs that are laid out alike give their inline objects the same room.
pub proof fn law_same_layout_same_room(x: LayoutInput, y: LayoutInput, em: u32, unit: u32)
    requires
        same_layout(x, y),
    ensures
        objects_shape(x.para.inline_objects@, x.markers, x.own, em, unit) == objects_shape(
            y.para.inline_objects@,
            y.markers,
            y.own,
            em,
            unit,
        ),
{
    let (a, b) = (x.para.inline_objects@, y.para.inline_objects@);
    assert(object_keys(x).len() == a.len() && object_keys(y).len() == b.len());
    assert forall|i: int| 0 <= i < a.len() implies #[trigger] object_shape(
        a[i],
        x.markers,
        x.own,
        em,
        unit,
    ) == object_shape(b[i], y.markers, y.own, em, unit) by {
        assert(object_keys(x)[i] == object_keys(y)[i]);
    }
    assert(objects_shape(a, x.markers, x.own, em, unit) =~= objects_shape(
        b,
        y.markers,
        y.own,
        em,
        unit,
    ));
}

proof fn lemma_runs_len(runs: Seq<StyleRun>, n: nat)
    ensures
        runs_words(runs, n).len() == 13 * n,
    decreases n,
{
    if n > 0 {
        lemma_runs_len(runs, (n - 1) as nat);
    }
}

proof fn lemma_links_len(links: Seq<Hyperlink>, n: nat)
    ensures
        links_words(links, n).len() == 2 * n,
    decreases n,
{
    if n > 0 {
        lemma_links_len(links, (n - 1) as nat);
    }
}

proof fn lemma_revisions_len(revs: Seq<Revision>, n: nat)
    ensures
        revisions_words(revs, n).len() == 3 * n,
    decreases n,
{
    if n > 0 {
        lemma_revisions_len(revs, (n - 1) as nat);
    }
}

proof fn lemma_split(a: Seq<u64>, b: Seq<u64>, c: Seq<u64>, d: Seq<u64>)
    requires
        a + b == c + d,
        a.len() == c.len(),
    ensures
        a == c,
        b == d,
{
    assert(a =~= (a + b).take(a.len() as int));
    assert(c =~= (c + d).take(a.len() as int));
    assert(b =~= (a + b).skip(a.len() as int));
    assert(d =~= (c + d).skip(a.len() as int));
}

proof fn lemma_runs_words(a: Seq<StyleRun>, b: Seq<StyleRun>, n: nat)
    requires
        runs_words(a, n) == runs_words(b, n),
    ensures
        forall|i: int| 0 <= i < n ==> #[trigger] a[i] == b[i],
    decreases n,
{
    if n > 0 {
        let m = (n - 1) as nat;
        lemma_runs_len(a, m);
        lemma_runs_len(b, m);
        lemma_split(runs_words(a, m), run_words(a[n - 1]), runs_words(b, m), run_words(b[n - 1]));
        lemma_runs_words(a, b, m);
        lemma_run_words(a[n - 1], b[n - 1]);
    }
}

proof fn lemma_links_words(a: Seq<Hyperlink>, b: Seq<Hyperlink>, n: nat)
    requires
        links_words(a, n) == links_words(b, n),
    ensures
        forall|i: int| 0 <= i < n ==> #[trigger] a[i] == b[i],
    decreases n,
{
    if n > 0 {
        let m = (n - 1) as nat;
        lemma_links_len(a, m);
        lemma_links_len(b, m);
        let x = seq![a[n - 1].start as u64, a[n - 1].end as u64];
        let y = seq![b[n - 1].start as u64, b[n - 1].end as u64];
        lemma_split(links_words(a, m), x, links_words(b, m), y);
        assert(x[0] == y[0] && x[1] == y[1]);
        lemma_links_words(a, b, m);
    }
}

proof fn lemma_revisions_words(a: Seq<Revision>, b: Seq<Revision>, n: nat)
    requires
        revisions_words(a, n) == revisions_words(b, n),
    ensures
        forall|i: int| 0 <= i < n ==> same_mark(#[trigger] a[i], b[i]),
    decreases n,
{
    if n > 0 {
        let m = (n - 1) as nat;
        lemma_revisions_len(a, m);
        lemma_revisions_len(b, m);
        let x = revisions_words(a, n).skip((3 * m) as int);
        let y = revisions_words(b, n).skip((3 * m) as int);
        lemma_split(revisions_words(a, m), x, revisions_words(b, m), y);
        assert(x[0] == y[0] && x[1] == y[1] && x[2] == y[2]);
        lemma_revisions_words(a, b, m);
    }
}

proof fn lemma_text_words(a: Seq<char>, b: Seq<char>)
    requires
        byte_words(encode_utf8(a)) == byte_words(encode_utf8(b)),
    ensures
        a == b,
{
    let (x, y) = (encode_utf8(a), encode_utf8(b));
    assert(byte_words(x).len() == x.len() && byte_words(y).len() == y.len());
    assert forall|i: int| 0 <= i < x.len() implies x[i] == y[i] by {
        assert(byte_words(x)[i] == x[i] as u64);
        assert(byte_words(y)[i] == y[i] as u64);
    }
    assert(x =~= y);
    vstd::utf8::encode_utf8_decode_utf8(a);
    vstd::utf8::encode_utf8_decode_utf8(b);
}

/// The words after the fixed ones.
pub open spec fn list_words(x: LayoutInput) -> Seq<u64> {
    let p = x.para;
    runs_words(p.spans@, p.spans@.len()) + (links_words(p.hyperlinks@, p.hyperlinks@.len()) + (
    revisions_words(p.revisions@, p.revisions@.len()) + (tabs_words(p.props.tab_stops@)
        + label_words(x))))
}

/// The words after the tab stops.
pub open spec fn label_words(x: LayoutInput) -> Seq<u64> {
    text_words(x.para.text@) + (text_words(x.cfg.font_id@) + (opt_text_words(
        opt_text(x.para.marker),
    ) + objects_words(object_keys(x))))
}

#[verifier::rlimit(50)]
proof fn lemma_words_apart(x: LayoutInput)
    ensures
        layout_words(x) == fixed_words(x) + list_words(x),
{
    let p = x.para;
    let a = fixed_words(x);
    let b = runs_words(p.spans@, p.spans@.len());
    let c = links_words(p.hyperlinks@, p.hyperlinks@.len());
    let d = revisions_words(p.revisions@, p.revisions@.len());
    let e = tabs_words(p.props.tab_stops@);
    let f = text_words(p.text@);
    let g = text_words(x.cfg.font_id@);
    let h = opt_text_words(opt_text(p.marker));
    let i = objects_words(object_keys(x));
    assert(f + g + h + i =~= label_words(x));
    assert(a + b + c + d + e + f + g + h + i =~= a + b + c + d + e + (f + g + h + i));
    assert(a + b + c + d + e + label_words(x) =~= a + list_words(x));
}

/// The words of the fixed settings tell them apart.
proof fn lemma_fixed_words(x: LayoutInput, y: LayoutInput)
    requires
        fixed_words(x) == fixed_words(y),
    ensures
        props_words(x.para) == props_words(y.para),
        config_words(x.cfg, x.scale, x.width) == config_words(y.cfg, y.scale, y.width),
        count_words(x.para) == count_words(y.para),
        x.para.auto_direction == y.para.auto_direction,
        x.para.props.alignment == y.para.props.alignment,
        x.para.props.direction == y.para.props.direction,
        x.para.props.indent == y.para.props.indent,
        x.para.props.line_height == y.para.props.line_height,
        x.cfg.base_direction == y.cfg.base_direction,
        x.cfg.px_size_bits == y.cfg.px_size_bits,
        x.cfg.line_height_bits == y.cfg.line_height_bits,
        x.cfg.alignment == y.cfg.alignment,
        x.scale == y.scale,
        x.width == y.width,
        x.para.spans@.len() as u64 == y.para.spans@.len() as u64,
        x.para.hyperlinks@.len() as u64 == y.para.hyperlinks@.len() as u64,
        x.para.revisions@.len() as u64 == y.para.revisions@.len() as u64,
        x.para.props.tab_stops@.len() as u64 == y.para.props.tab_stops@.len() as u64,
        x.para.inline_objects@.len() as u64 == y.para.inline_objects@.len() as u64,
{
    let (s1, t1) = (props_words(x.para), props_words(y.para));
    let (s2, t2) = (
        config_words(x.cfg, x.scale, x.width),
        config_words(y.cfg, y.scale, y.width),
    );
    let (s3, t3) = (count_words(x.para), count_words(y.para));
    lemma_split(s1 + s2, s3, t1 + t2, t3);
    lemma_split(s1, s2, t1, t2);
    assert(s1[0] == t1[0] && s1[1] == t1[1] && s1[2] == t1[2] && s1[3] == t1[3] && s1[4] == t1[4]
        && s1[5] == t1[5] && s1[6] == t1[6] && s1[7] == t1[7]);
    assert(s2[0] == t2[0] && s2[1] == t2[1] && s2[2] == t2[2] && s2[3] == t2[3] && s2[4] == t2[4]
        && s2[5] == t2[5]);
    assert(s3[0] == t3[0] && s3[1] == t3[1] && s3[2] == t3[2] && s3[3] == t3[3] && s3[4] == t3[4]);
}

/// A text's length is a word.
pub open spec fn fits_word(text: Seq<char>) -> bool {
    encode_utf8(text).len() <= u64::MAX
}

/// The lengths of all texts that a layout depends on are words.
pub open spec fn input_fits(x: LayoutInput) -> bool {
    &&& fits_word(x.para.text@)
    &&& fits_word(x.cfg.font_id@)
    &&& x.para.marker is Some ==> fits_word(x.para.marker->0@)
    &&& forall|i: int|
        0 <= i < object_keys(x).len() ==> fits_word((#[trigger] object_keys(x)[i]).label)
}

/// The words under a layout's key tell layouts apart: they are equal exactly
/// when everything that the layouts depend on is.
#[verifier::rlimit(50)]
pub proof fn law_key_words_tell_layouts_apart(x: LayoutInput, y: LayoutInput)
    requires
        input_fits(x),
        input_fits(y),
    ensures
        layout_words(x) == layout_words(y) <==> same_layout(x, y),
{
    let (p, q) = (x.para, y.para);
    lemma_words_apart(x);
    lemma_words_apart(y);
    if layout_words(x) == layout_words(y) {
        assert(fixed_words(x).len() == fixed_words(y).len());
        lemma_split(fixed_words(x), list_words(x), fixed_words(y), list_words(y));
        lemma_fixed_words(x, y);
        lemma_list_words(x, y);
    }
    if same_layout(x, y) {
        lemma_same_revisions(p.revisions@, q.revisions@, p.revisions@.len());
        assert(tabs_words(p.props.tab_stops@) =~= tabs_words(q.props.tab_stops@));
        assert(object_keys(x).len() == p.inline_objects@.len());
        assert(object_keys(y).len() == q.inline_objects@.len());
        assert(props_words(p) =~= props_words(q));
        assert(config_words(x.cfg, x.scale, x.width) =~= config_words(y.cfg, y.scale, y.width));
        assert(count_words(p) =~= count_words(q));
    }
}

proof fn lemma_same_revisions(a: Seq<Revision>, b: Seq<Revision>, n: nat)
    requires
        n <= a.len() == b.len(),
        forall|i: int| 0 <= i < a.len() ==> same_mark(#[trigger] a[i], b[i]),
    ensures
        revisions_words(a, n) == revisions_words(b, n),
    decreases n,
{
    if n > 0 {
        lemma_same_revisions(a, b, (n - 1) as nat);
        assert(same_mark(a[n - 1], b[n - 1]));
    }
}

proof fn lemma_list_words(x: LayoutInput, y: LayoutInput)
    requires
        list_words(x) == list_words(y),
        count_words(x.para) == count_words(y.para),
        x.para.spans@.len() as u64 == y.para.spans@.len() as u64,
        x.para.hyperlinks@.len() as u64 == y.para.hyperlinks@.len() as u64,
        x.para.revisions@.len() as u64 == y.para.revisions@.len() as u64,
        x.para.props.tab_stops@.len() as u64 == y.para.props.tab_stops@.len() as u64,
        x.para.inline_objects@.len() as u64 == y.para.inline_objects@.len() as u64,
        input_fits(x),
        input_fits(y),
    ensures
        x.para.text@ == y.para.text@,
        x.cfg.font_id@ == y.cfg.font_id@,
        opt_text(x.para.marker) == opt_text(y.para.marker),
        object_keys(x) == object_keys(y),
        x.para.spans@ == y.para.spans@,
        x.para.hyperlinks@ == y.para.hyperlinks@,
        x.para.revisions@.len() == y.para.revisions@.len(),
        forall|i: int|
            0 <= i < x.para.revisions@.len() ==> same_mark(
                #[trigger] x.para.revisions@[i],
                y.para.revisions@[i],
            ),
        x.para.props.tab_stops@.len() == y.para.props.tab_stops@.len(),
        forall|i: int|
            0 <= i < x.para.props.tab_stops@.len() ==> (
            #[trigger] x.para.props.tab_stops@[i]).position_bits
                == y.para.props.tab_stops@[i].position_bits && x.para.props.tab_stops@[i].kind
                == y.para.props.tab_stops@[i].kind,
{
    let (p, q) = (x.para, y.para);
    assert(p.spans.len() == p.spans@.len() && q.spans.len() == q.spans@.len());
    assert(p.hyperlinks.len() == p.hyperlinks@.len() && q.hyperlinks.len() == q.hyperlinks@.len());
    assert(p.revisions.len() == p.revisions@.len() && q.revisions.len() == q.revisions@.len());
    assert(p.props.tab_stops.len() == p.props.tab_stops@.len() && q.props.tab_stops.len()
        == q.props.tab_stops@.len());
    assert(p.inline_objects.len() == p.inline_objects@.len() && q.inline_objects.len()
        == q.inline_objects@.len());
    let (n1, n2, n3) = (p.spans@.len(), p.hyperlinks@.len(), p.revisions@.len());
    let (tx, ty) = (label_words(x), label_words(y));
    let (dx, dy) = (tabs_words(p.props.tab_stops@) + tx, tabs_words(q.props.tab_stops@) + ty);
    let (cx, cy) = (
        revisions_words(p.revisions@, n3) + dx,
        revisions_words(q.revisions@, n3) + dy,
    );
    let (bx, by) = (links_words(p.hyperlinks@, n2) + cx, links_words(q.hyperlinks@, n2) + cy);
    lemma_runs_len(p.spans@, n1);
    lemma_runs_len(q.spans@, n1);
    lemma_split(runs_words(p.spans@, n1), bx, runs_words(q.spans@, n1), by);
    lemma_runs_words(p.spans@, q.spans@, n1);
    assert(p.spans@ =~= q.spans@);
    lemma_links_len(p.hyperlinks@, n2);
    lemma_links_len(q.hyperlinks@, n2);
    lemma_split(links_words(p.hyperlinks@, n2), cx, links_words(q.hyperlinks@, n2), cy);
    lemma_links_words(p.hyperlinks@, q.hyperlinks@, n2);
    assert(p.hyperlinks@ =~= q.hyperlinks@);
    lemma_revisions_len(p.revisions@, n3);
    lemma_revisions_len(q.revisions@, n3);
    lemma_split(revisions_words(p.revisions@, n3), dx, revisions_words(q.revisions@, n3), dy);
    lemma_revisions_words(p.revisions@, q.revisions@, n3);
    lemma_split(
        tabs_words(p.props.tab_stops@),
        tx,
        tabs_words(q.props.tab_stops@),
        ty,
    );
    assert forall|i: int| 0 <= i < p.props.tab_stops@.len() implies (
    #[trigger] p.props.tab_stops@[i]).position_bits == q.props.tab_stops@[i].position_bits
        && p.props.tab_stops@[i].kind == q.props.tab_stops@[i].kind by {
        assert(tabs_words(p.props.tab_stops@)[i] == tabs_words(q.props.tab_stops@)[i]);
        assert(tab_word(p.props.tab_stops@[i]) == tab_word(q.props.tab_stops@[i]));
    }
    lemma_label_words(x, y);
}

proof fn lemma_label_words(x: LayoutInput, y: LayoutInput)
    requires
        label_words(x) == label_words(y),
        object_keys(x).len() == object_keys(y).len(),
        input_fits(x),
        input_fits(y),
    ensures
        x.para.text@ == y.para.text@,
        x.cfg.font_id@ == y.cfg.font_id@,
        opt_text(x.para.marker) == opt_text(y.para.marker),
        object_keys(x) == object_keys(y),
{
    let (ox, oy) = (objects_words(object_keys(x)), objects_words(object_keys(y)));
    let (mx, my) = (opt_text(x.para.marker), opt_text(y.para.marker));
    let (cx, cy) = (opt_text_words(mx) + ox, opt_text_words(my) + oy);
    let (bx, by) = (text_words(x.cfg.font_id@) + cx, text_words(y.cfg.font_id@) + cy);
    lemma_text_first(x.para.text@, bx, y.para.text@, by);
    lemma_text_first(x.cfg.font_id@, cx, y.cfg.font_id@, cy);
    assert(cx[0] == opt_text_words(mx)[0] && cy[0] == opt_text_words(my)[0]);
    match (mx, my) {
        (Some(a), Some(b)) => {
            assert(cx =~= seq![1u64] + (text_words(a) + ox));
            assert(cy =~= seq![1u64] + (text_words(b) + oy));
            lemma_split(seq![1u64], text_words(a) + ox, seq![1u64], text_words(b) + oy);
            lemma_text_first(a, ox, b, oy);
        },
        (None, None) => {
            lemma_split(seq![0u64], ox, seq![0u64], oy);
        },
        _ => {},
    }
    lemma_objects_words(object_keys(x), object_keys(y));
}

/// A text in front of other words can be told from them.
proof fn lemma_text_first(a: Seq<char>, x: Seq<u64>, b: Seq<char>, y: Seq<u64>)
    requires
        text_words(a) + x == text_words(b) + y,
        fits_word(a),
        fits_word(b),
    ensures
        a == b,
        x == y,
{
    assert((text_words(a) + x)[0] == encode_utf8(a).len() as u64);
    assert((text_words(b) + y)[0] == encode_utf8(b).len() as u64);
    assert(text_words(a).len() == encode_utf8(a).len() + 1);
    assert(text_words(b).len() == encode_utf8(b).len() + 1);
    lemma_split(text_words(a), x, text_words(b), y);
    assert(byte_words(encode_utf8(a)) =~= text_words(a).skip(1));
    assert(byte_words(encode_utf8(b)) =~= text_words(b).skip(1));
    lemma_text_words(a, b);
}

/// The words of inline objects tell them apart.
proof fn lemma_objects_words(a: Seq<ObjectKey>, b: Seq<ObjectKey>)
    requires
        objects_words(a) == objects_words(b),
        a.len() == b.len(),
        forall|i: int| 0 <= i < a.len() ==> fits_word((#[trigger] a[i]).label),
        forall|i: int| 0 <= i < b.len() ==> fits_word((#[trigger] b[i]).label),
    ensures
        a == b,
    decreases a.len(),
{
    if a.len() == 0 {
        assert(a =~= b);
    } else {
        let (k, l) = (a[0], b[0]);
        let (rx, ry) = (objects_words(a.drop_first()), objects_words(b.drop_first()));
        let hx = seq![k.at as u64, tag_word(k.tag), emu_word(k.width_emu), emu_word(k.height_emu)];
        let hy = seq![l.at as u64, tag_word(l.tag), emu_word(l.width_emu), emu_word(l.height_emu)];
        assert(objects_words(a) =~= hx + (text_words(k.label) + rx));
        assert(objects_words(b) =~= hy + (text_words(l.label) + ry));
        lemma_split(hx, text_words(k.label) + rx, hy, text_words(l.label) + ry);
        assert(hx[0] == hy[0] && hx[1] == hy[1] && hx[2] == hy[2] && hx[3] == hy[3]);
        lemma_text_first(k.label, rx, l.label, ry);
        assert(k == l);
        let (s, t) = (a.drop_first(), b.drop_first());
        assert forall|i: int| 0 <= i < s.len() implies fits_word((#[trigger] s[i]).label) by {
            assert(s[i] == a[i + 1]);
        }
        assert forall|i: int| 0 <= i < t.len() implies fits_word((#[trigger] t[i]).label) by {
            assert(t[i] == b[i + 1]);
        }
        lemma_objects_words(s, t);
        assert(a =~= seq![k] + s);
        assert(b =~= seq![l] + t);
    }
}

/// The hash builder of the `lru` crate's caches.
#[verifier::external_type_specification]
#[verifier::external_body]
pub struct ExHashBuilder(lru::DefaultHasher);

/// The cache type of the `lru` crate.
#[verifier::external_type_specification]
#[verifier::external_body]
#[verifier::reject_recursive_types(K)]
#[verifier::reject_recursive_types(V)]
#[verifier::reject_recursive_types(S)]
pub struct ExLruCache<K, V, S>(lru::LruCache<K, V, S>);

/// The entries of a cache, the most recently used first.
pub uninterp spec fn cache_entries(c: LruCache<u64, u64>) -> Seq<(u64, u64)>;

/// The number of entries that a cache was made to hold.
pub uninterp spec fn cache_capacity(c: LruCache<u64, u64>) -> nat;

/// The place of the first entry with a key.
pub open spec fn entry_of(entries: Seq<(u64, u64)>, key: u64) -> Option<int>
    decreases entries.len(),
{
    if entries.len() == 0 {
        None
    } else if entries[0].0 == key {
        Some(0)
    } else {
        match entry_of(entries.drop_first(), key) {
            Some(i) => Some(i + 1),
            None => None,
        }
    }
}

/// The value kept under a key.
pub open spec fn value_of(entries: Seq<(u64, u64)>, key: u64) -> Option<u64> {
    match entry_of(entries, key) {
        Some(i) => Some(entries[i].1),
        None => None,
    }
}

/// The entries after a key was asked for: its entry moves to the front.
pub open spec fn touched(entries: Seq<(u64, u64)>, key: u64) -> Seq<(u64, u64)> {
    match entry_of(entries, key) {
        Some(i) => seq![entries[i]] + entries.remove(i),
        None => entries,
    }
}

/// The entries after a value was kept under a key: the entry stands at the
/// front, in place of one with that key, else in place of the least recently
/// used one where the cache is full.
pub open spec fn kept(entries: Seq<(u64, u64)>, capacity: nat, key: u64, value: u64) -> Seq<
    (u64, u64),
> {
    match entry_of(entries, key) {
        Some(i) => seq![(key, value)] + entries.remove(i),
        None => seq![(key, value)] + (if entries.len() == capacity {
            entries.drop_last()
        } else {
            entries
        }),
    }
}

/// An empty cache, made by `LruCache::new`. It holds no entries and keeps at
/// most `cap` of them. Storage for `cap` entries is set aside at once, so `cap`
/// is bounded here.
#[verifier::external_body]
fn new_cache(cap: usize) -> (r: LruCache<u64, u64>)
    requires
        0 < cap <= 0x10_0000,
    ensures
        cache_entries(r) == Seq::<(u64, u64)>::empty(),
        cache_capacity(r) == cap,
{
    LruCache::new(NonZeroUsize::new(cap).unwrap())
}

/// Ask for a key with `LruCache::get`, which gives the value kept under it and
/// moves its entry to the head of the list.
#[verifier::external_body]
fn cache_get(c: &mut LruCache<u64, u64>, key: u64) -> (r: Option<u64>)
    ensures
        r == value_of(cache_entries(*old(c)), key),
        cache_entries(*final(c)) == touched(cache_entries(*old(c)), key),
        cache_capacity(*final(c)) == cache_capacity(*old(c)),
{
    c.get(&key).copied()
}

/// Keep a value under a key with `LruCache::put`: an entry with that key gets
/// the value and moves to the head of the list; else a new entry goes there,
/// and a full cache loses its last entry.
#[verifier::external_body]
fn cache_put(c: &mut LruCache<u64, u64>, key: u64, value: u64)
    ensures
        cache_entries(*final(c)) == kept(
            cache_entries(*old(c)),
            cache_capacity(*old(c)),
            key,
            value,
        ),
        cache_capacity(*final(c)) == cache_capacity(*old(c)),
{
    c.put(key, value);
}

/// Drop all entries with `LruCache::clear`.
#[verifier::external_body]
fn cache_clear(c: &mut LruCache<u64, u64>)
    ensures
        cache_entries(*final(c)) == Seq::<(u64, u64)>::empty(),
        cache_capacity(*final(c)) == cache_capacity(*old(c)),
{
    c.clear();
}

/// The layouts kept for reuse: numbers of laid-out paragraphs under their
/// layout keys.
pub struct LayoutCache {
    inner: LruCache<u64, u64>,
}

/// No two entries have the same key.
pub open spec fn distinct_keys(entries: Seq<(u64, u64)>) -> bool {
    forall|i: int, j: int|
        0 <= i < j < entries.len() ==> (#[trigger] entries[i]).0 != (#[trigger] entries[j]).0
}

/// The entries of a cache that keeps at most `cap` of them, each under a key
/// of its own.
pub open spec fn cache_ok(entries: Seq<(u64, u64)>, cap: nat) -> bool {
    distinct_keys(entries) && entries.len() <= cap && cap > 0
}

impl View for LayoutCache {
    type V = Seq<(u64, u64)>;

    closed spec fn view(&self) -> Seq<(u64, u64)> {
        cache_entries(self.inner)
    }
}

impl LayoutCache {
    /// The cache holds its bound and has no key twice.
    pub closed spec fn wf(&self) -> bool {
        cache_capacity(self.inner) == LAYOUT_CACHE_CAP && cache_ok(
            cache_entries(self.inner),
            LAYOUT_CACHE_CAP as nat,
        )
    }

    /// An empty cache.
    pub fn new() -> (r: Self)
        ensures
            r.wf(),
            r@ == Seq::<(u64, u64)>::empty(),
    {
        LayoutCache { inner: new_cache(LAYOUT_CACHE_CAP) }
    }

    /// The layout kept under a key, which thereby counts as just used.
    pub fn lookup(&mut self, key: u64) -> (r: Option<u64>)
        requires
            old(self).wf(),
        ensures
            final(self).wf(),
            r == value_of(old(self)@, key),
            final(self)@ == touched(old(self)@, key),
    {
        let r = cache_get(&mut self.inner, key);
        proof {
            law_cache_keeps_its_shape(old(self)@, LAYOUT_CACHE_CAP as nat, key, 0);
        }
        r
    }

    /// Keep a layout under a key.
    pub fn remember(&mut self, key: u64, layout: u64)
        requires
            old(self).wf(),
        ensures
            final(self).wf(),
            final(self)@ == kept(old(self)@, LAYOUT_CACHE_CAP as nat, key, layout),
    {
        cache_put(&mut self.inner, key, layout);
        proof {
            law_cache_keeps_its_shape(old(self)@, LAYOUT_CACHE_CAP as nat, key, layout);
        }
    }

    /// Forget all layouts.
    pub fn clear(&mut self)
        requires
            old(self).wf(),
        ensures
            final(self).wf(),
            final(self)@ == Seq::<(u64, u64)>::empty(),
    {
        cache_clear(&mut self.inner);
    }
}

proof fn lemma_entry_of(entries: Seq<(u64, u64)>, key: u64)
    ensures
        match entry_of(entries, key) {
            Some(i) => 0 <= i < entries.len() && entries[i].0 == key,
            None => forall|j: int| 0 <= j < entries.len() ==> (#[trigger] entries[j]).0 != key,
        },
    decreases entries.len(),
{
    if entries.len() > 0 && entries[0].0 != key {
        let rest = entries.drop_first();
        lemma_entry_of(rest, key);
        assert forall|j: int| 0 <= j < entries.len() && entry_of(entries, key) is None implies (
        #[trigger] entries[j]).0 != key by {
            if j > 0 {
                assert(rest[j - 1] == entries[j]);
            }
        }
    }
}

proof fn lemma_entry_is(entries: Seq<(u64, u64)>, key: u64, k: int)
    requires
        distinct_keys(entries),
        0 <= k < entries.len(),
        entries[k].0 == key,
    ensures
        entry_of(entries, key) == Some(k),
{
    lemma_entry_of(entries, key);
    let i = entry_of(entries, key)->0;
    if i < k {
        assert(entries[i].0 != entries[k].0);
    } else if k < i {
        assert(entries[k].0 != entries[i].0);
    }
}

/// Asking and keeping leave a cache with its bound and without repeated keys.
pub proof fn law_cache_keeps_its_shape(entries: Seq<(u64, u64)>, cap: nat, key: u64, value: u64)
    requires
        cache_ok(entries, cap),
    ensures
        cache_ok(touched(entries, key), cap),
        cache_ok(kept(entries, cap, key, value), cap),
{
    lemma_entry_of(entries, key);
    match entry_of(entries, key) {
        Some(k) => {
            let rest = entries.remove(k);
            assert forall|i: int| 0 <= i < rest.len() implies (#[trigger] rest[i]).0 != key by {
                let at = if i < k {
                    i
                } else {
                    i + 1
                };
                assert(rest[i] == entries[at]);
                if at < k {
                    assert(entries[at].0 != entries[k].0);
                } else {
                    assert(entries[k].0 != entries[at].0);
                }
            }
            assert forall|i: int, j: int| 0 <= i < j < rest.len() implies (#[trigger] rest[i]).0
                != (#[trigger] rest[j]).0 by {
                let a = if i < k {
                    i
                } else {
                    i + 1
                };
                let b = if j < k {
                    j
                } else {
                    j + 1
                };
                assert(entries[a].0 != entries[b].0);
            }
            lemma_front(rest, (key, value));
            lemma_front(rest, entries[k]);
        },
        None => {
            let rest = if entries.len() == cap {
                entries.drop_last()
            } else {
                entries
            };
            assert forall|i: int, j: int| 0 <= i < j < rest.len() implies (#[trigger] rest[i]).0
                != (#[trigger] rest[j]).0 by {
                assert(entries[i].0 != entries[j].0);
            }
            assert forall|i: int| 0 <= i < rest.len() implies (#[trigger] rest[i]).0 != key by {
                assert(rest[i] == entries[i]);
            }
            lemma_front(rest, (key, value));
        },
    }
}

proof fn lemma_front(rest: Seq<(u64, u64)>, e: (u64, u64))
    requires
        distinct_keys(rest),
        forall|i: int| 0 <= i < rest.len() ==> (#[trigger] rest[i]).0 != e.0,
    ensures
        distinct_keys(seq![e] + rest),
{
    let all = seq![e] + rest;
    assert forall|i: int, j: int| 0 <= i < j < all.len() implies (#[trigger] all[i]).0 != (
    #[trigger] all[j]).0 by {
        assert(all[j] == rest[j - 1]);
        if i > 0 {
            assert(all[i] == rest[i - 1]);
        }
    }
}

/// A layout kept under a key is found under it.
pub proof fn law_kept_is_found(entries: Seq<(u64, u64)>, cap: nat, key: u64, value: u64)
    ensures
        value_of(kept(entries, cap, key, value), key) == Some(value),
{
}

/// Asking for one key changes what is found under none.
pub proof fn law_asking_changes_no_value(entries: Seq<(u64, u64)>, cap: nat, key: u64, other: u64)
    requires
        cache_ok(entries, cap),
    ensures
        value_of(touched(entries, key), other) == value_of(entries, other),
{
    lemma_entry_of(entries, key);
    lemma_entry_of(entries, other);
    law_cache_keeps_its_shape(entries, cap, key, 0);
    let after = touched(entries, key);
    lemma_entry_of(after, other);
    if let Some(k) = entry_of(entries, key) {
        match entry_of(entries, other) {
            Some(i) => {
                let at = if i == k {
                    0
                } else if i < k {
                    i + 1
                } else {
                    i
                };
                assert(after[at] == entries[i]);
                lemma_entry_is(after, other, at);
            },
            None => {
                assert forall|j: int| 0 <= j < after.len() implies (#[trigger] after[j]).0
                    != other by {
                    let at = if j == 0 {
                        k
                    } else if j - 1 < k {
                        j - 1
                    } else {
                        j
                    };
                    assert(after[j] == entries[at]);
                }
            },
        }
    }
}

/// Keeping a layout leaves what is found under the other keys, but for the
/// least recently used one of a full cache.
pub proof fn law_keeping_spares_the_others(
    entries: Seq<(u64, u64)>,
    cap: nat,
    key: u64,
    value: u64,
    other: u64,
)
    requires
        cache_ok(entries, cap),
        other != key,
        entries.len() < cap || entry_of(entries, key) is Some || entries.last().0 != other,
    ensures
        value_of(kept(entries, cap, key, value), other) == value_of(entries, other),
{
    lemma_entry_of(entries, key);
    lemma_entry_of(entries, other);
    law_cache_keeps_its_shape(entries, cap, key, value);
    let after = kept(entries, cap, key, value);
    lemma_entry_of(after, other);
    match entry_of(entries, other) {
        Some(i) => {
            let at = match entry_of(entries, key) {
                Some(k) => if i < k {
                    i + 1
                } else {
                    i
                },
                None => i + 1,
            };
            assert(after[at] == entries[i]);
            lemma_entry_is(after, other, at);
        },
        None => {
            assert forall|j: int| 0 <= j < after.len() implies (#[trigger] after[j]).0 != other by {
                if j > 0 {
                    let at = match entry_of(entries, key) {
                        Some(k) => if j - 1 < k {
                            j - 1
                        } else {
                            j
                        },
                        None => j - 1,
                    };
                    assert(after[j] == entries[at]);
                }
            }
        },
    }
}

/// Layouts with the same key words agree in everything that a layout is made
/// of, thing by thing.
pub proof fn law_key_words_hold_each_input(x: LayoutInput, y: LayoutInput)
    requires
        input_fits(x),
        input_fits(y),
        layout_words(x) == layout_words(y),
    ensures
        x.para.text@ == y.para.text@,
        x.para.spans@ == y.para.spans@,
        x.para.hyperlinks@ == y.para.hyperlinks@,
        x.para.auto_direction == y.para.auto_direction,
        x.para.props.alignment == y.para.props.alignment,
        x.para.props.direction == y.para.props.direction,
        x.para.props.indent == y.para.props.indent,
        x.para.props.line_height == y.para.props.line_height,
        x.para.props.tab_stops@.len() == y.para.props.tab_stops@.len(),
        x.para.revisions@.len() == y.para.revisions@.len(),
        forall|i: int|
            0 <= i < x.para.revisions@.len() ==> (#[trigger] x.para.revisions@[i]).start
                == y.para.revisions@[i].start && x.para.revisions@[i].end
                == y.para.revisions@[i].end && x.para.revisions@[i].kind
                == y.para.revisions@[i].kind,
        forall|i: int|
            0 <= i < x.para.props.tab_stops@.len() ==> (
            #[trigger] x.para.props.tab_stops@[i]).position_bits
                == y.para.props.tab_stops@[i].position_bits && x.para.props.tab_stops@[i].kind
                == y.para.props.tab_stops@[i].kind,
        x.para.marker is Some == y.para.marker is Some,
        x.para.marker is Some ==> x.para.marker->0@ == y.para.marker->0@,
        x.para.inline_objects@.len() == y.para.inline_objects@.len(),
        x.cfg.font_id@ == y.cfg.font_id@,
        x.cfg.base_direction == y.cfg.base_direction,
        x.cfg.px_size_bits == y.cfg.px_size_bits,
        x.cfg.line_height_bits == y.cfg.line_height_bits,
        x.cfg.alignment == y.cfg.alignment,
        x.scale == y.scale,
        x.width == y.width,
{
    law_key_words_tell_layouts_apart(x, y);
    assert(object_keys(x).len() == x.para.inline_objects@.len());
    assert(object_keys(y).len() == y.para.inline_objects@.len());
    assert forall|i: int| 0 <= i < x.para.revisions@.len() implies (
    #[trigger] x.para.revisions@[i]).start == y.para.revisions@[i].start
        && x.para.revisions@[i].end == y.para.revisions@[i].end && x.para.revisions@[i].kind
        == y.para.revisions@[i].kind by {
        assert(same_mark(x.para.revisions@[i], y.para.revisions@[i]));
    }
}

/// An inline object is told apart by its place, its size and what stands for
/// it: pictures and text boxes by their names, notes by their marks.
pub proof fn law_objects_are_told_apart(
    a: InlineObject,
    b: InlineObject,
    markers: Seq<NoteMarker>,
    own: Seq<char>,
)
    requires
        object_key(a, markers, own) == object_key(b, markers, own),
    ensures
        a.at == b.at,
        (a.kind is Image) == (b.kind is Image),
        (a.kind is TextBox) == (b.kind is TextBox),
        a.kind matches InlineKind::Image { rel_id, width_emu, height_emu, .. } ==> (
        b.kind matches InlineKind::Image { rel_id: r, width_emu: w, height_emu: h, .. } && r@
            == rel_id@ && w == width_emu && h == height_emu),
        a.kind matches InlineKind::TextBox { id, width_emu, height_emu, .. } ==> (
        b.kind matches InlineKind::TextBox { id: r, width_emu: w, height_emu: h, .. } && r@ == id@
            && w == width_emu && h == height_emu),
        a.kind matches InlineKind::NoteSelfRef { .. } ==> object_key(a, markers, own).label == own,
        a.kind matches InlineKind::NoteRef { kind, id } ==> object_key(a, markers, own).label
            == marker_of(markers, kind, id),
{
}

/// What was asked for or kept last stands at the front, the others keep their
/// order behind it, and where the cache is full the one at the back goes.
pub proof fn law_last_used_stays_longest(
    entries: Seq<(u64, u64)>,
    cap: nat,
    key: u64,
    value: u64,
)
    requires
        cache_ok(entries, cap),
    ensures
        entry_of(entries, key) is Some ==> touched(entries, key).len() == entries.len() && touched(
            entries,
            key,
        )[0].0 == key,
        entry_of(entries, key) is None ==> touched(entries, key) == entries,
        kept(entries, cap, key, value)[0] == (key, value),
        entry_of(entries, key) is Some ==> kept(entries, cap, key, value).len() == entries.len(),
        entry_of(entries, key) is None && entries.len() < cap ==> kept(
            entries,
            cap,
            key,
            value,
        ).drop_first() == entries,
        entry_of(entries, key) is None && entries.len() == cap ==> kept(
            entries,
            cap,
            key,
            value,
        ).drop_first() == entries.drop_last(),
{
    lemma_entry_of(entries, key);
    let after = kept(entries, cap, key, value);
    if entry_of(entries, key) is None {
        if entries.len() == cap {
            assert(after.drop_first() =~= entries.drop_last());
        } else {
            assert(after.drop_first() =~= entries);
        }
    }
}

} // verus!
