//! What a layout starts from and what is made of it: styled spans, the layout
//! cache, page breaks, tables, pages and the scroll bar.

use wordcore::a11y::{check_blocks, check_stories, NoteMarker, NoteStory};
use wordcore::boxes::{
    CellBox, Glyph, LayoutBlock, LineBox, PageBox, ParagraphBox, RowBox, TableBox, VisualRun,
};
use wordcore::cache::{key_words, paragraph_layout_key, LayoutCache, RenderConfig};
use wordcore::command::{
    BridgeBorderStroke, BridgeBorderStyle, BridgeCellBorders, BridgeTabKind, PageOrientation,
};
use wordcore::common::{
    Alignment, BlockPath, Color, Direction, LogicalPos, PathStep, Rect, UnderlineStyle,
};
use wordcore::dispatch::Real;
use wordcore::document::{
    Block, CellProps, FontFamily, Hyperlink, InlineKind, InlineObject, NoteKind, Paragraph,
    Revision, RevisionKind, Spacing, SpanStyle, StyleRun, TabStop, Table, TableCell, TableRow, VMergeRole,
    VertAlign,
};
use wordcore::field::Field;
use wordcore::paging::{
    attach_block_paths, check_layout, measure_pages, page_tops, LayoutError, LazyLayoutInfo,
    PageAction, Pager, SectionSpan,
};
use wordcore::pipeline::{
    band_input, band_is_empty, build_inline_object_infos, cell_input, collect_footnote_refs,
    composed_paragraph_spans, composition_applies, compute_page_break_lines, footnote_text,
    layout_align, note_input, note_size, paragraph_frame, paragraph_input, paragraph_spans,
    props_to_layout_indents, splice_text, tab_stops_to_layout, CompositionState, InlineInfoKind,
    ParagraphFrame,
};
use wordcore::section::{section_geometry_for_caret, SectionSetup};
use wordcore::source_ids::{assign_source_ids_blocks, ids_after};
use wordcore::spans::{
    check_runs, apply_hyperlink_overlay, apply_revision_overlay, build_style_spans, composition_layout_spans,
    font_family_id, lowercase_flags, parse_font_family, split_small_caps, SpanSize, StyleSpan,
};
use wordcore::tables::{
    autofit_distribute, column_count, layout_table, measure_width, stack_blocks, table_columns,
    twips_to_units, width_of_cell, width_of_content, width_of_table, CellSpec, Edges, RowHeight,
    RowSpec, TableSpec, VerticalAlign,
};
use wordcore::viewport::{
    cull_budget, estimated_height, paint_region, render_stats, set_page_canvas, DisplayScale,
    LastPaintDims, LazyLayoutState,
};

const BLACK: Color = Color { r: 0, g: 0, b: 0, a: 255 };

fn para(text: &str) -> Paragraph {
    Paragraph::plain(text.to_string(), None)
}

fn ends(spans: &[StyleSpan]) -> Vec<(u32, u32)> {
    spans.iter().map(|s| (s.start, s.end)).collect()
}

#[test]
fn composition_spans_splice_and_underline() {
    let p = para("abcdef");
    let spans = composition_layout_spans(&p, 3, 3);
    assert_eq!(spans.len(), 3, "split + composition span");
    assert_eq!((spans[0].start, spans[0].end), (0, 3));
    assert!(!spans[0].underline.is_visible());
    assert_eq!((spans[1].start, spans[1].end), (3, 6));
    assert!(spans[1].underline.is_visible(), "composition span must be underlined");
    assert_eq!((spans[2].start, spans[2].end), (6, 9));
    assert!(!spans[2].underline.is_visible());
}

#[test]
fn composition_spans_at_paragraph_end() {
    let p = para("abc");
    let spans = composition_layout_spans(&p, 3, 2);
    assert_eq!(spans.len(), 2);
    assert_eq!((spans[0].start, spans[0].end), (0, 3));
    assert_eq!((spans[1].start, spans[1].end), (3, 5));
    assert!(spans[1].underline.is_visible());
}

fn config() -> RenderConfig {
    RenderConfig {
        font_id: "f".to_string(),
        base_direction: Direction::Ltr,
        px_size_bits: 16.0_f32.to_bits(),
        line_height_bits: 24.0_f32.to_bits(),
        alignment: Alignment::Start,
    }
}

fn layout_key(p: &Paragraph, scale: f32, width: f32) -> u64 {
    let (scale, width) = (scale.to_bits(), width.to_bits());
    paragraph_layout_key(p, &config(), scale, width, &Vec::new(), &String::new())
}

#[test]
fn paragraph_layout_key_is_content_sensitive() {
    let a = para("hello world");
    assert_eq!(layout_key(&a, 1.0, 451.0), layout_key(&a, 1.0, 451.0));
    assert_ne!(layout_key(&a, 1.0, 451.0), layout_key(&para("hello there"), 1.0, 451.0));
    let mut centered = para("hello world");
    centered.props.alignment = Some(Alignment::Center);
    assert_ne!(layout_key(&a, 1.0, 451.0), layout_key(&centered, 1.0, 451.0));
    assert_ne!(layout_key(&a, 1.0, 451.0), layout_key(&a, 2.0, 451.0));
    assert_ne!(layout_key(&a, 1.0, 451.0), layout_key(&a, 1.0, 220.0));
}

#[test]
fn the_key_also_sees_styles_and_tab_stops() {
    let plain = para("hello");
    let mut styled = para("hello");
    let caps = SpanStyle { caps: Some(true), ..SpanStyle::default() };
    styled.spans.push(StyleRun { start: 0, end: 5, style: caps });
    let mut tabbed = para("hello");
    tabbed.props.tab_stops.push(TabStop {
        position_bits: 36.0_f32.to_bits(),
        kind: BridgeTabKind::Left,
        leader: None,
    });
    let keys = [
        layout_key(&plain, 1.0, 451.0),
        layout_key(&styled, 1.0, 451.0),
        layout_key(&tabbed, 1.0, 451.0),
    ];
    assert!(keys[0] != keys[1] && keys[1] != keys[2] && keys[0] != keys[2]);
    let words = |p: &Paragraph| key_words(p, &config(), 0, 0, &Vec::new(), &String::new());
    assert_ne!(words(&plain), words(&tabbed));
}

#[test]
fn the_key_also_sees_markers_and_inline_objects() {
    let picture = |rel_id: &str, width_emu: i64| InlineKind::Image {
        rel_id: rel_id.to_string(),
        media_key: None,
        alt: None,
        width_emu,
        height_emu: 914_400,
    };
    let marker = |text: &str| NoteMarker {
        kind: NoteKind::Footnote,
        id: 1,
        text: text.to_string(),
    };
    let with = |kind: InlineKind| with_objects("a\u{FFFC}", vec![object(1, kind)]);
    let item = |text: &str| {
        let mut p = para("a\u{FFFC}");
        p.marker = Some(text.to_string());
        p
    };
    let key = |p: &Paragraph, mark: &str, own: &str| {
        let markers = vec![marker(mark)];
        paragraph_layout_key(p, &config(), 0, 0, &markers, &own.to_string())
    };
    let note_ref = || with(InlineKind::NoteRef { kind: NoteKind::Footnote, id: 1 });
    let own_mark = || with(InlineKind::NoteSelfRef { kind: NoteKind::Footnote });
    let keys = [
        key(&para("a\u{FFFC}"), "1", ""),
        key(&item("1."), "1", ""),
        key(&item("2."), "1", ""),
        key(&with(picture("rId1", 914_400)), "1", ""),
        key(&with(picture("rId2", 914_400)), "1", ""),
        key(&with(picture("rId1", 457_200)), "1", ""),
        key(&note_ref(), "2", ""),
        key(&note_ref(), "3", ""),
        key(&own_mark(), "1", "i"),
        key(&own_mark(), "1", "ii"),
    ];
    for i in 0..keys.len() {
        for j in 0..i {
            assert_ne!(keys[i], keys[j], "{i} and {j}");
        }
    }
    assert_eq!(key(&note_ref(), "2", "x"), key(&note_ref(), "2", "y"));
}

#[test]
fn a_composition_takes_the_place_of_inline_objects() {
    let mut p = with_objects("a\u{FFFC}b", vec![note(1, NoteKind::Footnote, 1)]);
    p.marker = Some("1.".to_string());
    p.props.indent.start_twips = 1_500;
    let markers =
        vec![NoteMarker { kind: NoteKind::Footnote, id: 1, text: "7".to_string() }];
    let given = |comp: Option<&CompositionState>| {
        let own = String::new();
        paragraph_input(&p, &BlockPath::top(0), comp, &config(), &markers, &own, 1_024, 64)
    };
    let plain = given(None);
    assert!(!plain.composed);
    assert_eq!(plain.text, p.text);
    assert_eq!(plain.objects.len(), 1);
    assert_eq!(plain.objects, build_inline_object_infos(&p, &markers, &String::new(), 1_024, 64));
    assert_eq!(plain.spans, paragraph_spans(&p));
    assert_eq!(plain.marker, Some("1.".to_string()));
    assert_eq!(plain.indents, (6_400, 0, 0, 0));
    assert_eq!((plain.alignment, plain.base_direction), (Alignment::Start, Direction::Ltr));
    let comp = CompositionState { at: LogicalPos::top(0, 1), text: "xy".to_string() };
    let live = given(Some(&comp));
    assert!(live.composed);
    assert_eq!(live.text, "axy\u{FFFC}b");
    assert!(live.objects.is_empty());
    assert_eq!(live.spans, composed_paragraph_spans(&p, 1, 2));
    assert_eq!(live.marker, plain.marker);
    let elsewhere = CompositionState { at: LogicalPos::top(3, 1), text: "xy".to_string() };
    assert_eq!(given(Some(&elsewhere)), plain);
}

#[test]
fn a_paragraph_is_framed_by_its_spacing_fields_borders_and_shading() {
    let mut p = para("page 1");
    assert_eq!(
        paragraph_frame(&p, 64),
        ParagraphFrame {
            before: 0,
            after: 0,
            fields: Vec::new(),
            borders: None,
            shading: None,
        }
    );
    let field = Field { start: 5, end: 6, instruction: "PAGE".to_string() };
    let edge = BridgeBorderStroke {
        style: BridgeBorderStyle::Single,
        size_eighth_pt: 4,
        color: None,
    };
    let borders = BridgeCellBorders { top: Some(edge), left: None, bottom: None, right: None };
    p.props.spacing = Spacing { before_twips: 240, after_twips: 100 };
    p.props.borders = Some(borders);
    p.props.shading = Some(Color { r: 1, g: 2, b: 3, a: 255 });
    p.fields = vec![field.clone()];
    assert_eq!(
        paragraph_frame(&p, 64),
        ParagraphFrame {
            before: 16 * 64,
            after: 100 * 64 / 15,
            fields: vec![field],
            borders: Some(borders),
            shading: Some(Color { r: 1, g: 2, b: 3, a: 255 }),
        }
    );
}

#[test]
fn the_cache_finds_what_it_kept_and_drops_the_oldest() {
    let mut cache = LayoutCache::new();
    assert_eq!(cache.lookup(1), None);
    cache.remember(1, 10);
    cache.remember(2, 20);
    assert_eq!(cache.lookup(1), Some(10));
    cache.remember(1, 11);
    assert_eq!(cache.lookup(1), Some(11));
    assert_eq!(cache.lookup(2), Some(20));
    cache.clear();
    assert_eq!(cache.lookup(1), None);
    for k in 0..4096 {
        cache.remember(k, k + 1);
    }
    assert_eq!(cache.lookup(0), Some(1), "asking makes an entry recent");
    cache.remember(5_000, 7);
    assert_eq!(cache.lookup(1), None, "the least recent entry makes room");
    assert_eq!(cache.lookup(0), Some(1));
    assert_eq!(cache.lookup(2), Some(3));
    assert_eq!(cache.lookup(5_000), Some(7));
}

#[test]
fn style_spans_tile_the_text() {
    let mut p = para("plain BOLD tail");
    let bold = SpanStyle { bold: Some(true), ..SpanStyle::default() };
    p.spans.push(StyleRun { start: 6, end: 10, style: bold });
    let spans = build_style_spans(&p, BLACK);
    assert_eq!(ends(&spans), vec![(0, 6), (6, 10), (10, 15)]);
    assert!(!spans[0].bold && spans[1].bold && !spans[2].bold);
    assert_eq!(ends(&paragraph_spans(&p)), ends(&spans));
}

#[test]
fn small_capitals_shrink_the_small_letters_only() {
    let mut p = para("AbC");
    let small = SpanStyle { small_caps: Some(true), ..SpanStyle::default() };
    p.spans.push(StyleRun { start: 0, end: 3, style: small });
    let spans = build_style_spans(&p, BLACK);
    assert_eq!(ends(&spans), vec![(0, 1), (1, 2), (2, 3)]);
    let shrunk: Vec<bool> = spans
        .iter()
        .map(|s| matches!(s.size, SpanSize::Run { small: true, .. }))
        .collect();
    assert_eq!(shrunk, vec![false, true, false]);
    assert!(spans.iter().all(|s| s.caps_transform));
    let mut p = para("Éé1");
    p.spans.push(StyleRun { start: 0, end: 5, style: small });
    assert_eq!(ends(&build_style_spans(&p, BLACK)), vec![(0, 2), (2, 4), (4, 5)]);
}

#[test]
fn links_and_revisions_cut_the_spans_they_touch() {
    let p = para("see the link");
    let spans = build_style_spans(&p, BLACK);
    let linked =
        apply_hyperlink_overlay(spans, &vec![Hyperlink { start: 8, end: 12 }], BLACK);
    assert_eq!(ends(&linked), vec![(0, 8), (8, 12)]);
    assert!(linked[1].underline.is_visible() && !linked[0].underline.is_visible());
    let rev = |kind: RevisionKind, start: u32, end: u32| Revision {
        start,
        end,
        kind,
        author: "A".to_string(),
        date: "d".to_string(),
    };
    let revised =
        apply_revision_overlay(linked, &vec![rev(RevisionKind::Delete, 4, 10)], BLACK);
    assert_eq!(ends(&revised), vec![(0, 4), (4, 8), (8, 10), (10, 12)]);
    assert_eq!(
        revised.iter().map(|s| s.strike).collect::<Vec<bool>>(),
        vec![false, true, true, false]
    );
    let inserted = apply_revision_overlay(
        build_style_spans(&p, BLACK),
        &vec![rev(RevisionKind::Insert, 0, 3)],
        BLACK,
    );
    assert!(inserted[0].underline == UnderlineStyle::Single && !inserted[0].strike);
}

#[test]
fn nested_changes_stack_their_lines_and_the_last_gives_the_colour() {
    let rev = |kind: RevisionKind, start: u32, end: u32| Revision {
        start,
        end,
        kind,
        author: "A".to_string(),
        date: "d".to_string(),
    };
    let p = para("0123456789");
    let both = vec![rev(RevisionKind::Delete, 0, 10), rev(RevisionKind::Insert, 3, 6)];
    let marked = apply_revision_overlay(build_style_spans(&p, BLACK), &both, BLACK);
    assert_eq!(ends(&marked), vec![(0, 3), (3, 6), (6, 10)]);
    assert!(marked.iter().all(|s| s.strike));
    let lines: Vec<UnderlineStyle> = marked.iter().map(|s| s.underline).collect();
    assert_eq!(
        lines,
        vec![UnderlineStyle::NoLine, UnderlineStyle::Single, UnderlineStyle::NoLine]
    );
    let red = Color { r: 0xCC, g: 0, b: 0, a: 0xFF };
    let green = Color { r: 0, g: 0x80, b: 0, a: 0xFF };
    let colors = |spans: &[StyleSpan]| spans.iter().map(|s| s.color).collect::<Vec<Color>>();
    assert_eq!(colors(&marked), vec![red, green, red]);
    let turned = vec![rev(RevisionKind::Insert, 3, 6), rev(RevisionKind::Delete, 0, 10)];
    let marked = apply_revision_overlay(build_style_spans(&p, BLACK), &turned, BLACK);
    assert_eq!(colors(&marked), vec![red, green, red], "in whichever order they are listed");
    let three = vec![
        rev(RevisionKind::Insert, 4, 5),
        rev(RevisionKind::Insert, 0, 10),
        rev(RevisionKind::Delete, 3, 6),
    ];
    let marked = apply_revision_overlay(build_style_spans(&p, BLACK), &three, BLACK);
    assert_eq!(ends(&marked), vec![(0, 3), (3, 4), (4, 5), (5, 6), (6, 10)]);
    assert_eq!(colors(&marked), vec![green, red, green, red, green]);
    assert!(marked[2].strike && marked[2].underline == UnderlineStyle::Single);
    let crossing = vec![rev(RevisionKind::Delete, 2, 10), rev(RevisionKind::Insert, 0, 6)];
    let marked = apply_revision_overlay(build_style_spans(&p, BLACK), &crossing, BLACK);
    assert_eq!(colors(&marked), vec![green, red, red], "neither lies inside the other");
    let blue = Color { r: 0, g: 0, b: 0xFF, a: 0xFF };
    let mut own = para("0123456789");
    let style = SpanStyle { color: Some(blue), ..SpanStyle::default() };
    own.spans.push(StyleRun { start: 0, end: 10, style });
    let marked = apply_revision_overlay(build_style_spans(&own, BLACK), &both, BLACK);
    assert_eq!(colors(&marked), vec![blue, blue, blue]);
    assert!(marked.iter().all(|s| s.strike));
}

#[test]
fn runs_are_set_in_parts_of_their_size() {
    let run = |script: VertAlign, small: bool| SpanSize::Run { size: None, script, small };
    let (up, down) = (VertAlign::Superscript, VertAlign::Subscript);
    let em = 20 * 64;
    assert_eq!(run(VertAlign::Baseline, false).set_size(em), 20 * 64);
    assert_eq!(run(VertAlign::Baseline, true).set_size(em), 16 * 64);
    assert_eq!(run(up, false).set_size(em), 13 * 64);
    assert_eq!(run(down, false).set_size(em), 13 * 64);
    assert_eq!(run(up, true).set_size(em), 20 * 64 * 52 / 100);
    assert_eq!(run(up, false).set_size(70), 64, "no smaller than a pixel");
    assert_eq!(run(VertAlign::Baseline, true).set_size(0), 64);
    assert_eq!(SpanSize::Plain { size: None }.set_size(10), 10);
    assert_eq!(run(up, false).set_shift(100), 33);
    assert_eq!(run(down, false).set_shift(100), -15);
    assert_eq!(run(down, false).set_shift(101), -16, "rounded down");
    assert_eq!(run(VertAlign::Baseline, true).set_shift(100), 0);
    assert_eq!(SpanSize::Plain { size: None }.set_shift(100), 0);
    assert_eq!(note_size(1_000), 850);
}

#[test]
fn cells_bands_and_notes_have_their_own_look() {
    let mut p = with_objects("a\u{FFFC}b", vec![note(1, NoteKind::Footnote, 1)]);
    p.marker = Some("1.".to_string());
    p.hyperlinks = vec![Hyperlink { start: 0, end: 1 }];
    p.props.tab_stops.push(TabStop {
        position_bits: 36.0_f32.to_bits(),
        kind: BridgeTabKind::Left,
        leader: None,
    });
    let in_cell = cell_input(&p, &config(), 64);
    assert_eq!(in_cell.spans, build_style_spans(&p, BLACK), "links do not show");
    assert_eq!(in_cell.tab_stops.len(), 1);
    let in_band = band_input(&p, &config(), 64);
    assert_eq!(in_band.spans, paragraph_spans(&p));
    assert!(in_band.tab_stops.is_empty());
    for input in [in_cell, in_band] {
        assert!(input.objects.is_empty() && !input.composed);
        assert_eq!((input.text, input.marker), (p.text.clone(), p.marker.clone()));
    }
    let at_foot = note_input("1. text".to_string(), Some(Direction::Rtl), &config());
    assert_eq!(ends(&at_foot.spans), vec![(0, 7)]);
    assert_eq!(at_foot.base_direction, Direction::Rtl);
    let weak = note_input("1. ".to_string(), None, &config());
    assert_eq!((weak.base_direction, weak.alignment), (Direction::Ltr, Alignment::Start));
}

#[test]
fn small_capitals_follow_the_letters_that_are_small() {
    assert_eq!(lowercase_flags("AbÉé1"), vec![false, true, false, true, false]);
    let mut p = para("abcd");
    let small = SpanStyle { small_caps: Some(true), ..SpanStyle::default() };
    p.spans.push(StyleRun { start: 0, end: 4, style: small });
    let template = build_style_spans(&p, BLACK)[0];
    let split = |flags: Vec<bool>| split_small_caps(&template, "aébc", &flags, 10);
    let spans = split(vec![true, true, false, true]);
    assert_eq!(ends(&spans), vec![(10, 13), (13, 14), (14, 15)]);
    let shrunk: Vec<bool> = spans
        .iter()
        .map(|s| matches!(s.size, SpanSize::Run { small: true, .. }))
        .collect();
    assert_eq!(shrunk, vec![true, false, true]);
    assert_eq!(ends(&split(vec![false, false, false, false])), vec![(10, 15)]);
}

#[test]
fn font_families_have_their_own_names() {
    for f in [FontFamily::Amiri, FontFamily::LiberationSans, FontFamily::NotoNaskhArabic] {
        assert_eq!(parse_font_family(font_family_id(f)), Some(f));
    }
    assert_eq!(parse_font_family("papyrus"), None);
}

#[test]
fn a_composition_is_spliced_into_its_paragraph() {
    let p = para("abcdef");
    let comp = CompositionState { at: LogicalPos::top(0, 3), text: "عع".to_string() };
    assert!(composition_applies(&comp, &BlockPath::top(0), &p));
    assert!(!composition_applies(&comp, &BlockPath::top(1), &p));
    let text = splice_text("abcdef", 3, &comp.text);
    assert_eq!(text, "abcععdef");
    let spans = composed_paragraph_spans(&p, 3, 4);
    assert_eq!(ends(&spans), vec![(0, 3), (3, 7), (7, 10)]);
    assert_eq!(spans.last().unwrap().end as usize, text.len());
}

fn line(start: u32, end: u32) -> LineBox {
    let glyph = Glyph { cluster: 0, x_advance: 640, synthetic: false };
    LineBox {
        x: 0,
        y: 0,
        height: 1_280,
        runs: vec![VisualRun {
            glyphs: vec![glyph, glyph],
            direction: Direction::Ltr,
            source_start: start,
            source_end: end,
        }],
    }
}

fn paragraph_box(lines: Vec<LineBox>) -> ParagraphBox {
    ParagraphBox { x: 0, y: 0, lines, source_id: 0 }
}

#[test]
fn a_form_feed_ends_the_page_after_its_line() {
    let text = "one\u{000C}two\nthree\u{000C}";
    let b = paragraph_box(vec![line(0, 4), line(4, 8), line(8, 14)]);
    assert_eq!(compute_page_break_lines(text, &b), vec![0, 2]);
    assert!(compute_page_break_lines("one two", &paragraph_box(vec![line(0, 7)])).is_empty());
}

#[test]
fn indents_and_alignment_come_from_the_paragraph() {
    let mut p = para("x");
    p.props.indent.start_twips = 720;
    p.props.indent.hanging_twips = 15;
    p.props.indent.first_line_twips = -15;
    assert_eq!(props_to_layout_indents(&p, 64), (48 * 64, 0, -64, 64));
    assert_eq!(twips_to_units(1, 64), 4);
    assert_eq!(twips_to_units(-1, 64), -5, "rounded down");
    assert_eq!(layout_align(&p, Alignment::Justify), Alignment::Justify);
    p.props.alignment = Some(Alignment::End);
    assert_eq!(layout_align(&p, Alignment::Justify), Alignment::End);
}

#[test]
fn tab_stops_rise_and_cleared_ones_go() {
    let stop = |pt: f32, kind: BridgeTabKind| TabStop {
        position_bits: pt.to_bits(),
        kind,
        leader: None,
    };
    let stops = vec![
        stop(72.0, BridgeTabKind::Left),
        stop(36.0, BridgeTabKind::Right),
        stop(-4.0, BridgeTabKind::Center),
        stop(50.0, BridgeTabKind::Clear),
    ];
    let at: Vec<f32> = tab_stops_to_layout(&stops).into_iter().map(f32::from_bits).collect();
    assert_eq!(at, vec![-4.0, 36.0, 72.0]);
}

fn object(at: u32, kind: InlineKind) -> InlineObject {
    InlineObject { at, kind }
}

fn note(at: u32, kind: NoteKind, id: u32) -> InlineObject {
    object(at, InlineKind::NoteRef { kind, id })
}

fn with_objects(text: &str, objects: Vec<InlineObject>) -> Paragraph {
    let mut p = para(text);
    p.inline_objects = objects;
    p
}

fn text_box(blocks: Vec<Block>) -> InlineKind {
    InlineKind::TextBox {
        id: "box".to_string(),
        name: None,
        alt: None,
        width_emu: 2 * 914_400,
        height_emu: 914_400,
        blocks,
    }
}

#[test]
fn footnotes_are_met_in_cells_and_text_boxes() {
    let in_cell = with_objects("Cell\u{FFFC} text", vec![note(4, NoteKind::Footnote, 2)]);
    let in_box = with_objects("Box\u{FFFC} text", vec![note(3, NoteKind::Footnote, 3)]);
    let cell = TableCell {
        blocks: vec![Block::Paragraph(in_cell)],
        props: CellProps {
            v_merge: VMergeRole::Alone,
            grid_span: 1,
            shading: None,
            borders: None,
            width_twips: None,
        },
    };
    let blocks = vec![
        Block::Paragraph(with_objects(
            "Body\u{FFFC} text.\u{000C}",
            vec![note(4, NoteKind::Footnote, 1), note(4, NoteKind::Endnote, 9)],
        )),
        Block::Table(Table { rows: vec![TableRow { cells: vec![cell] }], bidi_visual: false }),
        Block::Paragraph(with_objects(
            "Host \u{FFFC} after",
            vec![object(5, text_box(vec![Block::Paragraph(in_box)]))],
        )),
    ];
    let mut refs: Vec<u32> = Vec::new();
    collect_footnote_refs(&blocks, &mut refs);
    assert_eq!(refs, vec![1, 2, 3]);
}

#[test]
fn a_footnote_reads_marker_and_text() {
    let text = footnote_text("12", &vec!["First.".to_string(), "Second.".to_string()]);
    assert_eq!(text, "12. First. Second.");
    assert_eq!(footnote_text("1", &Vec::new()), "1. ");
    assert!(band_is_empty(&vec![para(""), para("")]));
    assert!(!band_is_empty(&vec![para(""), para("x")]));
}

#[test]
fn inline_objects_take_their_room() {
    let p = with_objects(
        "\u{FFFC}\u{FFFC}\u{FFFC}\u{FFFC}",
        vec![
            object(
                0,
                InlineKind::Image {
                    rel_id: "rId9".to_string(),
                    media_key: None,
                    alt: None,
                    width_emu: 914_400,
                    height_emu: 457_200,
                },
            ),
            note(3, NoteKind::Footnote, 4),
            object(6, text_box(Vec::new())),
            note(9, NoteKind::Footnote, 5),
        ],
    );
    let markers = vec![NoteMarker { kind: NoteKind::Footnote, id: 4, text: "12".to_string() }];
    let infos = build_inline_object_infos(&p, &markers, &String::new(), 1_000, 64);
    let sizes: Vec<(u32, i32, i32)> = infos.iter().map(|i| (i.at, i.width, i.height)).collect();
    assert_eq!(
        sizes,
        vec![(0, 72 * 64, 36 * 64), (3, 900, 700), (6, 144 * 64, 72 * 64), (9, 450, 700)]
    );
    assert_eq!(infos[0].kind, InlineInfoKind::Image { rel_id: "rId9".to_string() });
    assert_eq!(infos[1].kind, InlineInfoKind::Marker { text: "12".to_string() });
}

fn cell(grid_span: u16, v_merge: VMergeRole, v_align: VerticalAlign) -> CellSpec {
    CellSpec { grid_span, v_merge, v_align, margins: Edges { top: 0, right: 0, bottom: 0, left: 0 } }
}

fn row(cells: Vec<CellSpec>, height: RowHeight) -> RowSpec {
    RowSpec { cells, height, header: false, cant_split: false }
}

fn plain_cell() -> CellSpec {
    cell(1, VMergeRole::Alone, VerticalAlign::Top)
}

#[test]
fn autofit_shares_the_width_by_content() {
    let t = TableSpec {
        grid: Vec::new(),
        autofit: true,
        rows: vec![row(vec![plain_cell(), plain_cell()], RowHeight::Auto)],
    };
    assert_eq!(column_count(&t), 2);
    let columns = autofit_distribute(&t, 40_000, 64, &vec![vec![3_000, 9_000]]);
    assert_eq!(columns.iter().sum::<i128>(), 40_000, "the columns fill the table");
    assert!(columns[0] < columns[1], "wider content, wider column");
    assert_eq!(width_of_table(&columns, 40_000), 40_000);
    let probe = measure_width(40_000, 2, 64);
    assert!(probe > 0);
}

#[test]
fn no_column_gets_less_than_the_grid_sets_for_it() {
    let t = TableSpec { grid: vec![4_500, 4_500], autofit: true, rows: Vec::new() };
    let columns = autofit_distribute(&t, 400 * 64, 64, &Vec::new());
    assert_eq!(columns, vec![300 * 64, 300 * 64]);
    assert_eq!(table_columns(&t, 400 * 64, 64, &Vec::new()), columns);
    let wide = autofit_distribute(&t, 800 * 64, 64, &Vec::new());
    assert_eq!(wide, vec![400 * 64, 400 * 64], "columns may grow past the grid");
    let t = TableSpec {
        grid: vec![1_500],
        autofit: true,
        rows: vec![row(vec![plain_cell(), plain_cell()], RowHeight::Auto)],
    };
    let columns = autofit_distribute(&t, 100 * 64, 64, &vec![vec![0, 100 * 64]]);
    assert_eq!(columns, vec![100 * 64, 50 * 64]);
}

#[test]
fn rows_and_cells_keep_what_pages_go_by() {
    let wide = CellSpec {
        grid_span: 2,
        v_merge: VMergeRole::Alone,
        v_align: VerticalAlign::Top,
        margins: Edges { top: 15, right: 30, bottom: 45, left: 60 },
    };
    let zero = CellSpec { grid_span: 0, ..plain_cell() };
    let mut head = row(vec![wide], RowHeight::Auto);
    head.header = true;
    let mut whole = row(vec![zero, plain_cell()], RowHeight::Auto);
    whole.cant_split = true;
    let t = TableSpec { grid: vec![1_500, 1_500], autofit: false, rows: vec![head, whole] };
    let columns = table_columns(&t, 40_000, 64, &vec![vec![0], vec![0, 0]]);
    let (rows, width, height) =
        layout_table(&t, &columns, 40_000, &vec![vec![100], vec![50, 70]], 64);
    assert_eq!((width, height), (200 * 64, 100 + 4 * 64 + 70));
    assert_eq!((rows[0].header, rows[0].cant_split), (true, false));
    assert_eq!((rows[1].header, rows[1].cant_split), (false, true));
    assert_eq!((rows[0].cells[0].grid_span, rows[1].cells[0].grid_span), (2, 1));
    let padding = Edges { top: 64, right: 128, bottom: 192, left: 256 };
    assert_eq!(rows[0].cells[0].padding, padding);
    assert_eq!(rows[0].cells[0].v_merge, VMergeRole::Alone);
}

#[test]
fn a_fixed_grid_gives_the_columns() {
    let t = TableSpec {
        grid: vec![1_500, 3_000],
        autofit: false,
        rows: vec![row(
            vec![cell(2, VMergeRole::Alone, VerticalAlign::Top)],
            RowHeight::Auto,
        )],
    };
    let columns = table_columns(&t, 40_000, 64, &vec![vec![0]]);
    assert_eq!(columns, vec![100 * 64, 200 * 64]);
    let cells = &t.rows[0].cells;
    assert_eq!(width_of_cell(&columns, cells, 0, 40_000), 300 * 64);
    assert_eq!(width_of_content(&columns, cells, 0, 40_000, 64), 300 * 64);
    assert_eq!(width_of_table(&columns, 40_000), 300 * 64);
}

#[test]
fn a_merged_cell_is_as_high_as_its_rows() {
    let t = TableSpec {
        grid: vec![1_500, 1_500],
        autofit: false,
        rows: vec![
            row(
                vec![
                    cell(1, VMergeRole::Restart, VerticalAlign::Bottom),
                    cell(1, VMergeRole::Alone, VerticalAlign::Center),
                ],
                RowHeight::Exact { twips: 300 },
            ),
            row(
                vec![cell(1, VMergeRole::Continue, VerticalAlign::Top), plain_cell()],
                RowHeight::AtLeast { twips: 600 },
            ),
        ],
    };
    let columns = table_columns(&t, 40_000, 64, &vec![vec![0, 0], vec![0, 0]]);
    let (rows, width, height) =
        layout_table(&t, &columns, 40_000, &vec![vec![640, 640], vec![0, 100]], 64);
    assert_eq!((width, height), (200 * 64, 60 * 64));
    assert_eq!((rows[0].y, rows[0].height), (0, 20 * 64));
    assert_eq!((rows[1].y, rows[1].height), (20 * 64, 40 * 64));
    let merged = rows[0].cells[0];
    assert_eq!(merged.height, 60 * 64);
    assert_eq!(merged.content_shift, 60 * 64 - 640, "at the bottom of both rows");
    assert_eq!(rows[0].cells[1].content_shift, (20 * 64 - 640) / 2);
    assert_eq!((rows[0].cells[1].x, rows[0].cells[1].width), (100 * 64, 100 * 64));
    let (tops, sum) = stack_blocks(&vec![10, 20, 30]);
    assert_eq!((tops, sum), (vec![0, 10, 30], 60));
}

/// Drive a pager over blocks of one page's height each.
fn run_pager(sections: &Vec<SectionSpan>, total: u32, budget: Option<i64>) -> (Pager, Vec<u32>) {
    let mut pager = Pager::new();
    let mut placed: Vec<u32> = Vec::new();
    let mut open_pages: Vec<i64> = Vec::new();
    loop {
        let cursor = if open_pages.is_empty() { 0 } else { 1_000 };
        match pager.next(sections, total, budget, 100, cursor) {
            PageAction::FinishPages => {
                pager.finished(&open_pages);
                open_pages.clear();
            }
            PageAction::OpenSection { section, .. } => {
                pager.opened(sections[section].start);
                open_pages = vec![1_000];
            }
            PageAction::ContinueSection { section, .. } => pager.continued(sections[section].start),
            PageAction::PlaceBlock { block, .. } => {
                placed.push(block);
                open_pages.push(1_000);
                pager.placed(1, 1);
            }
            PageAction::BlankPage => pager.finished(&vec![1_684]),
            PageAction::Done => return (pager, placed),
        }
    }
}

#[test]
fn a_full_layout_places_every_block_in_turn() {
    let sections = vec![
        SectionSpan { start: 0, end: 2, continuous: false },
        SectionSpan { start: 2, end: 3, continuous: true },
        SectionSpan { start: 3, end: 5, continuous: false },
    ];
    let (pager, placed) = run_pager(&sections, 5, None);
    assert_eq!(placed, vec![0, 1, 2, 3, 4]);
    let info = pager.outcome(5);
    assert!(info.is_full_layout);
    assert_eq!(info.remaining_blocks, 0);
    assert_eq!(pager.heights.len(), pager.page_paths().len());
    let shown: Vec<BlockPath> = pager.page_paths().concat();
    for b in 0..5 {
        assert!(shown.contains(&BlockPath::top(b)), "block {b} stands on a page");
    }
}

#[test]
fn a_document_without_content_has_one_blank_page() {
    let (pager, placed) = run_pager(&Vec::new(), 0, None);
    assert!(placed.is_empty());
    assert_eq!(pager.heights, vec![1_684]);
    assert_eq!(pager.page_paths(), vec![Vec::<BlockPath>::new()]);
    assert!(pager.outcome(0).is_full_layout);
    let mut opened = Pager::new();
    let sections = vec![SectionSpan { start: 0, end: 0, continuous: false }];
    let open = PageAction::OpenSection { section: 0, page_offset: 0 };
    assert_eq!(opened.next(&sections, 0, None, 100, 0), open);
    opened.opened(0);
    assert_eq!(opened.next(&sections, 0, None, 100, 0), PageAction::FinishPages);
    opened.finished(&Vec::new());
    assert_eq!(opened.next(&sections, 0, None, 100, 0), PageAction::BlankPage);
    opened.finished(&vec![1_684]);
    assert_eq!(opened.next(&sections, 0, None, 100, 0), PageAction::Done);
    assert_eq!(opened.page_paths(), vec![Vec::<BlockPath>::new()]);
}

#[test]
fn a_failed_paint_leaves_the_figures_of_the_last_one() {
    let page = PageBox {
        width: 600,
        height: 800,
        margin_left: 0,
        margin_right: 0,
        margin_top: 0,
        blocks: Vec::new(),
    };
    let info = LazyLayoutInfo { is_full_layout: false, remaining_blocks: 2 };
    let stats = render_stats(&vec![page], 16, info, 64);
    let mut dims = LastPaintDims::default();
    dims.painted(None);
    assert_eq!(dims, LastPaintDims::default());
    dims.painted(Some(stats));
    let after = LastPaintDims {
        document_height: 800,
        page_count: 1,
        estimated_document_height: 800 + 2 * 64 * 64,
        is_full_layout: false,
    };
    assert_eq!(dims, after);
    dims.painted(None);
    assert_eq!(dims, after);
}

#[test]
fn a_bounded_layout_stops_past_its_budget() {
    let sections = vec![SectionSpan { start: 0, end: 50, continuous: false }];
    let (pager, placed) = run_pager(&sections, 50, Some(500));
    assert!(placed.len() < 50);
    let info = pager.outcome(50);
    assert!(!info.is_full_layout);
    assert_eq!(info.remaining_blocks as usize, 50 - placed.len());
}

#[test]
fn a_layout_needs_its_configuration_and_font() {
    let loaded = vec!["latin".to_string(), "arabic".to_string()];
    assert_eq!(check_layout(&None, &loaded), Err(LayoutError::NoConfig));
    assert_eq!(check_layout(&Some("greek".to_string()), &loaded), Err(LayoutError::FontMissing));
    assert_eq!(check_layout(&Some("arabic".to_string()), &loaded), Ok(()));
}

#[test]
fn blocks_are_listed_on_the_pages_they_reach() {
    let mut lists: Vec<Vec<u32>> = vec![vec![0]];
    attach_block_paths(&mut lists, 2, 1);
    assert_eq!(lists.len(), 3);
    assert!(lists.iter().flatten().filter(|b| **b == 1).count() >= 1);
    assert_eq!(measure_pages(&vec![1_000, 1_000], 100, 300), 2_500);
    assert_eq!(measure_pages(&vec![1_000, 1_000], 100, 0), 2_100);
    assert_eq!(measure_pages(&Vec::new(), 100, 300), 300);
}

#[test]
fn the_height_asked_for_falls_only_with_an_edit() {
    let mut state = LazyLayoutState::default();
    assert_eq!(state.min_target_y, 107_776);
    state.bump(200_000);
    state.bump(5);
    assert_eq!(state.min_target_y, 200_000);
    state.set_viewport(150_000, 90_000);
    assert_eq!(
        state,
        LazyLayoutState { viewport_y: 150_000, viewport_h: 90_000, min_target_y: 240_000 }
    );
    state.edited();
    assert_eq!((state.min_target_y, state.viewport_y), (107_776, 150_000));
    assert_eq!(cull_budget(Some(1_000)), Some(77_800));
    assert_eq!(cull_budget(None), None);
}

#[test]
fn the_scroll_bar_estimates_what_is_not_laid_out() {
    let open = LazyLayoutInfo { is_full_layout: false, remaining_blocks: 10 };
    let done = LazyLayoutInfo { is_full_layout: true, remaining_blocks: 0 };
    assert_eq!(estimated_height(5_000, open, 64), 5_000 + 10 * 64 * 64);
    assert_eq!(estimated_height(5_000, done, 64), 5_000);
    let next = LazyLayoutInfo { is_full_layout: false, remaining_blocks: 9 };
    assert!(estimated_height(5_000 + 64 * 64, next, 64) <= estimated_height(5_000, open, 64));
}

#[test]
fn render_statistics_count_lines_and_glyphs() {
    let page = PageBox {
        width: 600,
        height: 800,
        margin_left: 0,
        margin_right: 0,
        margin_top: 0,
        blocks: vec![LayoutBlock::Paragraph(paragraph_box(vec![line(0, 4), line(4, 8)]))],
    };
    let info = LazyLayoutInfo { is_full_layout: true, remaining_blocks: 0 };
    let stats = render_stats(&vec![page], 16, info, 64);
    assert_eq!((stats.page_width, stats.page_height, stats.page_count), (600, 800, 1));
    assert_eq!((stats.line_count, stats.glyph_count), (2, 4));
    assert_eq!((stats.document_height, stats.estimated_document_height), (800, 800));
}

#[test]
fn a_paint_covers_the_named_region_first() {
    let at = |x: i64| Rect { x, y: 0, w: 10, h: 10 };
    assert_eq!(paint_region(Some(at(1)), Some(at(2)), at(3)), at(1));
    assert_eq!(paint_region(None, Some(at(2)), at(3)), at(2));
    assert_eq!(paint_region(None, None, at(3)), at(3));
    let mut surfaces: Vec<Option<u32>> = Vec::new();
    set_page_canvas(&mut surfaces, 2, 7);
    assert_eq!(surfaces, vec![None, None, Some(7)]);
    set_page_canvas(&mut surfaces, 0, 5);
    assert_eq!(surfaces, vec![Some(5), None, Some(7)]);
}

#[test]
fn paragraphs_are_numbered_past_covered_cells() {
    let p = || LayoutBlock::Paragraph(paragraph_box(Vec::new()));
    let cell = |v_merge: VMergeRole| CellBox { x: 0, y: 0, width: 0, v_merge, content: vec![p()] };
    let mut blocks = vec![
        p(),
        LayoutBlock::Table(TableBox {
            x: 0,
            y: 0,
            rows: vec![
                RowBox { x: 0, y: 0, cells: vec![cell(VMergeRole::Restart), cell(VMergeRole::Alone)] },
                RowBox { x: 0, y: 0, cells: vec![cell(VMergeRole::Continue), cell(VMergeRole::Alone)] },
            ],
        }),
        p(),
    ];
    let mut next: u32 = 7;
    assign_source_ids_blocks(&mut blocks, &mut next);
    assert_eq!(next, 12);
    let id = |b: &LayoutBlock| match b {
        LayoutBlock::Paragraph(p) => p.source_id,
        LayoutBlock::Table(_) => unreachable!(),
    };
    let LayoutBlock::Table(t) = &blocks[1] else {
        unreachable!()
    };
    let cells: Vec<u32> =
        t.rows.iter().flat_map(|r| r.cells.iter().map(|c| id(&c.content[0]))).collect();
    assert_eq!((id(&blocks[0]), id(&blocks[2])), (7, 11));
    assert_eq!(cells, vec![8, 9, 0, 10]);
    assert_eq!(ids_after(t, 8), Some(11));
    assert_eq!(ids_after(t, u32::MAX - 3), Some(u32::MAX));
    assert_eq!(ids_after(t, u32::MAX - 2), None);
}

#[test]
fn a_wide_page_lies_on_its_side() {
    let float = |x: f32| Real { bits: x.to_bits() };
    let mut s = SectionSetup {
        width: float(842.0),
        height: float(595.0),
        margin_top: float(72.0),
        margin_right: float(72.0),
        margin_bottom: float(72.0),
        margin_left: float(36.0),
        columns: 0,
        column_gutter: float(36.0),
        title_pg: true,
    };
    let at = BlockPath::top(3);
    let g = section_geometry_for_caret(&at, &s, 1, 2, false).unwrap();
    assert_eq!(g.orientation, PageOrientation::Landscape);
    assert_eq!((g.columns, g.section_index, g.section_count), (1, 1, 2));
    assert_eq!(g.margin_left_pt, float(36.0));
    s.height = float(842.0);
    s.columns = 2;
    let g = section_geometry_for_caret(&at, &s, 1, 2, true).unwrap();
    assert_eq!((g.orientation, g.columns), (PageOrientation::Portrait, 2));
    assert!(g.even_odd_headers && g.title_pg);
    assert!(section_geometry_for_caret(&BlockPath::root(), &s, 0, 1, false).is_none());
    let odd = BlockPath { steps: vec![PathStep::Cell { row: 0, col: 0 }] };
    assert!(section_geometry_for_caret(&odd, &s, 0, 1, false).is_none());
}

#[test]
fn runs_and_objects_fall_between_characters() {
    let run = |start, end| StyleRun { start, end, style: SpanStyle::default() };
    assert!(check_runs("aé b", &vec![run(0, 1), run(1, 3), run(4, 5)]));
    assert!(!check_runs("aé b", &vec![run(0, 2)]), "inside a character");
    assert!(!check_runs("aé b", &vec![run(0, 3), run(1, 5)]), "overlapping");
    assert!(!check_runs("aé b", &vec![run(3, 6)]), "past the end");

    let fine = with_objects("a\u{FFFC}b", vec![note(1, NoteKind::Footnote, 1)]);
    let early = with_objects("\u{FFFC}b", vec![note(1, NoteKind::Footnote, 1)]);
    let late = with_objects("ab", vec![note(1, NoteKind::Footnote, 1)]);
    assert!(check_blocks(&vec![Block::Paragraph(fine)]));
    assert!(!check_blocks(&vec![Block::Paragraph(early)]));
    let boxed = with_objects("\u{FFFC}", vec![object(0, text_box(vec![Block::Paragraph(late)]))]);
    let story = NoteStory { kind: NoteKind::Footnote, id: 1, blocks: vec![Block::Paragraph(boxed)] };
    assert!(!check_stories(&vec![story]), "text boxes are looked into");
    assert!(check_stories(&Vec::new()));
}

#[test]
fn pages_stand_one_below_the_other() {
    assert_eq!(page_tops(&vec![100, 50, 70], 8), vec![0, 108, 166]);
    assert_eq!(page_tops(&Vec::new(), 8), Vec::<i64>::new());
}

#[test]
fn a_zoom_before_the_first_layout_waits_for_it() {
    let number = |x: f32| Real { bits: x.to_bits() };
    let mut s = DisplayScale::new();
    assert_eq!((s.device, s.zoom), (number(1.0), number(1.0)));
    s.queue_device(number(2.0));
    assert_eq!(s.pending(), (number(1.0), Some(number(2.0))));
    s.queue_zoom(number(1.5));
    assert_eq!(s.pending(), (number(1.5), Some(number(2.0))));
    s.begin(number(3.0));
    assert_eq!((s.device, s.zoom), (number(2.0), number(1.5)));
    s.set_device(number(4.0));
    assert_eq!((s.device, s.zoom), (number(4.0), number(1.5)), "the zoom stays");
    s.set_zoom(number(0.5));
    assert_eq!((s.device, s.zoom), (number(4.0), number(0.5)));
    s.begin(number(3.0));
    assert_eq!((s.device, s.zoom), (number(3.0), number(1.0)), "nothing waits any more");
}
