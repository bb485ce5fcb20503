//! Character formatting: the toolbar, mixed selections, toggles and armed
//! styles.

use wordcore::attrs::{
    apply_formatting, attrs_at, attrs_mixed_over, attrs_probe, cell_for_caret,
    cell_properties_for_caret, collect_styles, paragraph_alignment_at, paragraph_direction_over,
    patch_style, resolved_attrs, sample_paragraph_styles, style_with_pending, switch_attr,
    tab_stops_for_caret, toggle_formatting, FormatAction, TextAttrs, TextAttrsPatch, ToggleError,
};
use wordcore::cache::RenderConfig;
use wordcore::command::{
    BridgeBorderStroke, BridgeBorderStyle, BridgeCellBorders, BridgeTabKind, BridgeTabLeader,
    FormattingToggle, HeaderFooterArea,
};
use wordcore::common::{
    Alignment, BlockPath, Color, Direction, LogicalPos, PathStep, UnderlineStyle, VerticalScript,
};
use wordcore::document::{
    Block, CellProps, DocumentTree, FontFamily, FontSize, Paragraph, SpanStyle, StyleRun, TabStop,
    Table, TableCell, TableRow, VMergeRole, VertAlign,
};
use wordcore::session::Session;

/// One paragraph of ASCII text with a style for every byte, a selection and an
/// armed style.
struct Editor {
    text: String,
    styles: Vec<SpanStyle>,
    start: u32,
    end: u32,
    pending: Option<SpanStyle>,
}

impl Editor {
    fn new(text: &str) -> Editor {
        Editor {
            text: text.to_string(),
            styles: vec![SpanStyle::default(); text.len()],
            start: 0,
            end: 0,
            pending: None,
        }
    }

    fn select(&mut self, start: u32, end: u32) {
        self.start = start;
        self.end = end;
        self.pending = None;
    }

    fn doc(&self) -> DocumentTree {
        let mut p = Paragraph::plain(self.text.clone(), Some(Direction::Ltr));
        for (i, style) in self.styles.iter().enumerate() {
            p.spans.push(StyleRun { start: i as u32, end: i as u32 + 1, style: *style });
        }
        DocumentTree { blocks: vec![Block::Paragraph(p)] }
    }

    fn toggle_as(&mut self, attr: FormattingToggle, line: Option<UnderlineStyle>) {
        let range = (LogicalPos::top(0, self.start), LogicalPos::top(0, self.end));
        let prev = self.start.saturating_sub(1);
        let action =
            toggle_formatting(&self.doc(), Some(range), prev, self.pending, attr, line).unwrap();
        match action {
            FormatAction::Arm { style } => self.pending = Some(style),
            FormatAction::Restyle { start, end, patch } => {
                for i in start.offset..end.offset {
                    let own = self.styles[i as usize];
                    self.styles[i as usize] = own.merged_with(patch);
                }
            }
        }
    }

    fn toggle(&mut self, attr: FormattingToggle) {
        self.toggle_as(attr, None);
    }

    fn type_text(&mut self, text: &str) {
        let at = LogicalPos::top(0, self.start);
        let from = attrs_probe(&at, &at, self.start.saturating_sub(1));
        let style = style_with_pending(&self.doc(), &from, self.pending);
        for c in text.chars() {
            self.text.insert(self.start as usize, c);
            self.styles.insert(self.start as usize, style);
            self.start += 1;
        }
        self.end = self.start;
    }

    fn toolbar(&self) -> TextAttrs {
        let (start, end) = (LogicalPos::top(0, self.start), LogicalPos::top(0, self.end));
        let at = attrs_probe(&start, &end, self.start.saturating_sub(1));
        attrs_at(&self.doc(), &at, self.pending, None)
    }

    fn is_bold(&self, offset: u32) -> bool {
        self.styles[offset as usize].bold == Some(true)
    }
}

fn bold_style() -> SpanStyle {
    SpanStyle { bold: Some(true), ..SpanStyle::default() }
}

fn plain_bold() -> Editor {
    let mut e = Editor::new("plain BOLD");
    for i in 6..10 {
        e.styles[i] = bold_style();
    }
    e
}

#[test]
fn toggle_type_toggle_type_gives_two_runs() {
    let mut e = Editor::new("x ");
    e.select(2, 2);
    e.toggle(FormattingToggle::Bold);
    e.type_text("bold");
    e.toggle(FormattingToggle::Bold);
    e.type_text(" end");
    assert_eq!(e.text, "x bold end");
    for off in 2..6 {
        assert!(e.is_bold(off), "byte {off} of 'bold' is bold");
    }
    for off in 6..10 {
        assert!(!e.is_bold(off), "byte {off} of ' end' is plain");
    }
    assert!(!e.toolbar().bold);
}

#[test]
fn toggle_after_a_bold_run_turns_bold_off() {
    let mut e = plain_bold();
    e.select(10, 10);
    assert!(e.toolbar().bold);
    e.toggle(FormattingToggle::Bold);
    assert!(!e.toolbar().bold, "pending bold-off previewed");
    e.type_text("x");
    assert!(!e.is_bold(10));
    assert!(e.is_bold(9), "the run itself is untouched");
}

#[test]
fn ranged_toggle_follows_words_rule() {
    let mut e = plain_bold();
    e.select(6, 10);
    e.toggle(FormattingToggle::Bold);
    assert!((6..10).all(|o| !e.is_bold(o)), "all-bold range → off");

    let mut e = plain_bold();
    e.select(0, 5);
    e.toggle(FormattingToggle::Bold);
    assert!((0..5).all(|o| e.is_bold(o)), "plain range → on");

    let mut e = plain_bold();
    e.select(3, 8);
    e.toggle(FormattingToggle::Bold);
    assert!((3..8).all(|o| e.is_bold(o)), "mixed range → on");
    assert!(!e.is_bold(2));
    assert!(e.start != e.end);
}

#[test]
fn underline_script_and_caps_toggles() {
    let mut e = Editor::new("abcdef");
    e.select(0, 3);
    e.toggle_as(FormattingToggle::Underline, Some(UnderlineStyle::Double));
    assert_eq!(e.styles[1].underline, Some(UnderlineStyle::Double));
    e.toggle(FormattingToggle::Underline);
    assert_eq!(e.styles[1].underline, Some(UnderlineStyle::NoLine));

    e.toggle(FormattingToggle::Superscript);
    assert_eq!(e.styles[1].vert_align, Some(VertAlign::Superscript));
    e.toggle(FormattingToggle::Subscript);
    assert_eq!(e.styles[1].vert_align, Some(VertAlign::Subscript));
    e.toggle(FormattingToggle::Subscript);
    assert_eq!(e.styles[1].vert_align, Some(VertAlign::Baseline));

    e.toggle(FormattingToggle::Caps);
    assert_eq!(e.styles[1].caps, Some(true));
    e.toggle(FormattingToggle::SmallCaps);
    assert_eq!(e.styles[1].small_caps, Some(true));
    assert_eq!(e.styles[1].caps, Some(false), "caps pair is exclusive");
    e.toggle(FormattingToggle::Italic);
    e.toggle(FormattingToggle::Strike);
    assert_eq!(e.styles[1].italic, Some(true));
    assert_eq!(e.styles[1].strike, Some(true));
}

#[test]
fn toggle_without_a_selection_is_a_typed_error() {
    let e = Editor::new("abc");
    let r = toggle_formatting(&e.doc(), None, 0, None, FormattingToggle::Bold, None);
    assert_eq!(r, Err(ToggleError::NoSelection));
}

#[test]
fn two_toggles_at_a_caret_cancel() {
    let mut e = plain_bold();
    e.select(3, 3);
    let before = e.toolbar();
    for attr in [
        FormattingToggle::Bold,
        FormattingToggle::Underline,
        FormattingToggle::SmallCaps,
        FormattingToggle::Strike,
    ] {
        e.toggle(attr);
        assert_ne!(e.toolbar(), before);
        e.toggle(attr);
        assert_eq!(e.toolbar(), before);
    }
}

#[test]
fn switching_sets_one_attribute() {
    assert_eq!(switch_attr(FormattingToggle::Bold, true, None), bold_style());
    let under = switch_attr(FormattingToggle::Underline, true, None);
    assert_eq!(under.underline, Some(UnderlineStyle::Single));
    let caps = switch_attr(FormattingToggle::Caps, true, None);
    assert_eq!((caps.caps, caps.small_caps), (Some(true), Some(false)));
    let off = switch_attr(FormattingToggle::Superscript, false, None);
    assert_eq!(off.vert_align, Some(VertAlign::Baseline));
}

#[test]
fn mixed_flags_name_what_differs() {
    let e = plain_bold();
    let d = e.doc();
    let mixed = attrs_mixed_over(&d, &LogicalPos::top(0, 3), &LogicalPos::top(0, 8));
    assert!(mixed.bold && !mixed.italic && !mixed.underline && !mixed.strike);
    let even = attrs_mixed_over(&d, &LogicalPos::top(0, 6), &LogicalPos::top(0, 10));
    assert!(!even.bold);
    let whole = |text: &str, style: SpanStyle| {
        let mut p = Paragraph::plain(text.to_string(), Some(Direction::Ltr));
        p.spans.push(StyleRun { start: 0, end: text.len() as u32, style });
        Block::Paragraph(p)
    };
    let bold = SpanStyle { bold: Some(true), ..SpanStyle::default() };
    let two = DocumentTree {
        blocks: vec![
            whole("one", bold),
            whole("two", SpanStyle { italic: Some(true), ..bold }),
            whole("three", bold),
        ],
    };
    let across = attrs_mixed_over(&two, &LogicalPos::top(0, 1), &LogicalPos::top(2, 2));
    assert!(!across.bold && across.italic, "the paragraph between differs");
    let edges = attrs_mixed_over(&two, &LogicalPos::top(0, 3), &LogicalPos::top(1, 3));
    assert!(!edges.italic, "no byte of the first paragraph is selected");
    let none = attrs_mixed_over(&d, &LogicalPos::top(0, 6), &LogicalPos::top(0, 6));
    assert!(!none.bold);
}

#[test]
fn gaps_between_runs_count_as_plain() {
    let mut p = Paragraph::plain("plain BOLD tail".to_string(), None);
    p.spans.push(StyleRun { start: 6, end: 10, style: bold_style() });
    let mut out: Vec<SpanStyle> = Vec::new();
    sample_paragraph_styles(&p, 8, 12, &mut out);
    assert_eq!(out, vec![bold_style(), SpanStyle::default()]);
    let d = DocumentTree {
        blocks: vec![
            Block::Paragraph(p),
            Block::Paragraph(Paragraph::plain("x".to_string(), None)),
        ],
    };
    let all = collect_styles(&d, &LogicalPos::top(0, 8), &LogicalPos::top(1, 1));
    assert_eq!(all, vec![bold_style(), SpanStyle::default(), SpanStyle::default()]);
}

fn config() -> RenderConfig {
    RenderConfig {
        font_id: "test-latin".to_string(),
        base_direction: Direction::Ltr,
        px_size_bits: 20.0_f32.to_bits(),
        line_height_bits: 26.0_f32.to_bits(),
        alignment: Alignment::End,
    }
}

#[test]
fn the_toolbar_falls_back_to_the_configuration() {
    let d = Editor::new("abc").doc();
    let plain = attrs_at(&d, &LogicalPos::top(0, 1), None, None);
    assert_eq!(plain.font_family, "");
    assert_eq!(plain.font_size, FontSize { bits: 16.0_f32.to_bits() });
    assert_eq!(plain.color, Color { r: 0, g: 0, b: 0, a: 255 });
    let cfg = config();
    let set = attrs_at(&d, &LogicalPos::top(0, 1), None, Some(&cfg));
    assert_eq!(set.font_family, "test-latin");
    assert_eq!(set.font_size, FontSize { bits: 20.0_f32.to_bits() });
    let over = SpanStyle { font_family: Some(FontFamily::Amiri), ..SpanStyle::default() };
    let armed = attrs_at(&d, &LogicalPos::top(0, 1), Some(over), Some(&cfg));
    assert_eq!(armed.font_family, "amiri");
}

fn empty_patch() -> TextAttrsPatch {
    TextAttrsPatch {
        bold: None,
        italic: None,
        underline: None,
        strike: None,
        font_family: None,
        font_size: None,
        color: None,
        bg_color: None,
        script: None,
        language: None,
        caps: None,
        small_caps: None,
    }
}

#[test]
fn a_patch_changes_what_it_names() {
    let patch = TextAttrsPatch {
        bold: Some(true),
        script: Some(VerticalScript::Subscript),
        ..empty_patch()
    };
    let style = patch_style(&patch);
    assert_eq!(style.bold, Some(true));
    assert_eq!(style.vert_align, Some(VertAlign::Subscript));
    assert_eq!(style.italic, None);
    let size = FontSize { bits: 16.0_f32.to_bits() };
    let resolved = resolved_attrs(&patch, size);
    assert!(resolved.bold && !resolved.italic);
    assert_eq!(resolved.font_size, size);
    let at = LogicalPos::top(0, 2);
    let armed = apply_formatting(at.clone(), at.clone(), true, None, style);
    assert_eq!(armed, FormatAction::Arm { style });
    let loose = apply_formatting(at.clone(), at.clone(), false, None, style);
    assert_eq!(
        loose,
        FormatAction::Restyle { start: at.clone(), end: at.clone(), patch: style }
    );
}

#[test]
fn paragraph_properties_of_a_selection() {
    let mut first = Paragraph::plain("abc".to_string(), Some(Direction::Ltr));
    first.props.alignment = Some(Alignment::Center);
    let stop =
        TabStop { position_bits: 72.0_f32.to_bits(), kind: BridgeTabKind::Right, leader: None };
    first.props.tab_stops.push(stop);
    let second = Paragraph::plain("مرحبا".to_string(), Some(Direction::Rtl));
    let d = DocumentTree { blocks: vec![Block::Paragraph(first), Block::Paragraph(second)] };
    let (p0, p1) = (BlockPath::top(0), BlockPath::top(1));
    assert_eq!(paragraph_alignment_at(&d, &p0, Some(Alignment::End)), Alignment::Center);
    assert_eq!(paragraph_alignment_at(&d, &p1, Some(Alignment::End)), Alignment::End);
    assert_eq!(paragraph_alignment_at(&d, &p1, None), Alignment::Start);
    let reported = TabStop { leader: Some(BridgeTabLeader::Blank), ..stop };
    assert_eq!(tab_stops_for_caret(&d, &p0), vec![reported]);
    assert!(tab_stops_for_caret(&d, &BlockPath::top(5)).is_empty());
    let both =
        paragraph_direction_over(&d, &LogicalPos::top(0, 0), &LogicalPos::top(1, 2), None);
    assert_eq!(both, None, "the paragraphs disagree");
    let one = paragraph_direction_over(&d, &LogicalPos::top(1, 0), &LogicalPos::top(1, 2), None);
    assert_eq!(one, Some(Direction::Rtl));
}

#[test]
fn the_innermost_cell_reports_its_properties() {
    let red = Color { r: 255, g: 0, b: 0, a: 255 };
    let stroke =
        BridgeBorderStroke { style: BridgeBorderStyle::Double, size_eighth_pt: 4, color: None };
    let borders =
        BridgeCellBorders { top: Some(stroke), left: None, bottom: None, right: None };
    let cell = |blocks: Vec<Block>, borders: Option<BridgeCellBorders>| TableCell {
        blocks,
        props: CellProps {
            v_merge: VMergeRole::Alone,
            grid_span: 1,
            shading: Some(red),
            borders,
            width_twips: None,
        },
    };
    let inner = Block::Table(Table {
        rows: vec![TableRow { cells: vec![cell(Vec::new(), None)] }],
        bidi_visual: false,
    });
    let d = DocumentTree {
        blocks: vec![Block::Table(Table {
            rows: vec![TableRow { cells: vec![cell(vec![inner], Some(borders))] }],
            bidi_visual: true,
        })],
    };
    let outer_path = BlockPath {
        steps: vec![PathStep::Block { idx: 0 }, PathStep::Cell { row: 0, col: 0 }],
    };
    let outer = cell_properties_for_caret(&d, &outer_path).unwrap();
    assert_eq!((outer.shading, outer.borders), (Some(red), borders));
    assert!(outer.table_bidi_visual);
    let inner_path =
        outer_path.child(PathStep::Block { idx: 0 }).child(PathStep::Cell { row: 0, col: 0 });
    let inner = cell_properties_for_caret(&d, &inner_path).unwrap();
    assert_eq!(inner.borders.top, None);
    assert!(inner.table_bidi_visual, "the top-level table decides");
    assert!(cell_for_caret(&d, &inner_path).unwrap().blocks.is_empty());
    assert_eq!(cell_properties_for_caret(&d, &BlockPath::top(0)), None);
}

#[test]
fn header_story_toggle_arms_and_applies_pending_formatting() {
    let body = Editor::new("body text");
    let mut session = Session::new();
    let at = LogicalPos::top(0, 0);
    session.set_selection(at.clone(), at.clone(), at.clone());
    session.enter_story(HeaderFooterArea::Header, at);
    assert!(session.story.is_some());
    let mut header = Editor::new("");
    header.toggle(FormattingToggle::Bold);
    assert!(header.toolbar().bold, "toolbar previews the armed bold");
    header.type_text("Hi");
    header.toggle(FormattingToggle::Bold);
    header.type_text(" there");
    assert!(header.is_bold(0));
    assert!(header.is_bold(1));
    assert!(!header.is_bold(3));
    assert!((0..9).all(|o| !body.is_bold(o)));

    header.toggle(FormattingToggle::Italic);
    assert!(header.pending.is_some());
    session.pending = header.pending;
    session.exit_story(&body.doc());
    assert!(session.pending.is_none(), "exit discards the armed style");
}
