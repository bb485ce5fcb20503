//! Sessions, the rules of single commands and their routing.

use wordcore::attrs::TextAttrsPatch;
use wordcore::cache::RenderConfig;
use wordcore::caret::{clamp_pos, step_right, CharStep};
use wordcore::command::{
    BridgeBorderStroke, BridgeBorderStyle, BridgeCellBorders, FieldKind, FormattingToggle,
    HeaderFooterArea, ImageBlob, ImageFit, InsertSide, ListKind, MoveDirection, PageOrientation,
    PdfConformance, SectionBreakKind, TocSwitches,
};
use wordcore::common::{
    Alignment, BlockPath, Color, Direction, DocFormat, LogicalPos, LogicalRange, PathStep, Point,
    Rect, SelectionKind,
};
use wordcore::dispatch::{
    announcement, apply, clears_kept_layouts, clears_layout_cache, leaves_document, repaints,
    shortens, story_entered, Command, DocOp, Real, Refusal, Route, Situation,
};
use wordcore::document::{
    Block, CellProps, DocumentTree, NoteKind, Paragraph, Revision, RevisionKind, SpanStyle, Table, TableCell,
    TableRow, VMergeRole,
};
use wordcore::edits::{
    align_label, border_target, clamp_zoom, clipboard_range, comments_snapshot, direction_label,
    document_tree_bytes, image_size, insert_index, normalize_newlines, note_label, open_format,
    page_break_label, parse_alignment, parse_direction, paste_range, pdf_profile, plan_paste,
    resolve_label, revisions_snapshot, save_format, style_label, CommentDef, CommentRange, FormatError, Paste,
    PdfProfile, Writer,
};
use wordcore::event::AnnouncementPriority;
use wordcore::field::{field_at_caret, keyword_of, Field};
use wordcore::geometry::{CaretAffinity, CaretSlot, LineGeom, RunGeom};
use wordcore::motion::{cell_content, finish_move, plan_move, MoveGoal, SelectionState};
use wordcore::session::{
    bump_last_block_index, Announcements, MutationSeq, Session, SessionError,
};

/// A caret in the body of a document that was laid out.
const BODY: Situation = Situation { has_selection: true, has_layout: true, story: None };

fn para(text: &str) -> Block {
    Block::Paragraph(Paragraph::plain(text.to_string(), Some(Direction::Ltr)))
}

fn doc(texts: &[&str]) -> DocumentTree {
    DocumentTree { blocks: texts.iter().map(|t| para(t)).collect() }
}

fn row(texts: &[&str]) -> TableRow {
    TableRow {
        cells: texts
            .iter()
            .map(|t| TableCell {
                blocks: vec![para(t)],
                props: CellProps {
                    v_merge: VMergeRole::Alone,
                    grid_span: 1,
                    shading: None,
                    borders: None,
                    width_twips: None,
                },
            })
            .collect(),
    }
}

fn table_doc(rows: &[&[&str]], tail: &str) -> DocumentTree {
    let table = Block::Table(Table {
        rows: rows.iter().map(|r| row(r)).collect(),
        bidi_visual: false,
    });
    DocumentTree { blocks: vec![table, para(tail)] }
}

fn in_cell(row: u32, col: u32, offset: u32) -> LogicalPos {
    LogicalPos {
        path: BlockPath {
            steps: vec![
                PathStep::Block { idx: 0 },
                PathStep::Cell { row, col },
                PathStep::Block { idx: 0 },
            ],
        },
        offset,
    }
}

/// A story with its own blocks, a caret in it, and a count of its edits.
struct Story {
    doc: DocumentTree,
    session: Session,
    edits: u32,
}

impl Story {
    fn new(doc: DocumentTree) -> Story {
        let mut session = Session::new();
        session.set_selection(in_cell(0, 0, 0), in_cell(0, 0, 0), in_cell(0, 0, 0));
        Story { doc, session, edits: 0 }
    }

    fn tab(&mut self, forward: bool) {
        let direction = if forward { MoveDirection::NextCell } else { MoveDirection::PrevCell };
        let sel = self.session.selection.clone().unwrap();
        let (goal, side) =
            plan_move(&self.doc, None, None, &sel, self.session.affinity, direction).unwrap();
        if let MoveGoal::NewRow { table_path, at } = &goal {
            let Some(PathStep::Block { idx }) = table_path.steps.first() else {
                panic!("a table path");
            };
            let Block::Table(t) = &mut self.doc.blocks[*idx as usize] else {
                panic!("a table");
            };
            let cells = t.rows[*at as usize - 1].cells.len();
            t.rows.insert(*at as usize, row(&vec![""; cells]));
            self.edits += 1;
        }
        let next = finish_move(&self.doc, &sel, goal, false);
        self.session.moved_to(next, side);
    }

    fn type_text(&mut self, text: &str) {
        let at = self.session.selection.as_ref().unwrap().caret.clone();
        let plan = self.session.plan_insert(at, text.len() as u32);
        let PathStep::Cell { row, col } = plan.start.path.steps[1] else {
            panic!("a cell path");
        };
        let Block::Table(t) = &mut self.doc.blocks[0] else {
            panic!("a table");
        };
        let Block::Paragraph(p) =
            &mut t.rows[row as usize].cells[col as usize].blocks[0]
        else {
            panic!("a paragraph");
        };
        p.text.replace_range(plan.start.offset as usize..plan.end.offset as usize, text);
        self.edits += 1;
        self.session.commit_edit(&self.doc, plan.caret);
    }

    fn caret_cell(&self) -> (u32, u32) {
        let sel = self.session.selection.as_ref().unwrap();
        match sel.caret.path.steps.get(1) {
            Some(PathStep::Cell { row, col }) => (*row, *col),
            other => panic!("caret not in a cell: {other:?}"),
        }
    }

    fn rows(&self) -> usize {
        match &self.doc.blocks[0] {
            Block::Table(t) => t.rows.len(),
            Block::Paragraph(_) => 0,
        }
    }
}

#[test]
fn tab_and_shift_tab_walk_a_header_tables_cells() {
    let mut e = Story::new(table_doc(&[&["", ""]], ""));
    e.tab(true);
    assert_eq!(e.caret_cell(), (0, 1));
    e.tab(false);
    assert_eq!(e.caret_cell(), (0, 0));
    e.tab(false);
    assert_eq!(e.caret_cell(), (0, 0));
}

#[test]
fn tab_selects_the_destination_cells_content_in_a_story() {
    let mut e = Story::new(table_doc(&[&["", ""]], ""));
    e.tab(true);
    e.type_text("abc");
    e.tab(false);
    e.tab(true);
    let sel = e.session.selection.clone().unwrap();
    assert_eq!(sel.anchor.offset, 0);
    assert_eq!(sel.caret.offset, 3);
    assert_eq!(e.caret_cell(), (0, 1));
}

#[test]
fn tab_past_the_last_cell_appends_a_row_to_the_header_only() {
    let body = doc(&["body text"]);
    let mut e = Story::new(table_doc(&[&["", ""]], ""));
    e.tab(true);
    let edits = e.edits;
    e.tab(true);
    assert_eq!(e.rows(), 2, "row appended in the part");
    assert_eq!(e.caret_cell(), (1, 0));
    assert_eq!(e.edits, edits + 1, "exactly one edit");
    assert_eq!(body, doc(&["body text"]), "the body is untouched");
    e.type_text("x");
    let Block::Table(t) = &e.doc.blocks[0] else {
        unreachable!()
    };
    assert_eq!(t.rows[1].cells[0].blocks[0], para("x"));
}

#[test]
fn body_tab_path_is_unchanged() {
    let mut e = Story::new(table_doc(&[&["", ""]], "tail"));
    e.tab(true);
    assert_eq!(e.caret_cell(), (0, 1));
    let edits = e.edits;
    e.tab(true);
    assert_eq!(e.caret_cell(), (1, 0));
    assert_eq!(e.edits, edits + 1);
    assert_eq!(e.rows(), 2);
    e.tab(false);
    assert_eq!(e.caret_cell(), (0, 1));
}

#[test]
fn the_selection_is_clamped_after_a_merge() {
    let merged = doc(&["hello world tail", "last"]);
    let mut s = Session::new();
    s.set_selection(LogicalPos::top(1, 10), LogicalPos::top(2, 4), LogicalPos::top(2, 4));
    assert!(s.after_history_change(&merged));
    let sel = s.selection.clone().unwrap();
    assert_eq!(clamp_pos(&merged, sel.anchor.clone()), sel.anchor);
    assert_eq!(clamp_pos(&merged, sel.caret.clone()), sel.caret);
}

#[test]
fn a_no_op_undo_is_not_a_mutation() {
    let mut m = MutationSeq { seq: 3 };
    assert!(!m.observe(leaves_document(&apply(Command::Undo, BODY)), false, 5, 5));
    assert_eq!(m.seq, 3);
}

#[test]
fn the_mutation_count_only_rises() {
    let mut m = MutationSeq { seq: 0 };
    for (from, to) in [(0, 1), (1, 1), (1, 2), (2, 1)] {
        let before = m.seq;
        let query = leaves_document(&apply(Command::Undo, BODY));
        assert_eq!(m.observe(query, false, from, to), from != to);
        assert_eq!(m.seq > before, from != to);
    }
    assert_eq!(m.seq, 3);
}

#[test]
fn the_snapshot_lists_tracked_changes_and_the_paragraph_mark() {
    let rev = |kind: RevisionKind, start: u32, end: u32| Revision {
        start,
        end,
        kind,
        author: "A".to_string(),
        date: "d".to_string(),
    };
    let mut p = Paragraph::plain("drop hello ".to_string(), None);
    p.revisions.push(rev(RevisionKind::Delete, 0, 5));
    p.mark_revision = Some(rev(RevisionKind::Insert, 0, 0));
    let d = DocumentTree { blocks: vec![para("x"), Block::Paragraph(p)] };
    let rows = revisions_snapshot(&d);
    let got: Vec<(u32, u32, u32, bool)> =
        rows.iter().map(|r| (r.block, r.start, r.end, r.inserted)).collect();
    assert_eq!(got, vec![(1, 0, 5, false), (1, 11, 11, true)]);
    assert_eq!((rows[0].author.as_str(), rows[0].date.as_str()), ("A", "d"));
    assert_eq!(document_tree_bytes(&d), 12);
}

#[test]
fn comments_are_listed_with_their_ranges() {
    let defs = vec![CommentDef {
        id: 4,
        author: "A".to_string(),
        date: "d".to_string(),
        paragraphs: vec!["one".to_string(), "two".to_string()],
    }];
    let ranges = vec![
        CommentRange { id: 4, start: LogicalPos::top(1, 2), end: LogicalPos::top(1, 7) },
        CommentRange { id: 9, start: LogicalPos::top(0, 0), end: LogicalPos::top(0, 1) },
    ];
    let rows = comments_snapshot(&ranges, &defs);
    assert_eq!(rows.len(), 2);
    assert_eq!((rows[0].id, rows[0].text.as_str()), (4, "one\ntwo"));
    assert_eq!((rows[0].start_block, rows[0].start_offset, rows[0].end_offset), (1, 2, 7));
    assert_eq!((rows[1].id, rows[1].text.as_str()), (9, ""), "a range without a comment");
}

#[test]
fn a_selection_drops_the_armed_style() {
    let d = doc(&["hello", "world"]);
    let mut s = Session::new();
    s.pending = Some(SpanStyle { bold: Some(true), ..SpanStyle::default() });
    s.affinity = CaretAffinity::TrailingX;
    s.set_selection(LogicalPos::top(0, 1), LogicalPos::top(0, 3), LogicalPos::top(0, 1));
    assert_eq!(s.pending, None);
    assert_eq!(s.affinity, CaretAffinity::LeadingX);
    let sel = s.selection.clone().unwrap();
    assert_eq!((sel.anchor, sel.caret), (LogicalPos::top(0, 3), LogicalPos::top(0, 1)));
    s.extend_selection(LogicalPos::top(1, 2));
    let sel = s.selection.clone().unwrap();
    assert_eq!((sel.anchor, sel.caret), (LogicalPos::top(0, 3), LogicalPos::top(1, 2)));
    s.select_word(LogicalPos::top(0, 2), 0, 5);
    let sel = s.selection.clone().unwrap();
    assert_eq!((sel.anchor.offset, sel.caret.offset), (0, 5));
    s.select_paragraph(&d, LogicalPos::top(1, 2));
    let sel = s.selection.clone().unwrap();
    assert_eq!((sel.anchor, sel.caret), (LogicalPos::top(1, 0), LogicalPos::top(1, 5)));
    s.select_all(&d);
    let sel = s.selection.clone().unwrap();
    assert_eq!((sel.anchor, sel.caret), (LogicalPos::top(0, 0), LogicalPos::top(1, 5)));
}

#[test]
fn a_cell_selection_covers_the_cell() {
    let d = table_doc(&[&["ab", "cde"]], "tail");
    let mut s = Session::new();
    s.select_cell(&d, in_cell(0, 1, 1));
    let sel = s.selection.clone().unwrap();
    assert_eq!((sel.anchor, sel.caret), (in_cell(0, 1, 0), in_cell(0, 1, 3)));
    let (a, b) = cell_content(&d, &BlockPath::top(0), 0, 0);
    assert_eq!((a, b), (in_cell(0, 0, 0), in_cell(0, 0, 2)));
    s.set_selection(in_cell(0, 0, 0), in_cell(0, 1, 0), in_cell(0, 1, 0));
    assert!(matches!(s.selection.unwrap().kind, SelectionKind::TableCells { .. }));
}

#[test]
fn typing_replaces_the_selection() {
    let mut s = Session::new();
    let plan = s.plan_insert(LogicalPos::top(0, 4), 3);
    assert_eq!((plan.start, plan.end), (LogicalPos::top(0, 4), LogicalPos::top(0, 4)));
    assert_eq!(plan.caret, LogicalPos::top(0, 7));
    s.set_selection(LogicalPos::top(1, 2), LogicalPos::top(0, 1), LogicalPos::top(0, 1));
    s.pending = Some(SpanStyle { bold: Some(true), ..SpanStyle::default() });
    let plan = s.plan_insert(LogicalPos::top(9, 9), 3);
    assert_eq!((plan.start, plan.end), (LogicalPos::top(0, 1), LogicalPos::top(1, 2)));
    assert_eq!(plan.style, s.pending);
    let split = s.plan_split(LogicalPos::top(9, 9));
    assert_eq!(split.start, LogicalPos::top(0, 1));
    assert_eq!(split.caret, LogicalPos::top(1, 0));
    assert_eq!(bump_last_block_index(&BlockPath::root()), BlockPath::root());
}

#[test]
fn the_delete_key_needs_a_selection() {
    let d = doc(&["hello"]);
    let mut s = Session::new();
    let step = CharStep { prev: 4, next: 5 };
    assert_eq!(s.plan_delete(&d, false, false, step), Err(SessionError::NoSelection));
    s.set_selection(LogicalPos::top(0, 5), LogicalPos::top(0, 5), LogicalPos::top(0, 5));
    assert_eq!(
        s.plan_delete(&d, false, false, step),
        Ok(Some((LogicalPos::top(0, 4), LogicalPos::top(0, 5))))
    );
    assert_eq!(s.plan_delete(&d, true, false, step), Ok(None));
    s.set_selection(LogicalPos::top(0, 1), LogicalPos::top(0, 3), LogicalPos::top(0, 3));
    assert_eq!(
        s.plan_delete(&d, true, true, step),
        Ok(Some((LogicalPos::top(0, 1), LogicalPos::top(0, 3))))
    );
}

#[test]
fn a_composition_goes_where_it_began() {
    let mut s = Session::new();
    s.begin_composition(LogicalPos::top(0, 2));
    assert_eq!(s.update_composition("ع".to_string()), LogicalPos::top(0, 2));
    let (start, end, text) = s.end_composition(true).unwrap();
    assert_eq!((start, end), (LogicalPos::top(0, 2), LogicalPos::top(0, 2)));
    assert_eq!(text, "ع");
    assert!(s.composition.is_none());
    s.begin_composition(LogicalPos::top(0, 2));
    s.update_composition("x".to_string());
    assert_eq!(s.end_composition(false), None, "a cancelled one inserts nothing");
    s.begin_composition(LogicalPos::top(0, 2));
    assert_eq!(s.end_composition(true), None, "nor does an empty one");
    assert_eq!(s.update_composition("y".to_string()), LogicalPos::top(0, 0));
    s.set_selection(LogicalPos::top(0, 4), LogicalPos::top(0, 6), LogicalPos::top(0, 6));
    let (start, end, _) = s.end_composition(true).unwrap();
    assert_eq!((start, end), (LogicalPos::top(0, 4), LogicalPos::top(0, 6)));
}

fn text_line(bytes: u32) -> LineGeom {
    let slots: Vec<CaretSlot> =
        (0..=bytes).map(|i| CaretSlot { x: (i as i32) * 640, byte: i }).collect();
    LineGeom {
        path: BlockPath::top(0),
        start_x: 0,
        hit_left: 0,
        hit_width: 64_000,
        y_top: 0,
        height: 1_280,
        start_byte: 0,
        end_byte: bytes,
        slots: slots.clone(),
        runs: vec![RunGeom { src_start: 0, src_end: bytes, slots }],
    }
}

#[test]
fn a_selection_report_shows_caret_and_highlights() {
    let d = doc(&["hello"]);
    let geom = vec![text_line(5)];
    let fallback = Rect { x: 0, y: 0, w: 0, h: 0 };
    let cfg = RenderConfig {
        font_id: "f".to_string(),
        base_direction: Direction::Ltr,
        px_size_bits: 16.0_f32.to_bits(),
        line_height_bits: 26.0_f32.to_bits(),
        alignment: Alignment::Justify,
    };
    let mut s = Session::new();
    let r = s.selection_changed(&d, Some(&geom), Some(&cfg), 0, fallback, 96);
    assert_eq!(r.err(), Some(SessionError::NoSelection));
    s.set_selection(LogicalPos::top(0, 1), LogicalPos::top(0, 3), LogicalPos::top(0, 3));
    let r = s.selection_changed(&d, None, Some(&cfg), 0, fallback, 96);
    assert_eq!(r.err(), Some(SessionError::NoLayout));
    let r = s.selection_changed(&d, Some(&geom), Some(&cfg), 0, fallback, 96).unwrap();
    assert_eq!((r.start, r.end), (LogicalPos::top(0, 1), LogicalPos::top(0, 3)));
    assert_eq!(r.caret, Rect { x: 3 * 640, y: 0, w: 96, h: 1_280 });
    assert_eq!(r.rects, vec![Rect { x: 640, y: 0, w: 2 * 640, h: 1_280 }]);
    assert_eq!(r.paragraph_alignment, Alignment::Justify);
    assert_eq!(r.direction, Direction::Ltr);
    s.set_selection(LogicalPos::top(0, 2), LogicalPos::top(0, 2), LogicalPos::top(0, 2));
    let r = s.selection_changed(&d, Some(&geom), Some(&cfg), 1, fallback, 96).unwrap();
    assert!(r.rects.is_empty() && !r.attrs_mixed.bold, "a caret highlights nothing");
}

#[test]
fn edits_put_the_caret_back_into_the_document() {
    let d = doc(&["hi"]);
    let mut s = Session::new();
    s.affinity = CaretAffinity::TrailingX;
    s.commit_edit(&d, LogicalPos::top(0, 99));
    assert_eq!(s.selection.clone().unwrap().caret, LogicalPos::top(0, 2));
    assert_eq!(s.affinity, CaretAffinity::LeadingX);
    s.moved_to(SelectionState::at(LogicalPos::top(0, 1)), CaretAffinity::TrailingX);
    assert_eq!(s.affinity, CaretAffinity::TrailingX, "an arrow keeps its side");
    let mut none = Session::new();
    assert!(!none.after_history_change(&d));
}

#[test]
fn announcements_come_out_in_order() {
    let mut a = Announcements { queue: Vec::new() };
    a.announce(AnnouncementPriority::Polite, "one".to_string());
    a.announce(AnnouncementPriority::Assertive, "two".to_string());
    let out = a.drain();
    assert_eq!(out[0], (AnnouncementPriority::Polite, "one".to_string()));
    assert_eq!(out[1].1, "two");
    assert!(a.drain().is_empty());
}

#[test]
fn pasted_line_breaks_become_line_feeds() {
    assert_eq!(normalize_newlines("a\r\nb\rc\nd"), "a\nb\nc\nd");
    assert_eq!(normalize_newlines("\r\r\n"), "\n\n");
    assert_eq!(plan_paste("one"), Paste::Line { text: "one".to_string() });
    assert_eq!(plan_paste("one\rtwo"), Paste::Lines { text: "one\ntwo".to_string() });
    let mut s = Session::new();
    assert_eq!(paste_range(&s), (LogicalPos::top(0, 0), LogicalPos::top(0, 0)));
    assert_eq!(clipboard_range(&s), None);
    s.set_selection(LogicalPos::top(0, 3), LogicalPos::top(0, 1), LogicalPos::top(0, 1));
    let range = (LogicalPos::top(0, 1), LogicalPos::top(0, 3));
    assert_eq!(paste_range(&s), range.clone());
    assert_eq!(clipboard_range(&s), Some(range));
}

#[test]
fn pictures_fit_with_their_proportions() {
    assert_eq!(image_size(10, 20, ImageFit::Original), (95_250, 190_500));
    assert_eq!(image_size(100, 50, ImageFit::FitWidth), (5_486_400, 2_743_200));
    assert_eq!(image_size(100, 50, ImageFit::FitPage), (4_572_000, 2_286_000));
    assert_eq!(image_size(0, 50, ImageFit::FitPage), (4_572_000, 4_572_000));
    assert_eq!(image_size(4_000_000_000, 0, ImageFit::FitWidth), (5_486_400, 1));
}

#[test]
fn table_positions_and_borders() {
    assert_eq!(insert_index(3, InsertSide::Before), 3);
    assert_eq!(insert_index(3, InsertSide::After), 4);
    let none = BridgeCellBorders { top: None, left: None, bottom: None, right: None };
    assert_eq!(border_target(none), None);
    let stroke =
        BridgeBorderStroke { style: BridgeBorderStyle::Single, size_eighth_pt: 4, color: None };
    let some = BridgeCellBorders { left: Some(stroke), ..none };
    assert_eq!(border_target(some), Some(some));
}

#[test]
fn formats_that_cannot_be_opened_or_saved() {
    assert_eq!(open_format(DocFormat::Docx), Ok(()));
    assert_eq!(open_format(DocFormat::Html), Err(FormatError::CannotOpen));
    assert_eq!(save_format(DocFormat::Docx), Ok(Writer::Docx));
    assert_eq!(save_format(DocFormat::Html), Ok(Writer::Html));
    assert_eq!(save_format(DocFormat::PlainText), Ok(Writer::PlainText));
    assert_eq!(save_format(DocFormat::Pdf), Err(FormatError::UseExport));
    assert_eq!(pdf_profile(PdfConformance::A1b), PdfProfile::A1b);
    assert_eq!(pdf_profile(PdfConformance::A2u), PdfProfile::Plain);
}

#[test]
fn words_are_read_whatever_their_case() {
    assert_eq!(parse_direction("rTl"), Direction::Rtl);
    assert_eq!(parse_direction("sideways"), Direction::Ltr);
    assert_eq!(parse_alignment("Justify"), Alignment::Justify);
    assert_eq!(parse_alignment("center"), Alignment::Center);
    assert_eq!(parse_alignment("END"), Alignment::End);
    assert_eq!(parse_alignment(""), Alignment::Start);
}

#[test]
fn zoom_stays_in_its_range() {
    let zoom = |x: f32| f32::from_bits(clamp_zoom(x.to_bits()));
    assert_eq!(zoom(1.5), 1.5);
    assert_eq!(zoom(0.01), 0.25);
    assert_eq!(zoom(-3.0), 0.25);
    assert_eq!(zoom(99.0), 4.0);
}

#[test]
fn spoken_feedback_names_the_change() {
    assert_eq!(align_label(Alignment::Center), "Aligned center");
    assert_eq!(direction_label(Direction::Rtl), "Direction set to right to left");
    assert_eq!(resolve_label(true), "Comment resolved");
    assert_eq!(resolve_label(false), "Comment reopened");
    assert_eq!(style_label(&Some("Heading1".to_string())), "Applied style Heading1");
    assert_eq!(style_label(&None), "Cleared paragraph style");
    let toc = TocSwitches::default();
    assert!(toc.outline_min <= toc.outline_max);
}

fn range(p: u32, a: u32, b: u32) -> LogicalRange {
    LogicalRange { start: LogicalPos::top(p, a), end: LogicalPos::top(p, b) }
}

fn no_attrs() -> TextAttrsPatch {
    TextAttrsPatch {
        bold: None,
        italic: None,
        underline: None,
        strike: None,
        font_family: None,
        font_size: None,
        color: None,
        bg_color: None,
        script: None,
        language: None,
        caps: None,
        small_caps: None,
    }
}

fn float(x: f32) -> Real {
    Real { bits: x.to_bits() }
}

#[test]
fn every_mutating_command_class_bumps_the_mutation_seq() {
    let t = BlockPath::top(0);
    let red = Some(Color { r: 255, g: 0, b: 0, a: 255 });
    let changing = vec![
        Command::InsertText { at: None, text: "x".to_string() },
        Command::DeleteRange { range: range(0, 0, 5) },
        Command::ReplaceRange { range: range(0, 0, 5), text: "howdy".to_string() },
        Command::DeleteAtCaret { forward: false, by_word: false },
        Command::SplitParagraph { at: Some(LogicalPos::top(0, 5)) },
        Command::PastePlain { text: "p".to_string() },
        Command::PasteHtml { html: "<p>h</p>".to_string() },
        Command::EndComposition { commit: true },
        Command::ApplyFormatting {
            range: Some(range(0, 0, 5)),
            attrs: TextAttrsPatch { bold: Some(true), ..no_attrs() },
        },
        Command::SetParagraphAlign { range: range(0, 0, 0), align: Alignment::Center },
        Command::SetParagraphDirection { range: range(0, 0, 0), direction: Direction::Rtl },
        Command::SetParagraphIndent {
            range: range(0, 0, 0),
            start_pt: float(18.0),
            end_pt: float(0.0),
            first_line_pt: float(0.0),
        },
        Command::SetLineSpacing { range: range(0, 0, 0), multiplier: float(2.0) },
        Command::SetParagraphShading { range: range(0, 0, 0), color: red },
        Command::ApplyStyle { range: range(0, 0, 0), style_id: Some("Heading1".to_string()) },
        Command::ToggleList { range: range(0, 0, 0), kind: ListKind::Bullet },
        Command::ChangeListLevel { range: range(0, 0, 0), delta: 1 },
        Command::InsertPageBreak { at: LogicalPos::top(0, 5) },
        Command::InsertSectionBreak {
            at: LogicalPos::top(0, 5),
            kind: SectionBreakKind::NextPage,
        },
        Command::InsertField { at: LogicalPos::top(0, 0), kind: FieldKind::Page },
        Command::InsertToc { at: LogicalPos::top(0, 0), switches: TocSwitches::default() },
        Command::InsertFootnote { at: LogicalPos::top(0, 5) },
        Command::InsertEndnote { at: LogicalPos::top(0, 5) },
        Command::InsertTextBox {
            at: LogicalPos::top(0, 5),
            width_emu: 914_400,
            height_emu: 457_200,
        },
        Command::SetPageOrientation {
            at: LogicalPos::top(0, 0),
            orientation: PageOrientation::Landscape,
        },
        Command::SetPageMargins {
            at: LogicalPos::top(0, 0),
            top: float(36.0),
            right: float(36.0),
            bottom: float(36.0),
            left: float(36.0),
        },
        Command::InsertImage {
            at: LogicalPos::top(0, 5),
            image: ImageBlob {
                bytes: vec![0x89, b'P', b'N', b'G'],
                mime: "image/png".to_string(),
                width: 10,
                height: 10,
            },
            fit: ImageFit::Original,
        },
        Command::InsertTable { at: BlockPath::top(1), rows: 2, cols: 2 },
        Command::DeleteTable { path: t.clone() },
        Command::InsertRow { table_path: t.clone(), row: 0, side: InsertSide::After },
        Command::DeleteColumn { table_path: t.clone(), col: 1 },
        Command::MergeCells {
            table_path: t.clone(),
            from_row: 0,
            from_col: 0,
            to_row: 0,
            to_col: 1,
        },
        Command::SetCellShading { table_path: t, row: 0, col: 0, color: red },
        Command::InsertComment {
            range: range(0, 0, 5),
            text: "note".to_string(),
            author: "A".to_string(),
        },
        Command::Undo,
        Command::Redo,
        Command::LoadDocx { bytes: vec![1, 2, 3] },
        Command::RenderPage {
            text: "fresh".to_string(),
            font_id: "test-latin".to_string(),
            base_direction: "LTR".to_string(),
            px_size: float(16.0),
            line_height: float(26.0),
            align: "START".to_string(),
            device_pixel_ratio: None,
        },
    ];
    let mut count = MutationSeq { seq: 0 };
    for cmd in changing {
        let before = count.seq;
        assert!(count.observe(leaves_document(&apply(cmd, BODY)), false, 1, 2));
        assert!(count.seq > before);
    }
    let in_header = Situation { story: Some(HeaderFooterArea::Header), ..BODY };
    let typed = Command::InsertText { at: None, text: "head".to_string() };
    let route = apply(typed, in_header);
    assert!(matches!(&route, Route::TypeAtCaret { text } if text == "head"));
    let before = count.seq;
    assert!(count.observe(leaves_document(&route), false, 1, 2));
    assert!(count.seq > before);
}

#[test]
fn queries_leave_the_mutation_seq_alone() {
    let viewport = Rect { x: 0, y: 0, w: 600, h: 800 };
    let reading = vec![
        Command::Ping,
        Command::RequestStats,
        Command::HitTest { at: Point { x: 10, y: 10 } },
        Command::SetSelection { range: range(0, 0, 5), caret: LogicalPos::top(0, 5) },
        Command::MoveCaret { direction: MoveDirection::Right, extend: false },
        Command::SelectAll,
        Command::GetSelectionAsClipboard { include_docx: None },
        Command::RequestAccessibilityDelta,
        Command::RequestPaint { viewport, dirty: None },
        Command::SetViewport { rect: viewport },
        Command::SetZoom { scale: float(1.5) },
        Command::SetFieldCodeView { enabled: true },
        Command::SaveDocx,
        Command::Snapshot { seq: None, detach_package: None, known_package_hash: None },
        Command::GetImageRects,
        Command::ToggleTrackChanges { enabled: true },
        Command::UpdateComposition { text: "ع".to_string(), target_range: None },
        Command::EndComposition { commit: false },
    ];
    let mut count = MutationSeq { seq: 7 };
    for cmd in reading {
        assert!(!count.observe(leaves_document(&apply(cmd, BODY)), false, 1, 2));
        assert_eq!(count.seq, 7);
    }
}

#[test]
fn commands_are_routed_with_their_ranges_in_order() {
    let back = LogicalRange { start: LogicalPos::top(2, 0), end: LogicalPos::top(1, 4) };
    let route = apply(Command::DeleteRange { range: back }, BODY);
    let Route::Delete { start, end } = route else {
        panic!("a deletion");
    };
    assert_eq!((start, end), (LogicalPos::top(1, 4), LogicalPos::top(2, 0)));
    let typed = |has_selection: bool| {
        let insert = Command::InsertText { at: None, text: "x".to_string() };
        apply(insert, Situation { has_selection, ..BODY })
    };
    assert!(matches!(typed(true), Route::TypeAtCaret { .. }));
    assert!(matches!(typed(false), Route::Append { .. }));
    let glyph = |ch: &str| {
        apply(
            Command::RasterizeGlyph {
                font_id: "f".to_string(),
                ch: ch.to_string(),
                px_size: float(16.0),
            },
            BODY,
        )
    };
    assert!(matches!(glyph(""), Route::NoCharacter));
    assert!(matches!(glyph("عx"), Route::Rasterize { ch: 'ع', .. }));
    let open = Command::OpenDocument { bytes: Vec::new(), format: DocFormat::Pdf, name: None };
    assert!(matches!(
        apply(open, BODY),
        Route::WrongFormat { error: FormatError::CannotOpen }
    ));
    let save = Command::SaveDocument { format: DocFormat::Pdf };
    assert!(matches!(apply(save, BODY), Route::WrongFormat { error: FormatError::UseExport }));
    let font = apply(Command::LoadFont { id: "f".to_string(), bytes: Vec::new() }, BODY);
    assert!(clears_kept_layouts(&font), "fonts feed every layout");
    assert!(!clears_kept_layouts(&apply(Command::Undo, BODY)));
    assert!(matches!(
        apply(Command::CloseDocument, BODY),
        Route::Unsupported { name: "CloseDocument" }
    ));
    let zoom = apply(Command::SetZoom { scale: float(99.0) }, BODY);
    let Route::Zoom { scale } = zoom else {
        panic!("a zoom");
    };
    assert_eq!(scale, float(4.0));
    let image = Command::InsertImage {
        at: LogicalPos::top(0, 0),
        image: ImageBlob { bytes: vec![1], mime: "image/png".to_string(), width: 10, height: 10 },
        fit: ImageFit::Original,
    };
    let Route::Edit { op } = apply(image, BODY) else {
        panic!("an edit");
    };
    assert!(matches!(op, DocOp::InsertImage { width_emu: 95_250, height_emu: 95_250, .. }));
    assert!(clears_layout_cache(&op) && repaints(&op));
    assert_eq!(announcement(&op), None);
    let resolve = DocOp::ResolveComment { id: 1, resolved: true };
    assert!(!clears_layout_cache(&resolve) && !repaints(&resolve));
    assert_eq!(announcement(&resolve).as_deref(), Some("Comment resolved"));
    let aligned = DocOp::SetAlignment {
        start: LogicalPos::top(0, 0),
        end: LogicalPos::top(0, 0),
        align: Alignment::Center,
    };
    assert_eq!(announcement(&aligned).as_deref(), Some(align_label(Alignment::Center)));
}

fn refused(cmd: Command, s: Situation) -> Option<Refusal> {
    match apply(cmd, s) {
        Route::Refused { why, .. } => Some(why),
        _ => None,
    }
}

#[test]
fn commands_are_refused_where_they_do_not_belong() {
    let cell = || in_cell(0, 0, 0);
    let body = || LogicalPos::top(0, 0);
    let in_note = Situation { story: Some(HeaderFooterArea::Footnote), ..BODY };
    let in_header = Situation { story: Some(HeaderFooterArea::Header), ..BODY };
    let section = |at| Command::InsertSectionBreak { at, kind: SectionBreakKind::OddPage };
    assert_eq!(refused(section(cell()), BODY), Some(Refusal::InTable));
    assert_eq!(refused(section(body()), BODY), None);
    let field = |at| Command::InsertField { at, kind: FieldKind::Date };
    assert_eq!(refused(field(cell()), in_header), Some(Refusal::InTable));
    assert_eq!(refused(field(body()), in_header), None);
    let toc = |at| Command::InsertToc { at, switches: TocSwitches::default() };
    assert_eq!(refused(toc(cell()), BODY), Some(Refusal::InTable));
    assert_eq!(refused(toc(body()), in_note), Some(Refusal::InStory));
    let foot = |at| Command::InsertFootnote { at };
    assert_eq!(refused(foot(cell()), BODY), Some(Refusal::InTable));
    assert_eq!(refused(foot(body()), in_header), Some(Refusal::InStory));
    assert_eq!(refused(foot(body()), BODY), None);
    let link = || Command::SetHeaderFooterLink { linked: true };
    assert_eq!(refused(link(), BODY), Some(Refusal::NotInBand));
    assert_eq!(refused(link(), in_note), Some(Refusal::NotInBand));
    assert_eq!(refused(link(), in_header), None);
    let enter = |area| Command::EnterHeaderFooter { page: 0, area };
    assert_eq!(
        refused(enter(HeaderFooterArea::TextBox), BODY),
        Some(Refusal::EnteredByContent)
    );
    assert_eq!(refused(enter(HeaderFooterArea::Footer), BODY), None);
    let page = || Command::InsertPageBreak { at: LogicalPos::top(0, 0) };
    assert_eq!(refused(page(), in_header), Some(Refusal::InStory));
    let no_caret = Situation { has_selection: false, ..BODY };
    assert_eq!(refused(Command::SplitParagraph { at: None }, no_caret), Some(Refusal::NoPlace));
    assert_eq!(refused(Command::SplitParagraph { at: None }, BODY), None);
    assert_eq!(refused(Command::SplitParagraph { at: Some(body()) }, no_caret), None);
    assert!(leaves_document(&apply(foot(cell()), BODY)));
}

#[test]
fn commands_carry_their_options() {
    let copy = |include_docx| match apply(Command::GetSelectionAsClipboard { include_docx }, BODY) {
        Route::Clipboard { with_docx } => with_docx,
        _ => panic!("a copy"),
    };
    assert_eq!((copy(None), copy(Some(true)), copy(Some(false))), (true, true, false));
    let scale = |ratio: Option<f32>| {
        let cmd = Command::RenderPage {
            text: String::new(),
            font_id: "f".to_string(),
            base_direction: "rtl".to_string(),
            px_size: float(16.0),
            line_height: float(26.0),
            align: "center".to_string(),
            device_pixel_ratio: ratio.map(float),
        };
        match apply(cmd, BODY) {
            Route::Render { scale, .. } => scale,
            _ => panic!("a layout"),
        }
    };
    assert_eq!(scale(None), float(1.0));
    assert_eq!(scale(Some(0.5)), float(1.0));
    assert_eq!(scale(Some(f32::NAN)), float(1.0));
    assert_eq!(scale(Some(2.5)), float(2.5));
    let fresh = Situation { has_layout: false, ..BODY };
    let zoom = || Command::SetZoom { scale: float(0.1) };
    assert!(matches!(apply(zoom(), fresh), Route::QueueZoom { scale } if scale == float(0.25)));
    assert!(matches!(apply(zoom(), BODY), Route::Zoom { scale } if scale == float(0.25)));
    let device = || Command::SetDeviceScale { scale: float(3.0) };
    assert!(matches!(apply(device(), fresh), Route::QueueDeviceScale { .. }));
    assert!(matches!(apply(device(), BODY), Route::DeviceScale { .. }));
    let date = |hour, minute| {
        match apply(Command::SetRenderDate { year: 2026, month: 1, day: 2, hour, minute }, BODY) {
            Route::RenderDate { clock, .. } => clock,
            _ => panic!("a date"),
        }
    };
    assert_eq!((date(Some(9), Some(30)), date(Some(9), None)), (Some((9, 30)), None));
    let snap = Command::Snapshot { seq: None, detach_package: None, known_package_hash: None };
    assert!(matches!(apply(snap, BODY), Route::Snapshot { seq: 0, detach_package: false, .. }));
    let recover = |snapshot| {
        let cmd = Command::Recover {
            snapshot,
            log_tail: vec![Command::Ping, Command::Undo],
            renderer_downgrade: None,
            package: None,
        };
        match apply(cmd, fresh) {
            Route::Recover { base, log_tail, .. } => (base, log_tail.len()),
            _ => panic!("a recovery"),
        }
    };
    assert_eq!(recover(Vec::new()), (None, 2));
    assert_eq!(recover(vec![1]), (Some(vec![1]), 2));
    let bold = Command::ToggleFormatting { attr: FormattingToggle::Bold, underline_style: None };
    let toggled = apply(bold, BODY);
    assert!(matches!(toggled, Route::Toggle { attr: FormattingToggle::Bold, .. }));
    let level = Command::ChangeListLevel {
        range: LogicalRange { start: LogicalPos::top(3, 0), end: LogicalPos::top(1, 0) },
        delta: -1,
    };
    let Route::Edit { op: DocOp::ChangeListLevel { start, delta, .. } } = apply(level, BODY) else {
        panic!("a list level");
    };
    assert_eq!((start, delta), (LogicalPos::top(1, 0), -1));
}

#[test]
fn a_page_break_replaces_selected_text_only() {
    let mut s = Session::new();
    let at = LogicalPos::top(1, 2);
    assert_eq!(s.plan_page_break(at.clone()), Some((at.clone(), at.clone())));
    let caret = LogicalPos::top(0, 3);
    s.set_selection(caret.clone(), caret.clone(), caret);
    assert_eq!(s.plan_page_break(at.clone()), Some((at.clone(), at.clone())));
    let (from, to) = (LogicalPos::top(0, 1), LogicalPos::top(0, 4));
    s.set_selection(from.clone(), to.clone(), from.clone());
    assert_eq!(s.plan_page_break(at), Some((from, to)));
    assert_eq!(Session::new().plan_page_break(in_cell(0, 0, 0)), None);
    assert_eq!(page_break_label(), "Page break inserted");
}

#[test]
fn leaving_a_story_brings_the_body_back() {
    let d = doc(&["alpha", "beta"]);
    let mut s = Session::new();
    let (from, to) = (LogicalPos::top(0, 1), LogicalPos::top(1, 2));
    s.set_selection(from.clone(), to.clone(), to.clone());
    s.pending = Some(SpanStyle { bold: Some(true), ..SpanStyle::default() });
    s.enter_story(HeaderFooterArea::Header, LogicalPos::top(0, 0));
    assert_eq!(s.story, Some(HeaderFooterArea::Header));
    assert_eq!(s.pending, None);
    s.enter_story(HeaderFooterArea::Footnote, LogicalPos::top(0, 9));
    s.pending = Some(SpanStyle { bold: Some(true), ..SpanStyle::default() });
    assert!(s.exit_story(&d));
    assert_eq!((s.story, s.pending), (None, None), "the armed style is dropped");
    let back = s.selection.as_ref().expect("a selection");
    assert_eq!((&back.anchor, &back.caret), (&from, &to));
    assert!(!s.exit_story(&d));
    s.enter_story(HeaderFooterArea::Footer, LogicalPos::top(0, 0));
    assert!(s.exit_story(&doc(&["al"])));
    let clamped = s.selection.as_ref().expect("a selection");
    assert_eq!(clamped.caret, clamp_pos(&doc(&["al"]), to), "the body changed under it");
}

#[test]
fn entering_a_note_announces_it() {
    let at = LogicalPos::top(0, 0);
    let Route::Edit { op } = apply(Command::InsertFootnote { at }, BODY) else {
        panic!("a footnote");
    };
    assert_eq!(story_entered(&op), Some(HeaderFooterArea::Footnote));
    let mut pending = Announcements { queue: Vec::new() };
    pending.announce(AnnouncementPriority::Polite, note_label(NoteKind::Footnote, "1"));
    assert!(pending.drain().iter().any(|(_, m)| m == "Editing footnote 1"));
    assert_eq!(note_label(NoteKind::Endnote, "iv"), "Editing endnote iv");
    let body = DocOp::InsertTextBox { at: LogicalPos::top(0, 0), width_emu: 1, height_emu: 1 };
    assert_eq!(story_entered(&body), Some(HeaderFooterArea::TextBox));
    assert_eq!(story_entered(&DocOp::UpdateFields), None);
    assert!(shortens(&DocOp::AcceptAllRevisions) && !shortens(&DocOp::UpdateFields));
}

#[test]
fn the_selection_addresses_a_field() {
    let field = |start, end, code: &str| Field { start, end, instruction: code.to_string() };
    let fields = vec![field(2, 5, " page \\* MERGEFORMAT"), field(5, 9, "Date"), field(12, 13, "")];
    let select = |a, b| SelectionState {
        anchor: LogicalPos::top(0, a),
        caret: LogicalPos::top(0, b),
        ideal_x: None,
        kind: SelectionKind::Linear,
    };
    let whole = field_at_caret(&select(5, 2), &fields).expect("the field it covers");
    assert_eq!((whole.keyword.as_str(), whole.selected), ("PAGE", true));
    assert_eq!((whole.start, whole.end), (LogicalPos::top(0, 2), LogicalPos::top(0, 5)));
    let before = field_at_caret(&select(5, 5), &fields).expect("the field that ends there");
    assert_eq!((before.keyword.as_str(), before.selected), ("PAGE", false));
    let after = field_at_caret(&select(12, 12), &fields).expect("the field that starts there");
    assert_eq!((after.keyword.as_str(), after.instruction.as_str()), ("", ""));
    assert_eq!(field_at_caret(&select(3, 3), &fields), None);
    assert_eq!(field_at_caret(&select(2, 9), &fields), None);
    assert_eq!(keyword_of("toc\t1-3"), "TOC");
}

#[test]
fn mutation_seq_is_monotonic_across_a_document_reload() {
    let mut count = MutationSeq { seq: 0 };
    let mut version: u64 = 0;
    let mut run = |cmd: Command| {
        let loaded = matches!(&cmd, Command::LoadDocx { .. });
        let before = version;
        version = if loaded { 0 } else { version + 1 };
        count.observe(leaves_document(&apply(cmd, BODY)), loaded, before, version);
        count.seq
    };
    let insert = |text: &str| Command::InsertText { at: None, text: text.to_string() };
    run(insert("a"));
    let before = run(insert("b"));
    let after_load = run(Command::LoadDocx { bytes: vec![1, 2, 3] });
    assert!(after_load > before);
    assert!(run(insert("c")) > after_load);
}

#[test]
fn the_count_leaves_out_refused_commands_and_those_without_effect() {
    let in_table = LogicalPos {
        path: BlockPath {
            steps: vec![
                PathStep::Block { idx: 0 },
                PathStep::Cell { row: 0, col: 0 },
                PathStep::Block { idx: 0 },
            ],
        },
        offset: 0,
    };
    let mut count = MutationSeq { seq: 4 };
    let refused = leaves_document(&apply(Command::InsertFootnote { at: in_table }, BODY));
    assert!(!count.observe(refused, false, 1, 2));
    let key = |direction| {
        leaves_document(&apply(Command::MoveCaret { direction, extend: false }, BODY))
    };
    assert!(!count.observe(key(MoveDirection::NextCell), false, 1, 1));
    assert_eq!(count.seq, 4);
    assert!(count.observe(key(MoveDirection::NextCell), false, 1, 2), "a row was added");
    assert!(!count.observe(key(MoveDirection::PrevCell), false, 2, 2));
    assert_eq!(count.seq, 5);
}

#[test]
fn a_motion_without_a_selection_starts_at_the_top() {
    let mut s = Session::new();
    let top = SelectionState::at(LogicalPos::top(0, 0));
    assert_eq!(s.live_selection(), top);
    let d = doc(&["abc", "def"]);
    let step = step_right(&d, s.live_selection().caret);
    assert_eq!(step, LogicalPos::top(0, 1));
    s.set_selection(LogicalPos::top(0, 1), LogicalPos::top(1, 2), LogicalPos::top(1, 2));
    let live = s.live_selection();
    assert_eq!((live.anchor, live.caret), (LogicalPos::top(0, 1), LogicalPos::top(1, 2)));
}

#[test]
fn a_load_counts_even_at_the_same_version() {
    let loads = || {
        vec![
            Command::LoadDocx { bytes: vec![1] },
            Command::OpenDocument { bytes: vec![1], format: DocFormat::Docx, name: None },
            Command::Recover {
                snapshot: Vec::new(),
                log_tail: Vec::new(),
                renderer_downgrade: None,
                package: None,
            },
        ]
    };
    let mut count = MutationSeq { seq: 0 };
    for (n, cmd) in loads().into_iter().enumerate() {
        assert!(count.observe(leaves_document(&apply(cmd, BODY)), true, 0, 0));
        assert_eq!(count.seq, n as u64 + 1);
    }
    for cmd in loads() {
        assert!(!count.observe(leaves_document(&apply(cmd, BODY)), false, 0, 0), "it failed");
    }
    assert_eq!(count.seq, 3);
}
