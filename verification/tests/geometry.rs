//! Caret slots, hit-testing and selection rectangles. Lengths are in layout
//! units, 64 to the pixel.

use wordcore::boxes::{
    build_line_run_geom, check_page_fits, document_geometry, hit_test_in_page, page_offset,
    CellBox, Glyph, LayoutBlock, LineBox, PageBox, ParagraphBox, RowBox, TableBox, VisualRun,
};
use wordcore::common::{BlockPath, Direction, LogicalPos, PathStep, Rect};
use wordcore::document::VMergeRole;
use wordcore::geometry::{
    caret_rect_geom, find_line, hit_test_geom, line_x_dist, line_y_dist, nearest_line,
    nearest_slot_by_x, nearest_slot_x, neighbor_slot_byte_by_x, selection_rects_geom,
    slot_x_for_byte, slot_x_for_byte_with_affinity, table_cell_rects, CaretAffinity, CaretSlot,
    LineGeom, RunGeom,
};

const PX: i32 = 64;

fn slot(x: i32, byte: u32) -> CaretSlot {
    CaretSlot { x: x * PX, byte }
}

fn ltr_run() -> RunGeom {
    RunGeom {
        src_start: 0,
        src_end: 4,
        slots: vec![slot(0, 0), slot(10, 1), slot(20, 2), slot(30, 3), slot(40, 4)],
    }
}

fn rtl_run() -> RunGeom {
    RunGeom {
        src_start: 4,
        src_end: 8,
        slots: vec![slot(90, 4), slot(80, 5), slot(70, 6), slot(60, 7), slot(50, 8)],
    }
}

fn line(start_byte: u32, end_byte: u32, slots: Vec<CaretSlot>, runs: Vec<RunGeom>) -> LineGeom {
    LineGeom {
        path: BlockPath::top(0),
        start_x: 0,
        hit_left: 0,
        hit_width: 100 * PX,
        y_top: 5 * PX,
        height: 20 * PX,
        start_byte,
        end_byte,
        slots,
        runs,
    }
}

#[test]
fn selection_rects_split_at_bidi_seam() {
    let geom = vec![line(0, 8, Vec::new(), vec![ltr_run(), rtl_run()])];
    let rects = selection_rects_geom(&geom, &LogicalPos::top(0, 2), &LogicalPos::top(0, 6));
    assert_eq!(rects.len(), 2, "one rect per intersected run");
    assert_eq!(rects[0].x, 20 * 64);
    assert_eq!(rects[0].w, 20 * 64);
    assert_eq!(rects[1].x, 70 * 64);
    assert_eq!(rects[1].w, 20 * 64);
    assert!(rects[0].x + rects[0].w <= rects[1].x);
}

#[test]
fn selection_rects_single_run_one_rect() {
    let geom = vec![line(0, 4, Vec::new(), vec![ltr_run()])];
    let rects = selection_rects_geom(&geom, &LogicalPos::top(0, 1), &LogicalPos::top(0, 3));
    assert_eq!(rects.len(), 1);
    assert_eq!(rects[0], Rect { x: 10 * 64, y: 5 * 64, w: 20 * 64, h: 20 * 64 });
}

fn cell_path(row: u32, col: u32) -> BlockPath {
    BlockPath {
        steps: vec![
            PathStep::Block { idx: 1 },
            PathStep::Cell { row, col },
            PathStep::Block { idx: 0 },
        ],
    }
}

fn cell_line(row: u32, col: u32, hit_left: i32, hit_width: i32, y_top: i32) -> LineGeom {
    LineGeom {
        path: cell_path(row, col),
        start_x: hit_left * PX,
        hit_left: hit_left * PX,
        hit_width: hit_width * PX,
        y_top: y_top * PX,
        height: 24 * PX,
        start_byte: 0,
        end_byte: 0,
        slots: Vec::new(),
        runs: Vec::new(),
    }
}

#[test]
fn hit_test_disambiguates_sibling_cells_by_x() {
    let geom = vec![
        cell_line(0, 0, 0, 150, 100),
        cell_line(0, 1, 150, 150, 100),
        cell_line(0, 2, 300, 150, 100),
    ];
    let hit = hit_test_geom(&geom, 400 * PX, 110 * PX);
    assert_eq!(hit.path.steps.len(), 3);
    let PathStep::Cell { col, .. } = hit.path.steps[1] else {
        panic!("expected Cell step");
    };
    assert_eq!(col, 2, "click in C3 must land in column 2, not 0");
}

#[test]
fn hit_test_without_lines_is_the_start() {
    assert_eq!(hit_test_geom(&Vec::new(), 5, 5), LogicalPos::top(0, 0));
}

#[test]
fn hit_test_picks_the_nearest_line_then_the_nearest_slot() {
    let mut upper = line(0, 4, ltr_run().slots, vec![ltr_run()]);
    upper.y_top = 0;
    let mut lower = line(4, 8, rtl_run().slots, vec![rtl_run()]);
    lower.y_top = 40 * PX;
    let geom = vec![upper, lower];
    assert_eq!(hit_test_geom(&geom, 11 * PX, 3 * PX), LogicalPos::top(0, 1));
    assert_eq!(hit_test_geom(&geom, 79 * PX, 300 * PX), LogicalPos::top(0, 5));
    assert_eq!(nearest_line(&geom, 0, 39 * PX), Some(1));
    assert_eq!(nearest_line(&Vec::new(), 0, 0), None);
    assert_eq!(line_y_dist(&geom[1], 39 * PX), 64);
    assert_eq!(line_y_dist(&geom[1], 45 * PX), 0);
    assert_eq!(line_x_dist(&geom[1], 110 * PX), 640);
    assert_eq!(line_x_dist(&geom[1], 50 * PX), 0);
}

fn glyph(cluster: u32, advance: i32, synthetic: bool) -> Glyph {
    Glyph { cluster, x_advance: advance * PX, synthetic }
}

fn line_box(runs: Vec<VisualRun>) -> LineBox {
    LineBox { x: 0, y: 0, height: 20 * PX, runs }
}

#[test]
fn synthetic_glyphs_emit_no_caret_slot() {
    let run = VisualRun {
        glyphs: vec![glyph(0, 10, false), glyph(0, 7, true), glyph(1, 10, false)],
        direction: Direction::Ltr,
        source_start: 0,
        source_end: 2,
    };
    let geom = build_line_run_geom(&line_box(vec![run]), 0);
    assert_eq!(geom.len(), 1);
    let slots = &geom[0].slots;
    assert_eq!(slots.len(), 3);
    assert_eq!((slots[0].byte, slots[1].byte, slots[2].byte), (0, 1, 2));
    assert_eq!(slots[0].x, 0);
    assert_eq!(slots[1].x, 17 * PX);
    assert_eq!(slots[2].x, 27 * PX);
}

#[test]
fn a_right_to_left_run_puts_a_cluster_at_its_right_edge() {
    let run = VisualRun {
        glyphs: vec![glyph(2, 10, false), glyph(0, 10, false)],
        direction: Direction::Rtl,
        source_start: 4,
        source_end: 8,
    };
    let geom = build_line_run_geom(&line_box(vec![run]), 3 * PX);
    let mut at: Vec<(u32, i32)> = geom[0].slots.iter().map(|s| (s.byte, s.x / PX)).collect();
    at.sort();
    assert_eq!(at, vec![(4, 23), (6, 13), (8, 3)]);
    assert_eq!((geom[0].src_start, geom[0].src_end), (4, 8));
}

#[test]
fn spatial_visual_step_crosses_bidi_seam_by_x_alone() {
    let slots = vec![
        slot(0, 0),
        slot(10, 1),
        slot(20, 2),
        slot(30, 3),
        slot(40, 4),
        slot(50, 8),
        slot(60, 7),
        slot(70, 6),
        slot(80, 5),
        slot(90, 4),
    ];
    assert_eq!(neighbor_slot_byte_by_x(&slots, 30 * PX, true), Some(4));
    assert_eq!(neighbor_slot_byte_by_x(&slots, 40 * PX, true), Some(8));
    assert_eq!(neighbor_slot_byte_by_x(&slots, 50 * PX, true), Some(7));
    assert_eq!(neighbor_slot_byte_by_x(&slots, 90 * PX, true), None);
    assert_eq!(neighbor_slot_byte_by_x(&slots, 60 * PX, false), Some(8));
    assert_eq!(neighbor_slot_byte_by_x(&slots, 50 * PX, false), Some(4));
    assert_eq!(neighbor_slot_byte_by_x(&slots, 0, false), None);
}

#[test]
fn affinity_picks_correct_slot_at_bidi_seam() {
    let l = line(0, 8, vec![slot(20, 4), slot(80, 4)], Vec::new());
    let leading = slot_x_for_byte_with_affinity(&l, 4, CaretAffinity::LeadingX);
    let trailing = slot_x_for_byte_with_affinity(&l, 4, CaretAffinity::TrailingX);
    assert_eq!(leading, 20 * PX);
    assert_eq!(trailing, 80 * PX);
}

#[test]
fn slots_are_found_by_byte_and_by_x() {
    let slots = ltr_run().slots;
    assert_eq!(nearest_slot_by_x(&slots, 24 * PX), Some(slot(20, 2)));
    assert_eq!(nearest_slot_by_x(&Vec::new(), 24 * PX), None);
    assert_eq!(nearest_slot_x(&slots, 3, 7), 30 * PX);
    assert_eq!(nearest_slot_x(&Vec::new(), 3, 7), 7);
    let l = line(0, 4, slots, Vec::new());
    assert_eq!(slot_x_for_byte(&l, 2), 20 * PX);
}

#[test]
fn the_caret_rect_stands_on_its_line() {
    let geom = vec![line(0, 4, ltr_run().slots, vec![ltr_run()])];
    let fallback = Rect { x: 1, y: 2, w: 3, h: 4 };
    let at = caret_rect_geom(&geom, &LogicalPos::top(0, 3), fallback, 96, CaretAffinity::LeadingX);
    assert_eq!(at, Rect { x: 30 * 64, y: 5 * 64, w: 96, h: 20 * 64 });
    let lost = caret_rect_geom(&geom, &LogicalPos::top(7, 3), fallback, 96, CaretAffinity::LeadingX);
    assert_eq!(lost, at, "a position off the page shows on the first line");
    let none = caret_rect_geom(
        &Vec::new(),
        &LogicalPos::top(0, 3),
        fallback,
        96,
        CaretAffinity::LeadingX,
    );
    assert_eq!(none, fallback);
    assert_eq!(find_line(&geom, &LogicalPos::top(0, 3)), Some(0));
    assert_eq!(find_line(&geom, &LogicalPos::top(7, 3)), None);
}

#[test]
fn a_cell_rectangle_covers_the_cells_it_names() {
    let geom = vec![
        cell_line(0, 0, 0, 150, 100),
        cell_line(0, 1, 150, 150, 100),
        cell_line(1, 0, 0, 150, 130),
        cell_line(1, 1, 150, 150, 130),
    ];
    let rects = table_cell_rects(&geom, &BlockPath::top(1), 0, 1, 1, 1);
    let cells: Vec<(u32, u32)> = rects.iter().map(|r| (r.row, r.col)).collect();
    assert_eq!(cells, vec![(0, 1), (1, 1)]);
    assert_eq!(rects[0].rect.x, 150 * 64);
    assert!(table_cell_rects(&geom, &BlockPath::top(2), 0, 0, 1, 1).is_empty());
}

fn paragraph_box(x: i32, y: i32, byte: u32) -> ParagraphBox {
    ParagraphBox {
        x,
        y,
        lines: vec![line_box(vec![VisualRun {
            glyphs: vec![glyph(0, 10, false)],
            direction: Direction::Ltr,
            source_start: byte,
            source_end: byte + 1,
        }])],
        source_id: 0,
    }
}

fn page(blocks: Vec<LayoutBlock>) -> PageBox {
    PageBox {
        width: 600 * PX,
        height: 800 * PX,
        margin_left: 50 * PX,
        margin_right: 50 * PX,
        margin_top: 70 * PX,
        blocks,
    }
}

#[test]
fn pages_flatten_into_lines_in_document_space() {
    let cell = |x: i32, v_merge: VMergeRole| CellBox {
        x: x * PX,
        y: 0,
        width: 100 * PX,
        v_merge,
        content: vec![LayoutBlock::Paragraph(paragraph_box(0, 0, 0))],
    };
    let table = TableBox {
        x: 0,
        y: 30 * PX,
        rows: vec![RowBox {
            x: 0,
            y: 0,
            cells: vec![cell(0, VMergeRole::Alone), cell(100, VMergeRole::Continue)],
        }],
    };
    let pages = vec![
        page(vec![
            LayoutBlock::Paragraph(paragraph_box(0, 0, 0)),
            LayoutBlock::Table(table),
        ]),
        page(vec![LayoutBlock::Paragraph(paragraph_box(0, 0, 5))]),
    ];
    let paths = vec![
        vec![BlockPath::top(0), BlockPath::top(1)],
        vec![BlockPath::top(0)],
    ];
    assert!(pages.iter().all(check_page_fits));
    let geom = document_geometry(&pages, &paths, 16 * PX);
    assert_eq!(geom.len(), 3, "a covered cell shows no line");
    assert_eq!((geom[0].start_x, geom[0].y_top), (50 * PX, 70 * PX));
    assert_eq!((geom[0].hit_left, geom[0].hit_width), (50 * PX, 500 * PX));
    assert_eq!(geom[1].path, cell_path(0, 0));
    assert_eq!((geom[1].y_top, geom[1].hit_width), (100 * PX, 100 * PX));
    assert_eq!(geom[2].y_top, (800 + 16 + 70) * PX);
    assert_eq!((geom[2].start_byte, geom[2].end_byte), (5, 6));
    assert_eq!(page_offset(&pages, 16 * PX, 1), 816 * PX);
    assert_eq!(page_offset(&pages, 16 * PX, 9), 2 * 816 * PX);
    let hit = hit_test_in_page(&geom, &pages, 16 * PX, 1, 60 * PX, 75 * PX);
    assert_eq!(hit, LogicalPos::top(0, 6));
    let hit = hit_test_in_page(&geom, &pages, 16 * PX, 0, 0, 75 * PX);
    assert_eq!(hit, LogicalPos::top(0, 0));
}

#[test]
fn a_glyph_past_the_last_byte_offset_does_not_fit() {
    let mut p = paragraph_box(0, 0, u32::MAX - 1);
    assert!(check_page_fits(&page(vec![LayoutBlock::Paragraph(paragraph_box(0, 0, 0))])));
    p.lines[0].runs[0].glyphs[0].cluster = 2;
    assert!(!check_page_fits(&page(vec![LayoutBlock::Paragraph(p)])));
}

#[test]
fn a_click_on_a_slot_returns_to_it() {
    let mut upper = line(0, 4, ltr_run().slots, vec![ltr_run()]);
    upper.y_top = 0;
    let mut lower = line(4, 8, rtl_run().slots, vec![rtl_run()]);
    lower.y_top = 40 * PX;
    let geom = vec![upper, lower];
    for l in &geom {
        for s in &l.slots {
            assert_eq!(hit_test_geom(&geom, s.x, l.y_top + 1), LogicalPos::top(0, s.byte));
        }
    }
}

#[test]
fn a_collapsed_selection_highlights_nothing() {
    let geom = vec![line(0, 8, Vec::new(), vec![ltr_run(), rtl_run()])];
    let at = LogicalPos::top(0, 5);
    assert!(selection_rects_geom(&geom, &at, &at).is_empty());
}
