//! Addresses, caret motion and deletion targets.

use std::cmp::Ordering;
use wordcore::caret::{
    clamp_pos, delete_target, document_end, has_no_paragraph, step_left, step_right,
    step_word_left, step_word_right, CharStep,
};
use wordcore::command::MoveDirection;
use wordcore::common::{
    ordered, BlockPath, Direction, LogicalPos, PathStep, SelectionKind, UnderlineStyle,
};
use wordcore::document::{
    Block, CellProps, DocumentTree, Paragraph, Table, TableCell, TableRow, VMergeRole,
};
use wordcore::geometry::{CaretAffinity, CaretSlot, LineGeom, RunGeom};
use wordcore::motion::{
    cell_tab_step, finish_move, line_end, line_home, paragraph_direction_at, plan_move,
    vertical_step, visual_step_arrow, MoveError, MoveGoal, SelectionState, TabStep,
};
use wordcore::segment::{first_above, last_below, word_starts};
use wordcore::selection::{cell_of, derive_selection_kind, enclosing_table_path};
use wordcore::walk::{
    cell_block_count, doc_paragraph_neighbor, doc_paragraph_paths, doc_paragraph_paths_between,
    paragraph_texts, position_of,
};

fn para(text: &str, direction: Option<Direction>) -> Block {
    Block::Paragraph(Paragraph::plain(text.to_string(), direction))
}

fn doc(blocks: Vec<Block>) -> DocumentTree {
    DocumentTree { blocks }
}

fn one_para_doc(text: &str) -> DocumentTree {
    doc(vec![para(text, Some(Direction::Ltr))])
}

fn cell_with(blocks: Vec<Block>, v_merge: VMergeRole) -> TableCell {
    TableCell {
        blocks,
        props: CellProps {
            v_merge,
            grid_span: 1,
            shading: None,
            borders: None,
            width_twips: None,
        },
    }
}

fn table(rows: Vec<Vec<&str>>) -> Block {
    Block::Table(Table {
        rows: rows
            .into_iter()
            .map(|cells| TableRow {
                cells: cells
                    .into_iter()
                    .map(|t| cell_with(vec![para(t, None)], VMergeRole::Alone))
                    .collect(),
            })
            .collect(),
        bidi_visual: false,
    })
}

fn in_cell(table: u32, row: u32, col: u32, offset: u32) -> LogicalPos {
    LogicalPos {
        path: BlockPath {
            steps: vec![
                PathStep::Block { idx: table },
                PathStep::Cell { row, col },
                PathStep::Block { idx: 0 },
            ],
        },
        offset,
    }
}

fn moved(d: &DocumentTree, from: LogicalPos, direction: MoveDirection) -> SelectionState {
    let sel = SelectionState::at(from);
    let (goal, _) = plan_move(d, None, None, &sel, CaretAffinity::LeadingX, direction)
        .expect("no layout needed");
    finish_move(d, &sel, goal, false)
}

#[test]
fn word_left_jumps_to_word_start() {
    let d = one_para_doc("hello world rust");
    let out = step_word_left(&d, LogicalPos::top(0, 9));
    assert_eq!(out.offset, 6, "land on 'w' of 'world'");
}

#[test]
fn word_left_at_word_start_jumps_to_previous_word() {
    let d = one_para_doc("hello world rust");
    let out = step_word_left(&d, LogicalPos::top(0, 6));
    assert_eq!(out.offset, 0, "land on 'h' of 'hello'");
}

#[test]
fn word_left_from_whitespace_jumps_past_previous_word() {
    let d = one_para_doc("hello world");
    let out = step_word_left(&d, LogicalPos::top(0, 5));
    assert_eq!(out.offset, 0);
}

#[test]
fn word_right_jumps_to_next_word_start() {
    let d = one_para_doc("hello world rust");
    let out = step_word_right(&d, LogicalPos::top(0, 2));
    assert_eq!(out.offset, 6, "land on 'w' of 'world'");
}

#[test]
fn word_right_pins_at_document_end() {
    let d = one_para_doc("hello world");
    let len = "hello world".len() as u32;
    let out = step_word_right(&d, LogicalPos::top(0, len));
    assert_eq!(out.offset, len);
}

#[test]
fn word_left_arabic_finds_word_start() {
    let d = one_para_doc("hello مرحبا بالعالم");
    let text = &d.paragraph_at_path(&BlockPath::top(0)).unwrap().text;
    let out = step_word_left(&d, LogicalPos::top(0, text.len() as u32));
    let expected_word = "بالعالم";
    let expected_offset = "hello مرحبا ".len() as u32;
    assert_eq!(out.offset, expected_offset);
    assert_eq!(&text[out.offset as usize..], expected_word);
}

fn first_second() -> DocumentTree {
    doc(vec![
        para("first", Some(Direction::Ltr)),
        para("second", Some(Direction::Ltr)),
    ])
}

#[test]
fn word_right_crosses_paragraph_boundary() {
    let d = first_second();
    let out = step_word_right(&d, LogicalPos::top(0, "first".len() as u32));
    assert_eq!(out.path.steps[0], PathStep::Block { idx: 1 });
    assert_eq!(out.offset, 0);
}

#[test]
fn word_left_crosses_paragraph_boundary() {
    let d = first_second();
    let out = step_word_left(&d, LogicalPos::top(1, 0));
    assert_eq!(out.path.steps[0], PathStep::Block { idx: 0 });
    assert_eq!(out.offset, "first".len() as u32);
}

#[test]
fn step_right_skips_combining_marks_as_one_grapheme() {
    let d = one_para_doc("aيًb");
    let out = step_right(&d, LogicalPos::top(0, 1));
    assert_eq!(out.offset, 5, "the letter and its mark are one grapheme");
}

#[test]
fn step_left_skips_combining_marks_as_one_grapheme() {
    let d = one_para_doc("aيًb");
    let out = step_left(&d, LogicalPos::top(0, 5));
    assert_eq!(out.offset, 1);
}

#[test]
fn word_right_treats_contraction_as_one_word() {
    let d = one_para_doc("isn't done");
    let out = step_word_right(&d, LogicalPos::top(0, 0));
    assert_eq!(out.offset, "isn't ".len() as u32, "land on 'd' of 'done'");
}

#[test]
fn word_right_keeps_decimal_number_intact() {
    let d = one_para_doc("3.14 pi");
    let out = step_word_right(&d, LogicalPos::top(0, 0));
    assert_eq!(out.offset, "3.14 ".len() as u32, "land on 'p' of 'pi'");
}

#[test]
fn doc_home_and_end_address_document_boundaries() {
    let d = one_para_doc("hello world");
    let sel = moved(&d, LogicalPos::top(0, 5), MoveDirection::DocHome);
    assert_eq!(sel.caret.offset, 0);
    let sel = moved(&d, sel.caret, MoveDirection::DocEnd);
    assert_eq!(sel.caret.offset, "hello world".len() as u32);
}

#[test]
fn arrow_right_in_rtl_paragraph_steps_logical_backward() {
    let d = doc(vec![para("مرحبا", Some(Direction::Rtl))]);
    let sel = moved(&d, LogicalPos::top(0, 4), MoveDirection::Right);
    assert_eq!(sel.caret.offset, 2);
}

#[test]
fn arrow_left_in_rtl_paragraph_steps_logical_forward() {
    let d = doc(vec![para("مرحبا", Some(Direction::Rtl))]);
    let sel = moved(&d, LogicalPos::top(0, 4), MoveDirection::Left);
    assert_eq!(sel.caret.offset, 6);
}

#[test]
fn delete_word_backward_treats_contraction_as_one_word() {
    let text = "isn't done";
    let d = one_para_doc(text);
    let caret = LogicalPos::top(0, text.len() as u32);
    let step = CharStep { prev: 9, next: 10 };
    let (start, end) = delete_target(&d, caret, false, true, step).expect("a word to delete");
    let mut left = text.to_string();
    left.replace_range(start.offset as usize..end.offset as usize, "");
    assert_eq!(left, "isn't ");
}

#[test]
fn delete_targets_join_paragraphs_at_their_edges() {
    let d = first_second();
    let step = CharStep { prev: 0, next: 1 };
    let back = delete_target(&d, LogicalPos::top(1, 0), false, false, step);
    assert_eq!(back, Some((LogicalPos::top(0, 5), LogicalPos::top(1, 0))));
    let ahead = delete_target(&d, LogicalPos::top(0, 5), true, false, step);
    assert_eq!(ahead, Some((LogicalPos::top(0, 5), LogicalPos::top(1, 0))));
    assert_eq!(delete_target(&d, LogicalPos::top(0, 0), false, false, step), None);
    assert_eq!(delete_target(&d, LogicalPos::top(1, 6), true, false, step), None);
    let one = delete_target(&d, LogicalPos::top(0, 0), true, false, step);
    assert_eq!(one, Some((LogicalPos::top(0, 0), LogicalPos::top(0, 1))));
}

#[test]
fn a_step_left_never_goes_forward() {
    let d = first_second();
    let mut at = document_end(&d);
    assert_eq!(at, LogicalPos::top(1, 6));
    loop {
        let next = step_left(&d, at.clone());
        if next == at {
            break;
        }
        let (lo, _) = ordered(next.clone(), at.clone());
        assert_eq!(lo, next);
        at = next;
    }
    assert_eq!(at, LogicalPos::top(0, 0));
}

#[test]
fn clamping_a_position_settles_at_once() {
    let d = first_second();
    let cases = vec![LogicalPos::top(0, 3), LogicalPos::top(0, 99), LogicalPos::top(9, 2)];
    for pos in cases {
        let once = clamp_pos(&d, pos);
        assert_eq!(clamp_pos(&d, once.clone()), once);
        assert!(d.paragraph_at_path(&once.path).is_some());
        assert!(once.offset <= d.paragraph_len(&once.path));
    }
    assert_eq!(clamp_pos(&d, LogicalPos::top(0, 3)), LogicalPos::top(0, 3));
    assert_eq!(clamp_pos(&d, LogicalPos::top(0, 99)), LogicalPos::top(0, 5));
    assert!(!has_no_paragraph(&d));
    assert!(has_no_paragraph(&doc(Vec::new())));
}

#[test]
fn word_starts_are_searched_from_both_sides() {
    let starts = word_starts("hello world rust");
    assert_eq!(starts, vec![0, 6, 12]);
    assert_eq!(last_below(&starts, 9), 6);
    assert_eq!(last_below(&starts, 0), 0);
    assert_eq!(first_above(&starts, 9, 16), 12);
    assert_eq!(first_above(&starts, 12, 16), 16);
    assert!(word_starts("  ...").is_empty());
}

#[test]
fn paths_are_ordered_as_the_document_reads() {
    let top = BlockPath::top(1);
    let inner = in_cell(1, 0, 1, 0).path;
    let below = in_cell(1, 1, 0, 0).path;
    assert_eq!(top.cmp_doc_order(&top), Ordering::Equal);
    assert_eq!(top.cmp_doc_order(&inner), Ordering::Less);
    assert_eq!(inner.cmp_doc_order(&top), Ordering::Greater);
    assert_eq!(inner.cmp_doc_order(&below), Ordering::Less);
    assert_eq!(top.cmp_doc_order(&below), Ordering::Less, "the order is transitive");
    assert!(top.is_ancestor_of(&inner));
    assert!(!inner.is_ancestor_of(&top));
    assert!(top.before(&inner) && inner.after(&top) && inner.same(&inner.clone()));
    assert_eq!(inner.last_block_index(), Some(0));
    assert_eq!(inner.parent().parent(), top);
    assert_eq!(BlockPath::root().steps.len(), 0);
    assert_eq!(BlockPath::root().last_block_index(), None);
    let (a, b) = ordered(LogicalPos::top(2, 0), LogicalPos::top(1, 7));
    assert_eq!((a, b), (LogicalPos::top(1, 7), LogicalPos::top(2, 0)));
    assert!(UnderlineStyle::Wavy.is_visible() && !UnderlineStyle::NoLine.is_visible());
}

#[test]
fn the_walk_lists_every_paragraph_once_in_order() {
    let d = doc(vec![para("a", None), table(vec![vec!["b", "c"], vec!["d"]]), para("e", None)]);
    let paths = doc_paragraph_paths(&d);
    assert_eq!(
        paths,
        vec![
            BlockPath::top(0),
            in_cell(1, 0, 0, 0).path,
            in_cell(1, 0, 1, 0).path,
            in_cell(1, 1, 0, 0).path,
            BlockPath::top(2),
        ]
    );
    assert_eq!(paragraph_texts(&d), vec!["a", "b", "c", "d", "e"]);
    for w in paths.windows(2) {
        assert_eq!(w[0].cmp_doc_order(&w[1]), Ordering::Less);
    }
    assert_eq!(position_of(&paths, &BlockPath::top(2)), Some(4));
    assert_eq!(position_of(&paths, &BlockPath::top(1)), None);
    let (next, p) = doc_paragraph_neighbor(&d, &BlockPath::top(0), true).unwrap();
    assert_eq!((next.clone(), p.text.as_str()), (in_cell(1, 0, 0, 0).path, "b"));
    let (back, _) = doc_paragraph_neighbor(&d, &next, false).unwrap();
    assert_eq!(back, BlockPath::top(0), "there and back");
    assert!(doc_paragraph_neighbor(&d, &BlockPath::top(2), true).is_none());
    let between =
        doc_paragraph_paths_between(&d, &in_cell(1, 0, 0, 0).path, &BlockPath::top(2));
    assert_eq!(between, vec![in_cell(1, 0, 1, 0).path, in_cell(1, 1, 0, 0).path]);
    assert_eq!(cell_block_count(&d, &in_cell(1, 0, 0, 0).path.parent()), Some(1));
    assert_eq!(cell_block_count(&d, &BlockPath::top(0)), None);
}

#[test]
fn a_covered_cell_is_not_walked() {
    let d = doc(vec![Block::Table(Table {
        rows: vec![
            TableRow { cells: vec![cell_with(vec![para("shown", None)], VMergeRole::Restart)] },
            TableRow { cells: vec![cell_with(vec![para("hidden", None)], VMergeRole::Continue)] },
        ],
        bidi_visual: false,
    })]);
    assert_eq!(paragraph_texts(&d), vec!["shown"]);
}

#[test]
fn selections_across_cells_are_cell_rectangles() {
    let a = in_cell(1, 0, 1, 2);
    let b = in_cell(1, 2, 0, 0);
    let kind = derive_selection_kind(&a, &b);
    assert_eq!(
        kind,
        SelectionKind::TableCells {
            table_path: BlockPath::top(1),
            from_row: 0,
            from_col: 0,
            to_row: 2,
            to_col: 1,
        }
    );
    assert_eq!(derive_selection_kind(&b, &a), kind, "either end may be the anchor");
    let same = derive_selection_kind(&a, &in_cell(1, 0, 1, 9));
    assert_eq!(same, SelectionKind::Linear);
    assert_eq!(derive_selection_kind(&a, &LogicalPos::top(0, 0)), SelectionKind::Linear);
    assert_eq!(enclosing_table_path(&a.path), Some(BlockPath::top(1)));
    assert_eq!(enclosing_table_path(&BlockPath::top(0)), None);
    assert_eq!(cell_of(&a.path, &BlockPath::top(1)), Some((0, 1)));
    assert_eq!(cell_of(&a.path, &BlockPath::top(0)), None);
}

#[test]
fn tab_walks_the_cells_row_by_row() {
    let d = doc(vec![table(vec![vec!["a", "b"], vec!["c", "d"]]), para("after", None)]);
    let step = cell_tab_step(&d, &in_cell(0, 0, 1, 0), true);
    assert_eq!(step, TabStep::Cell { table_path: BlockPath::top(0), row: 1, col: 0 });
    let back = cell_tab_step(&d, &in_cell(0, 1, 0, 0), false);
    assert_eq!(back, TabStep::Cell { table_path: BlockPath::top(0), row: 0, col: 1 });
    let grow = cell_tab_step(&d, &in_cell(0, 1, 1, 0), true);
    assert_eq!(grow, TabStep::NewRow { table_path: BlockPath::top(0), at: 2 });
    assert_eq!(cell_tab_step(&d, &in_cell(0, 0, 0, 0), false), TabStep::Stay);
    assert_eq!(cell_tab_step(&d, &LogicalPos::top(1, 2), true), TabStep::Stay);
    let sel = moved(&d, in_cell(0, 0, 0, 0), MoveDirection::NextCell);
    assert_eq!(sel.anchor, in_cell(0, 0, 1, 0), "Tab selects the whole cell");
    assert_eq!(sel.caret, in_cell(0, 0, 1, 1));
}

fn text_line(y: i32, start: u32, bytes: u32) -> LineGeom {
    let slots: Vec<CaretSlot> =
        (0..=bytes).map(|i| CaretSlot { x: (i as i32) * 640, byte: start + i }).collect();
    LineGeom {
        path: BlockPath::top(0),
        start_x: 0,
        hit_left: 0,
        hit_width: 64_000,
        y_top: y,
        height: 1_280,
        start_byte: start,
        end_byte: start + bytes,
        slots: slots.clone(),
        runs: vec![RunGeom { src_start: start, src_end: start + bytes, slots }],
    }
}

#[test]
fn vertical_motion_keeps_its_column() {
    let d = one_para_doc("hello world");
    let geom = vec![text_line(0, 0, 6), text_line(1_280, 6, 2), text_line(2_560, 8, 3)];
    let sel = SelectionState::at(LogicalPos::top(0, 5));
    let (down, x) = vertical_step(&geom, &sel, false);
    assert_eq!((down.offset, x), (8, 3_200));
    let (goal, side) =
        plan_move(&d, Some(&geom), None, &sel, CaretAffinity::LeadingX, MoveDirection::Down)
            .unwrap();
    assert_eq!(side, CaretAffinity::LeadingX);
    let sel = finish_move(&d, &sel, goal, false);
    assert_eq!(sel.ideal_x, Some(3_200), "the column outlives the short line");
    let (up, _) = vertical_step(&geom, &SelectionState::at(LogicalPos::top(0, 5)), true);
    assert_eq!(up.offset, 5, "no line above");
}

#[test]
fn line_ends_come_from_the_layout() {
    let d = one_para_doc("hello world");
    let geom = vec![text_line(0, 0, 6), text_line(1_280, 6, 5)];
    assert_eq!(line_home(&geom, &LogicalPos::top(0, 8)), Some(LogicalPos::top(0, 6)));
    assert_eq!(line_end(&geom, &LogicalPos::top(0, 8)), Some(LogicalPos::top(0, 11)));
    assert_eq!(line_home(&geom, &LogicalPos::top(4, 8)), None);
    let sel = SelectionState::at(LogicalPos::top(0, 8));
    let up = plan_move(&d, None, None, &sel, CaretAffinity::LeadingX, MoveDirection::Up);
    assert!(matches!(up, Err(MoveError::NoLayout)));
    let home = plan_move(
        &d,
        Some(&geom),
        None,
        &sel,
        CaretAffinity::LeadingX,
        MoveDirection::LineHome,
    );
    let Ok((MoveGoal::Place { caret, .. }, _)) = home else {
        panic!("a place");
    };
    assert_eq!(caret, LogicalPos::top(0, 6));
}

#[test]
fn an_extending_motion_keeps_the_anchor() {
    let d = one_para_doc("hello world");
    let sel = SelectionState::at(LogicalPos::top(0, 5));
    let (goal, _) =
        plan_move(&d, None, None, &sel, CaretAffinity::LeadingX, MoveDirection::WordRight)
            .unwrap();
    let wider = finish_move(&d, &sel, goal, true);
    assert_eq!((wider.anchor, wider.caret), (LogicalPos::top(0, 5), LogicalPos::top(0, 6)));
}

#[test]
fn the_paragraph_direction_decides_a_plain_arrow() {
    let d = doc(vec![para("abc", Some(Direction::Ltr)), para("", None)]);
    assert_eq!(paragraph_direction_at(&d, &BlockPath::top(0), None), Direction::Ltr);
    let base = paragraph_direction_at(&d, &BlockPath::top(1), Some(Direction::Rtl));
    assert_eq!(base, Direction::Rtl);
    let (right, _) = visual_step_arrow(&d, None, None, &LogicalPos::top(0, 1), true);
    assert_eq!(right.offset, 2);
}

#[test]
fn steps_undo_each_other_and_keep_between_characters() {
    let text = "aيًb 👨‍👩‍👧 é";
    let d = one_para_doc(text);
    let mut at = LogicalPos::top(0, 0);
    loop {
        let next = step_right(&d, at.clone());
        if next == at {
            break;
        }
        assert!(text.is_char_boundary(next.offset as usize));
        assert_eq!(step_left(&d, next.clone()), at);
        at = next;
    }
    assert_eq!(at.offset as usize, text.len());
    for off in 0..=text.len() as u32 {
        for stop in [
            step_left(&d, LogicalPos::top(0, off)),
            step_right(&d, LogicalPos::top(0, off)),
            step_word_left(&d, LogicalPos::top(0, off)),
            step_word_right(&d, LogicalPos::top(0, off)),
        ] {
            assert!(text.is_char_boundary(stop.offset as usize));
        }
    }
}

#[test]
fn a_step_right_and_a_step_left_come_back_over_paragraphs() {
    let d = first_second();
    let last = document_end(&d);
    let mut at = LogicalPos::top(0, 0);
    let mut crossed = false;
    while at != last {
        let next = step_right(&d, at.clone());
        crossed = crossed || next.path != at.path;
        assert_eq!(step_left(&d, next.clone()), at);
        at = next;
    }
    assert!(crossed);
    assert_eq!(step_right(&d, last.clone()), last);
    while at != LogicalPos::top(0, 0) {
        let back = step_left(&d, at.clone());
        assert_eq!(step_right(&d, back.clone()), at);
        at = back;
    }
    assert_eq!(step_left(&d, at.clone()), at);
}
