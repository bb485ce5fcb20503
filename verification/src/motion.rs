//! Caret motion commands: the visual arrows, vertical motion, line and
//! document ends, and Tab through table cells.

use crate::caret::{
    clamp_pos, clamped_pos, doc_end, document_end, left_of, right_of, step_left, step_right,
    step_word_left, step_word_right, word_left_of, word_right_of,
};
use crate::command::MoveDirection;
use crate::common::{top_pos, BlockPath, Direction, Kind, LogicalPos, PathStep, Pos, SelectionKind};
use crate::document::{cell_at, len_at, para_at, table_at, Block, DocumentTree, Table};
use crate::geometry::{
    any_index, beyond, closer_beyond, find_line, gap, holding, law_hit_picks_nearest_slot, law_visual_step_is_next, lemma_scan_first_least,
    lemma_scan_range, line_of, line_x_dist, nearer_byte, nearer_slot, nearest_slot_by_x, neighbor_byte,
    neighbor_slot_byte_by_x, never, scan_pick, slot_near_x, slot_x_for_byte, top_table, x_dist,
    x_near_byte, CaretAffinity, LineGeom, HALF_PX,
};
use crate::selection::{
    cell_in, cell_of, derive_selection_kind, enclosing_table_path, kind_between, table_around,
};
use vstd::prelude::*;

verus! {

/// The selection: a fixed anchor and a moving caret. `ideal_x` is the column
/// that vertical motion returns to; it is set only during such a walk.
#[derive(Debug, PartialEq, Eq)]
pub struct SelectionState {
    pub anchor: LogicalPos,
    pub caret: LogicalPos,
    pub ideal_x: Option<i32>,
    pub kind: SelectionKind,
}

/// What a [`SelectionState`] says.
pub ghost struct Sel {
    pub anchor: Pos,
    pub caret: Pos,
    pub ideal_x: Option<i32>,
    pub kind: Kind,
}

impl View for SelectionState {
    type V = Sel;

    open spec fn view(&self) -> Sel {
        Sel {
            anchor: self.anchor@,
            caret: self.caret@,
            ideal_x: self.ideal_x,
            kind: self.kind@,
        }
    }
}

impl Clone for SelectionState {
    fn clone(&self) -> (r: Self)
        ensures
            r@ == self@,
    {
        SelectionState {
            anchor: self.anchor.clone(),
            caret: self.caret.clone(),
            ideal_x: self.ideal_x,
            kind: self.kind.clone(),
        }
    }
}

/// A caret without a selected range.
pub open spec fn collapsed(pos: Pos) -> Sel {
    Sel { anchor: pos, caret: pos, ideal_x: None, kind: Kind::Linear }
}

impl SelectionState {
    /// A caret at `pos` without a selected range.
    pub fn at(pos: LogicalPos) -> (r: Self)
        ensures
            r@ == collapsed(pos@),
    {
        SelectionState {
            anchor: pos.clone(),
            caret: pos,
            ideal_x: None,
            kind: SelectionKind::Linear,
        }
    }
}

/// The base direction of a paragraph: its own, else that of its first strong
/// character, else the document's, else left to right.
pub open spec fn direction_at(
    blocks: Seq<Block>,
    path: Seq<PathStep>,
    base: Option<Direction>,
) -> Direction {
    let fallback = match base {
        Some(d) => d,
        None => Direction::Ltr,
    };
    match para_at(blocks, path) {
        Some(p) => match (p.props.direction, p.auto_direction) {
            (Some(d), _) => d,
            (None, Some(d)) => d,
            (None, None) => fallback,
        },
        None => fallback,
    }
}

/// The base direction of the paragraph at `path`.
pub fn paragraph_direction_at(doc: &DocumentTree, path: &BlockPath, base: Option<Direction>) -> (r:
    Direction)
    ensures
        r == direction_at(doc.blocks@, path@, base),
{
    if let Some(p) = doc.paragraph_at_path(path) {
        if let Some(d) = p.props.direction {
            return d;
        }
        if let Some(d) = p.auto_direction {
            return d;
        }
    }
    match base {
        Some(d) => d,
        None => Direction::Ltr,
    }
}

/// The side of a seam that an arrow key leaves the caret on.
pub open spec fn arrow_side(right: bool) -> CaretAffinity {
    if right {
        CaretAffinity::TrailingX
    } else {
        CaretAffinity::LeadingX
    }
}

/// The byte that an arrow key finds on the caret's own line.
pub open spec fn visual_neighbor(geom: Option<Seq<LineGeom>>, caret: Pos, right: bool) -> Option<
    u32,
> {
    match geom {
        Some(g) => match line_of(g, caret) {
            Some(i) => neighbor_byte(
                g[i].slots@,
                x_near_byte(g[i].slots@, caret.offset as int, g[i].start_x) as int,
                right,
            ),
            None => None,
        },
        None => None,
    }
}

/// Where an arrow key takes the caret: to the slot next to it on its line,
/// else a logical step in the paragraph's direction.
pub open spec fn arrow_target(
    blocks: Seq<Block>,
    geom: Option<Seq<LineGeom>>,
    base: Option<Direction>,
    caret: Pos,
    right: bool,
) -> Pos {
    match visual_neighbor(geom, caret, right) {
        Some(byte) => Pos { path: caret.path, offset: byte },
        None => if right == (direction_at(blocks, caret.path, base) == Direction::Ltr) {
            right_of(blocks, caret)
        } else {
            left_of(blocks, caret)
        },
    }
}

/// What is known of the lines that a layout gave.
pub open spec fn opt_geom(geom: Option<&Vec<LineGeom>>) -> Option<Seq<LineGeom>> {
    match geom {
        Some(g) => Some(g@),
        None => None,
    }
}

/// The visual arrow step. `geom` is `None` when there is no layout.
pub fn visual_step_arrow(
    doc: &DocumentTree,
    geom: Option<&Vec<LineGeom>>,
    base: Option<Direction>,
    caret: &LogicalPos,
    going_right: bool,
) -> (r: (LogicalPos, CaretAffinity))
    ensures
        r.0@ == arrow_target(doc.blocks@, opt_geom(geom), base, caret@, going_right),
        r.1 == arrow_side(going_right),
{
    let affinity: CaretAffinity = if going_right {
        CaretAffinity::TrailingX
    } else {
        CaretAffinity::LeadingX
    };
    if let Some(g) = geom {
        if let Some(i) = find_line(g, caret) {
            let x: i32 = slot_x_for_byte(&g[i], caret.offset);
            if let Some(byte) = neighbor_slot_byte_by_x(&g[i].slots, x, going_right) {
                return (LogicalPos { path: caret.path.clone(), offset: byte }, affinity);
            }
        }
    }
    let ltr: bool = paragraph_direction_at(doc, &caret.path, base) == Direction::Ltr;
    let stepped = if going_right == ltr {
        step_right(doc, caret.clone())
    } else {
        step_left(doc, caret.clone())
    };
    (stepped, affinity)
}

/// The start of the caret's line.
pub fn line_home(geom: &Vec<LineGeom>, caret: &LogicalPos) -> (r: Option<LogicalPos>)
    ensures
        match r {
            Some(p) => line_of(geom@, caret@) matches Some(i) && p@ == (Pos {
                path: caret@.path,
                offset: geom@[i].start_byte,
            }),
            None => line_of(geom@, caret@) is None,
        },
{
    match find_line(geom, caret) {
        Some(i) => Some(LogicalPos { path: caret.path.clone(), offset: geom[i].start_byte }),
        None => None,
    }
}

/// The end of the caret's line.
pub fn line_end(geom: &Vec<LineGeom>, caret: &LogicalPos) -> (r: Option<LogicalPos>)
    ensures
        match r {
            Some(p) => line_of(geom@, caret@) matches Some(i) && p@ == (Pos {
                path: caret@.path,
                offset: geom@[i].end_byte,
            }),
            None => line_of(geom@, caret@) is None,
        },
{
    match find_line(geom, caret) {
        Some(i) => Some(LogicalPos { path: caret.path.clone(), offset: geom[i].end_byte }),
        None => None,
    }
}

/// Where Home or End takes the caret; it stays when its line is not laid out.
pub open spec fn line_edge(geom: Option<Seq<LineGeom>>, caret: Pos, home: bool) -> Pos {
    match geom {
        Some(g) => match line_of(g, caret) {
            Some(i) => Pos {
                path: caret.path,
                offset: if home {
                    g[i].start_byte
                } else {
                    g[i].end_byte
                },
            },
            None => caret,
        },
        None => caret,
    }
}

/// The column of a vertical walk: the one carried along, else the caret's x
/// on its line, else on the first line.
pub open spec fn walk_column(geom: Seq<LineGeom>, sel: Sel) -> i32 {
    match sel.ideal_x {
        Some(x) => x,
        None => {
            let at = match line_of(geom, sel.caret) {
                Some(i) => Some(i),
                None => if geom.len() > 0 {
                    Some(0int)
                } else {
                    None
                },
            };
            match at {
                Some(i) => x_near_byte(
                    geom[i].slots@,
                    sel.caret.offset as int,
                    geom[i].start_x,
                ),
                None => 0,
            }
        },
    }
}

/// Line `i` lies above or below line `cur` by more than half a pixel.
pub open spec fn on_other_side(geom: Seq<LineGeom>, cur: int, up: bool) -> spec_fn(int) -> bool {
    |i: int|
        i != cur && if up {
            geom[i].y_top + HALF_PX < geom[cur].y_top
        } else {
            geom[i].y_top > geom[cur].y_top + HALF_PX
        }
}

/// Line `i` is a better target than line `b`: nearer vertically by more than
/// half a pixel, or as near and horizontally nearer to the column.
pub open spec fn better_target(geom: Seq<LineGeom>, cur: int, column: int) -> spec_fn(
    int,
    int,
) -> bool {
    |i: int, b: int|
        {
            let di = gap(geom[i].y_top as int, geom[cur].y_top as int);
            let db = gap(geom[b].y_top as int, geom[cur].y_top as int);
            di < db - HALF_PX || (gap(di, db) < HALF_PX && x_dist(geom[i], column) < x_dist(
                geom[b],
                column,
            ))
        }
}

/// The top-level block that a line outside tables belongs to.
pub open spec fn body_block(path: Seq<PathStep>) -> Option<u32> {
    if path.len() >= 1 && !(path.len() >= 2 && path[1] is Cell) {
        match path[0] {
            PathStep::Block { idx } => Some(idx),
            PathStep::Cell { .. } => None,
        }
    } else {
        None
    }
}

/// Line `i` is body text before or after top-level block `t`.
pub open spec fn body_beyond(geom: Seq<LineGeom>, t: u32, up: bool) -> spec_fn(int) -> bool {
    |i: int|
        match body_block(geom[i].path@) {
            Some(idx) => if up {
                idx < t
            } else {
                idx > t
            },
            None => false,
        }
}

/// Line `i` stands lower than line `b` when going up, higher when going down.
pub open spec fn nearer_edge(geom: Seq<LineGeom>, up: bool) -> spec_fn(int, int) -> bool {
    |i: int, b: int|
        if up {
            geom[i].y_top > geom[b].y_top
        } else {
            geom[i].y_top < geom[b].y_top
        }
}

/// The line that vertical motion leads to.
pub open spec fn vertical_line(geom: Seq<LineGeom>, caret: Pos, column: i32, up: bool) -> Option<
    int,
> {
    match line_of(geom, caret) {
        Some(cur) => match scan_pick(
            geom.len(),
            on_other_side(geom, cur, up),
            better_target(geom, cur, column as int),
        ) {
            Some(i) => Some(i),
            None => match top_table(geom[cur].path@) {
                Some(t) => scan_pick(geom.len(), body_beyond(geom, t, up), nearer_edge(geom, up)),
                None => None,
            },
        },
        None => if geom.len() == 0 {
            None
        } else if up {
            Some(geom.len() - 1)
        } else {
            Some(0)
        },
    }
}

/// Where vertical motion takes the caret: the slot nearest to the column on
/// the target line; the caret stays when there is no target.
pub open spec fn vertical_target(geom: Seq<LineGeom>, caret: Pos, column: i32, up: bool) -> Pos {
    match vertical_line(geom, caret, column, up) {
        Some(i) => Pos {
            path: geom[i].path@,
            offset: match slot_near_x(geom[i].slots@, column as int) {
                Some(s) => s.byte,
                None => geom[i].start_byte,
            },
        },
        None => caret,
    }
}

fn gap64(a: i64, b: i64) -> (r: i64)
    requires
        0 <= a <= 0x1_0000_0000,
        0 <= b <= 0x1_0000_0000,
    ensures
        r == gap(a as int, b as int),
{
    if a < b {
        b - a
    } else {
        a - b
    }
}

fn y_gap(a: i32, b: i32) -> (r: i64)
    ensures
        r == gap(a as int, b as int),
        0 <= r <= 0x1_0000_0000,
{
    if a < b {
        b as i64 - a as i64
    } else {
        a as i64 - b as i64
    }
}

fn scan_other_side(geom: &Vec<LineGeom>, cur: usize, column: i32, up: bool) -> (r: Option<usize>)
    requires
        cur < geom@.len(),
    ensures
        match r {
            Some(i) => i < geom@.len() && scan_pick(
                geom@.len(),
                on_other_side(geom@, cur as int, up),
                better_target(geom@, cur as int, column as int),
            ) == Some(i as int),
            None => scan_pick(
                geom@.len(),
                on_other_side(geom@, cur as int, up),
                better_target(geom@, cur as int, column as int),
            ) is None,
        },
{
    let ghost ok = on_other_side(geom@, cur as int, up);
    let ghost beats = better_target(geom@, cur as int, column as int);
    let cur_y: i32 = geom[cur].y_top;
    let mut best: Option<usize> = None;
    let mut i: usize = 0;
    while i < geom.len()
        invariant
            i <= geom@.len(),
            cur < geom@.len(),
            cur_y == geom@[cur as int].y_top,
            ok == on_other_side(geom@, cur as int, up),
            beats == better_target(geom@, cur as int, column as int),
            match best {
                Some(b) => b < i && scan_pick(i as nat, ok, beats) == Some(b as int),
                None => scan_pick(i as nat, ok, beats) is None,
            },
        decreases geom.len() - i,
    {
        let y: i64 = geom[i].y_top as i64;
        let qualifies: bool = i != cur && if up {
            y + HALF_PX < cur_y as i64
        } else {
            y > cur_y as i64 + HALF_PX
        };
        assert(qualifies == ok(i as int));
        if qualifies {
            best = match best {
                None => Some(i),
                Some(b) => {
                    let di: i64 = y_gap(geom[i].y_top, cur_y);
                    let db: i64 = y_gap(geom[b].y_top, cur_y);
                    let better: bool = di < db - HALF_PX || (gap64(di, db) < HALF_PX && line_x_dist(
                        &geom[i],
                        column,
                    ) < line_x_dist(&geom[b], column));
                    assert(better == beats(i as int, b as int));
                    if better {
                        Some(i)
                    } else {
                        Some(b)
                    }
                },
            };
        }
        i += 1;
    }
    best
}

fn body_block_of(path: &BlockPath) -> (r: Option<u32>)
    ensures
        r == body_block(path@),
{
    if path.steps.len() == 0 {
        return None;
    }
    if path.steps.len() >= 2 {
        if let PathStep::Cell { .. } = path.steps[1] {
            return None;
        }
    }
    match path.steps[0] {
        PathStep::Block { idx } => Some(idx),
        PathStep::Cell { .. } => None,
    }
}

fn scan_body(geom: &Vec<LineGeom>, t: u32, up: bool) -> (r: Option<usize>)
    ensures
        match r {
            Some(i) => i < geom@.len() && scan_pick(
                geom@.len(),
                body_beyond(geom@, t, up),
                nearer_edge(geom@, up),
            ) == Some(i as int),
            None => scan_pick(geom@.len(), body_beyond(geom@, t, up), nearer_edge(geom@, up)) is None,
        },
{
    let ghost ok = body_beyond(geom@, t, up);
    let ghost beats = nearer_edge(geom@, up);
    let mut best: Option<usize> = None;
    let mut i: usize = 0;
    while i < geom.len()
        invariant
            i <= geom@.len(),
            ok == body_beyond(geom@, t, up),
            beats == nearer_edge(geom@, up),
            match best {
                Some(b) => b < i && scan_pick(i as nat, ok, beats) == Some(b as int),
                None => scan_pick(i as nat, ok, beats) is None,
            },
        decreases geom.len() - i,
    {
        let qualifies: bool = match body_block_of(&geom[i].path) {
            Some(idx) => if up {
                idx < t
            } else {
                idx > t
            },
            None => false,
        };
        assert(qualifies == ok(i as int));
        if qualifies {
            best = match best {
                None => Some(i),
                Some(b) => {
                    let better: bool = if up {
                        geom[i].y_top > geom[b].y_top
                    } else {
                        geom[i].y_top < geom[b].y_top
                    };
                    if better {
                        Some(i)
                    } else {
                        Some(b)
                    }
                },
            };
        }
        i += 1;
    }
    best
}

fn top_table_of(path: &BlockPath) -> (r: Option<u32>)
    ensures
        r == top_table(path@),
{
    if path.steps.len() < 2 {
        return None;
    }
    match (path.steps[0], path.steps[1]) {
        (PathStep::Block { idx }, PathStep::Cell { .. }) => Some(idx),
        _ => None,
    }
}

/// Vertical motion: the new caret, and the column that the walk keeps.
pub fn vertical_step(geom: &Vec<LineGeom>, sel: &SelectionState, up: bool) -> (r: (LogicalPos, i32))
    ensures
        r.1 == walk_column(geom@, sel@),
        r.0@ == vertical_target(geom@, sel.caret@, r.1, up),
{
    let cur: Option<usize> = find_line(geom, &sel.caret);
    let column: i32 = match sel.ideal_x {
        Some(x) => x,
        None => match cur {
            Some(i) => slot_x_for_byte(&geom[i], sel.caret.offset),
            None => if geom.len() > 0 {
                slot_x_for_byte(&geom[0], sel.caret.offset)
            } else {
                0
            },
        },
    };
    let target: Option<usize> = match cur {
        Some(c) => match scan_other_side(geom, c, column, up) {
            Some(i) => Some(i),
            None => match top_table_of(&geom[c].path) {
                Some(t) => scan_body(geom, t, up),
                None => None,
            },
        },
        None => if geom.len() == 0 {
            None
        } else if up {
            Some(geom.len() - 1)
        } else {
            Some(0)
        },
    };
    match target {
        Some(i) => {
            let line: &LineGeom = &geom[i];
            let offset: u32 = match nearest_slot_by_x(&line.slots, column) {
                Some(s) => s.byte,
                None => line.start_byte,
            };
            (LogicalPos { path: line.path.clone(), offset }, column)
        },
        None => (sel.caret.clone(), column),
    }
}

/// What Tab does: stay, go to a cell, or go to the first cell of a row that
/// has to be appended first.
pub ghost enum TabGoal {
    Stay,
    Cell { table: Seq<PathStep>, row: u32, col: u32 },
    NewRow { table: Seq<PathStep>, at: u32 },
}

/// The greatest number of cells in the first `n` rows.
pub open spec fn widest(t: Table, n: nat) -> nat
    decreases n,
{
    if n == 0 {
        0
    } else {
        let w = widest(t, (n - 1) as nat);
        let k = t.rows@[n - 1].cells@.len();
        if k > w {
            k
        } else {
            w
        }
    }
}

/// What Tab, or Shift+Tab when not `forward`, does with the caret at `caret`:
/// the next or previous cell in row-major order of the innermost table, a new
/// row after the last cell, nothing before the first cell or outside tables.
pub open spec fn tab_goal(blocks: Seq<Block>, caret: Pos, forward: bool) -> TabGoal {
    match table_around(caret.path) {
        None => TabGoal::Stay,
        Some(table) => match (cell_in(caret.path, table), table_at(blocks, table)) {
            (Some((r, c)), Some(t)) => {
                let n_rows = t.rows@.len() as u32;
                let n_cols = widest(t, t.rows@.len()) as u32;
                if n_rows == 0 || n_cols == 0 {
                    TabGoal::Stay
                } else if forward {
                    if c + 1 < n_cols {
                        TabGoal::Cell { table, row: r, col: (c + 1) as u32 }
                    } else if r + 1 < n_rows {
                        TabGoal::Cell { table, row: (r + 1) as u32, col: 0 }
                    } else {
                        TabGoal::NewRow { table, at: n_rows }
                    }
                } else if c > 0 {
                    TabGoal::Cell { table, row: r, col: (c - 1) as u32 }
                } else if r > 0 {
                    let cols = if r - 1 < t.rows@.len() {
                        t.rows@[r - 1].cells@.len() as u32
                    } else {
                        n_cols
                    };
                    TabGoal::Cell {
                        table,
                        row: (r - 1) as u32,
                        col: if cols > 0 {
                            (cols - 1) as u32
                        } else {
                            0
                        },
                    }
                } else {
                    TabGoal::Stay
                }
            },
            _ => TabGoal::Stay,
        },
    }
}

/// The table position that Tab leads to.
#[derive(Debug, PartialEq, Eq)]
pub enum TabStep {
    Stay,
    Cell { table_path: BlockPath, row: u32, col: u32 },
    NewRow { table_path: BlockPath, at: u32 },
}

impl View for TabStep {
    type V = TabGoal;

    open spec fn view(&self) -> TabGoal {
        match *self {
            TabStep::Stay => TabGoal::Stay,
            TabStep::Cell { table_path, row, col } => TabGoal::Cell { table: table_path@, row, col },
            TabStep::NewRow { table_path, at } => TabGoal::NewRow { table: table_path@, at },
        }
    }
}

fn widest_row(t: &Table) -> (r: usize)
    ensures
        r == widest(*t, t.rows@.len()),
{
    let mut w: usize = 0;
    let mut i: usize = 0;
    while i < t.rows.len()
        invariant
            i <= t.rows@.len(),
            w == widest(*t, i as nat),
        decreases t.rows.len() - i,
    {
        let k: usize = t.rows[i].cells.len();
        if k > w {
            w = k;
        }
        i += 1;
    }
    w
}

/// Tab and Shift+Tab inside a table.
pub fn cell_tab_step(doc: &DocumentTree, caret: &LogicalPos, forward: bool) -> (r: TabStep)
    ensures
        r@ == tab_goal(doc.blocks@, caret@, forward),
{
    let table_path = match enclosing_table_path(&caret.path) {
        Some(t) => t,
        None => {
            return TabStep::Stay;
        },
    };
    let (r, c): (u32, u32) = match cell_of(&caret.path, &table_path) {
        Some(rc) => rc,
        None => {
            return TabStep::Stay;
        },
    };
    let t: &Table = match doc.table_at_path(&table_path) {
        Some(t) => t,
        None => {
            return TabStep::Stay;
        },
    };
    let n_rows: u32 = t.rows.len() as u32;
    let n_cols: u32 = widest_row(t) as u32;
    if n_rows == 0 || n_cols == 0 {
        return TabStep::Stay;
    }
    if forward {
        if c < n_cols - 1 {
            TabStep::Cell { table_path, row: r, col: c + 1 }
        } else if r < n_rows - 1 {
            TabStep::Cell { table_path, row: r + 1, col: 0 }
        } else {
            TabStep::NewRow { table_path, at: n_rows }
        }
    } else if c > 0 {
        TabStep::Cell { table_path, row: r, col: c - 1 }
    } else if r > 0 {
        let above: usize = (r - 1) as usize;
        let cols: u32 = if above < t.rows.len() {
            t.rows[above].cells.len() as u32
        } else {
            n_cols
        };
        TabStep::Cell {
            table_path,
            row: r - 1,
            col: if cols > 0 {
                cols - 1
            } else {
                0
            },
        }
    } else {
        TabStep::Stay
    }
}

/// Where a caret motion leads.
pub ghost enum Goal {
    Place { caret: Pos, ideal_x: Option<i32> },
    Cell { table: Seq<PathStep>, row: u32, col: u32 },
    NewRow { table: Seq<PathStep>, at: u32 },
}

/// Where a caret motion leads: to a position, to the content of a table cell,
/// or to the first cell of a row that has to be inserted before row `at`.
#[derive(Debug, PartialEq, Eq)]
pub enum MoveGoal {
    Place { caret: LogicalPos, ideal_x: Option<i32> },
    Cell { table_path: BlockPath, row: u32, col: u32 },
    NewRow { table_path: BlockPath, at: u32 },
}

impl View for MoveGoal {
    type V = Goal;

    open spec fn view(&self) -> Goal {
        match *self {
            MoveGoal::Place { caret, ideal_x } => Goal::Place { caret: caret@, ideal_x },
            MoveGoal::Cell { table_path, row, col } => Goal::Cell { table: table_path@, row, col },
            MoveGoal::NewRow { table_path, at } => Goal::NewRow { table: table_path@, at },
        }
    }
}

/// Why a caret motion is refused.
#[derive(Clone, Copy, Debug, PartialEq, Eq, Structural)]
pub enum MoveError {
    /// Vertical motion needs a layout.
    NoLayout,
}

/// Whether a motion is a jump by word that goes to the right in `dir` text.
pub open spec fn word_target(blocks: Seq<Block>, caret: Pos, right: bool, dir: Direction) -> Pos {
    if right == (dir == Direction::Ltr) {
        word_right_of(blocks, caret)
    } else {
        word_left_of(blocks, caret)
    }
}

/// The goal of a motion command; `None` when it is refused.
pub open spec fn planned(
    blocks: Seq<Block>,
    geom: Option<Seq<LineGeom>>,
    base: Option<Direction>,
    sel: Sel,
    direction: MoveDirection,
) -> Option<Goal> {
    let here = sel.caret;
    let dir = direction_at(blocks, here.path, base);
    match direction {
        MoveDirection::Left => Some(
            Goal::Place { caret: arrow_target(blocks, geom, base, here, false), ideal_x: None },
        ),
        MoveDirection::Right => Some(
            Goal::Place { caret: arrow_target(blocks, geom, base, here, true), ideal_x: None },
        ),
        MoveDirection::WordLeft => Some(
            Goal::Place { caret: word_target(blocks, here, false, dir), ideal_x: None },
        ),
        MoveDirection::WordRight => Some(
            Goal::Place { caret: word_target(blocks, here, true, dir), ideal_x: None },
        ),
        MoveDirection::LineHome => Some(
            Goal::Place { caret: line_edge(geom, here, true), ideal_x: None },
        ),
        MoveDirection::LineEnd => Some(
            Goal::Place { caret: line_edge(geom, here, false), ideal_x: None },
        ),
        MoveDirection::DocHome => Some(Goal::Place { caret: top_pos(0, 0), ideal_x: None }),
        MoveDirection::DocEnd => Some(Goal::Place { caret: doc_end(blocks), ideal_x: None }),
        MoveDirection::NextCell => Some(cell_goal(tab_goal(blocks, here, true), here)),
        MoveDirection::PrevCell => Some(cell_goal(tab_goal(blocks, here, false), here)),
        MoveDirection::Up => vertical_goal(geom, sel, true),
        MoveDirection::Down => vertical_goal(geom, sel, false),
    }
}

/// The goal of Tab.
pub open spec fn cell_goal(tab: TabGoal, here: Pos) -> Goal {
    match tab {
        TabGoal::Stay => Goal::Place { caret: here, ideal_x: None },
        TabGoal::Cell { table, row, col } => Goal::Cell { table, row, col },
        TabGoal::NewRow { table, at } => Goal::NewRow { table, at },
    }
}

/// The goal of vertical motion.
pub open spec fn vertical_goal(geom: Option<Seq<LineGeom>>, sel: Sel, up: bool) -> Option<Goal> {
    match geom {
        Some(g) => {
            let column = walk_column(g, sel);
            Some(
                Goal::Place {
                    caret: vertical_target(g, sel.caret, column, up),
                    ideal_x: Some(column),
                },
            )
        },
        None => None,
    }
}

/// The seam side after a motion: arrows and word jumps set it, the others
/// leave it.
pub open spec fn side_after(side: CaretAffinity, direction: MoveDirection) -> CaretAffinity {
    match direction {
        MoveDirection::Left | MoveDirection::WordLeft => CaretAffinity::LeadingX,
        MoveDirection::Right | MoveDirection::WordRight => CaretAffinity::TrailingX,
        _ => side,
    }
}

fn place_at(caret: LogicalPos) -> (r: MoveGoal)
    ensures
        r@ == (Goal::Place { caret: caret@, ideal_x: None }),
{
    MoveGoal::Place { caret, ideal_x: None }
}

fn tab_to_goal(step: TabStep, here: &LogicalPos) -> (r: MoveGoal)
    ensures
        r@ == cell_goal(step@, here@),
{
    match step {
        TabStep::Stay => place_at(here.clone()),
        TabStep::Cell { table_path, row, col } => MoveGoal::Cell { table_path, row, col },
        TabStep::NewRow { table_path, at } => MoveGoal::NewRow { table_path, at },
    }
}

fn word_step(doc: &DocumentTree, caret: &LogicalPos, right: bool, base: Option<Direction>) -> (r:
    LogicalPos)
    ensures
        r@ == word_target(
            doc.blocks@,
            caret@,
            right,
            direction_at(doc.blocks@, caret@.path, base),
        ),
{
    let ltr: bool = paragraph_direction_at(doc, &caret.path, base) == Direction::Ltr;
    if right == ltr {
        step_word_right(doc, caret.clone())
    } else {
        step_word_left(doc, caret.clone())
    }
}

fn edge_of_line(geom: Option<&Vec<LineGeom>>, caret: &LogicalPos, home: bool) -> (r: LogicalPos)
    ensures
        r@ == line_edge(opt_geom(geom), caret@, home),
{
    match geom {
        Some(g) => {
            let edge = if home {
                line_home(g, caret)
            } else {
                line_end(g, caret)
            };
            match edge {
                Some(p) => p,
                None => caret.clone(),
            }
        },
        None => caret.clone(),
    }
}

/// Decide where a motion command leads. Arrows follow the lines when there is
/// a layout; word jumps follow the paragraph's direction; vertical motion is
/// refused without a layout.
pub fn plan_move(
    doc: &DocumentTree,
    geom: Option<&Vec<LineGeom>>,
    base: Option<Direction>,
    sel: &SelectionState,
    affinity: CaretAffinity,
    direction: MoveDirection,
) -> (r: Result<(MoveGoal, CaretAffinity), MoveError>)
    ensures
        match r {
            Ok((goal, side)) => planned(doc.blocks@, opt_geom(geom), base, sel@, direction) == Some(
                goal@,
            ) && side == side_after(affinity, direction),
            Err(e) => planned(doc.blocks@, opt_geom(geom), base, sel@, direction) is None && e
                == MoveError::NoLayout,
        },
        r is Err <==> geom is None && (direction == MoveDirection::Up || direction
            == MoveDirection::Down),
{
    let here: &LogicalPos = &sel.caret;
    match direction {
        MoveDirection::Left => {
            let (p, side) = visual_step_arrow(doc, geom, base, here, false);
            Ok((place_at(p), side))
        },
        MoveDirection::Right => {
            let (p, side) = visual_step_arrow(doc, geom, base, here, true);
            Ok((place_at(p), side))
        },
        MoveDirection::WordLeft => Ok(
            (place_at(word_step(doc, here, false, base)), CaretAffinity::LeadingX),
        ),
        MoveDirection::WordRight => Ok(
            (place_at(word_step(doc, here, true, base)), CaretAffinity::TrailingX),
        ),
        MoveDirection::LineHome => Ok((place_at(edge_of_line(geom, here, true)), affinity)),
        MoveDirection::LineEnd => Ok((place_at(edge_of_line(geom, here, false)), affinity)),
        MoveDirection::DocHome => Ok((place_at(LogicalPos::top(0, 0)), affinity)),
        MoveDirection::DocEnd => Ok((place_at(document_end(doc)), affinity)),
        MoveDirection::NextCell => Ok(
            (tab_to_goal(cell_tab_step(doc, here, true), here), affinity),
        ),
        MoveDirection::PrevCell => Ok(
            (tab_to_goal(cell_tab_step(doc, here, false), here), affinity),
        ),
        MoveDirection::Up | MoveDirection::Down => match geom {
            Some(g) => {
                let (caret, column) = vertical_step(g, sel, direction == MoveDirection::Up);
                Ok((MoveGoal::Place { caret, ideal_x: Some(column) }, affinity))
            },
            None => Err(MoveError::NoLayout),
        },
    }
}

/// The number of blocks in a cell; one where there is no such cell.
pub open spec fn cell_len(
    blocks: Seq<Block>,
    table: Seq<PathStep>,
    row: u32,
    col: u32,
) -> nat {
    match table_at(blocks, table) {
        Some(t) => match cell_at(t, row as int, col as int) {
            Some(c) => c.blocks@.len(),
            None => 1,
        },
        None => 1,
    }
}

/// The start and the end of the content of a cell.
pub open spec fn cell_span(
    blocks: Seq<Block>,
    table: Seq<PathStep>,
    row: u32,
    col: u32,
) -> (Pos, Pos) {
    let cell = table.push(PathStep::Cell { row, col });
    let n = cell_len(blocks, table, row, col);
    let last = cell.push(
        PathStep::Block {
            idx: if n > 0 {
                (n - 1) as u32
            } else {
                0
            },
        },
    );
    (
        Pos { path: cell.push(PathStep::Block { idx: 0 }), offset: 0 },
        Pos { path: last, offset: len_at(blocks, last) },
    )
}

/// The start and the end of the content of the cell at `(row, col)` of the
/// table at `table_path`.
pub fn cell_content(doc: &DocumentTree, table_path: &BlockPath, row: u32, col: u32) -> (r: (
    LogicalPos,
    LogicalPos,
))
    ensures
        (r.0@, r.1@) == cell_span(doc.blocks@, table_path@, row, col),
{
    let n: usize = match doc.table_at_path(table_path) {
        Some(t) => match t.cell(row, col) {
            Some(c) => c.blocks.len(),
            None => 1,
        },
        None => 1,
    };
    let cell = table_path.child(PathStep::Cell { row, col });
    let first = cell.child(PathStep::Block { idx: 0 });
    let idx: u32 = if n > 0 {
        (n - 1) as u32
    } else {
        0
    };
    let last = cell.child(PathStep::Block { idx });
    let len: u32 = doc.paragraph_len(&last);
    (LogicalPos { path: first, offset: 0 }, LogicalPos { path: last, offset: len })
}

/// The selection after a motion. `blocks` is the document after a row that
/// the goal asked for was inserted.
pub open spec fn moved(blocks: Seq<Block>, sel: Sel, goal: Goal, extend: bool) -> Sel {
    let (start, caret, ideal_x) = match goal {
        Goal::Place { caret, ideal_x } => {
            let c = clamped_pos(blocks, caret);
            (c, c, ideal_x)
        },
        Goal::Cell { table, row, col } => {
            let (s, e) = cell_span(blocks, table, row, col);
            (clamped_pos(blocks, s), clamped_pos(blocks, e), None)
        },
        Goal::NewRow { table, at } => {
            let (s, e) = cell_span(blocks, table, at, 0);
            (clamped_pos(blocks, s), clamped_pos(blocks, e), None)
        },
    };
    let anchor = if extend {
        sel.anchor
    } else {
        start
    };
    Sel { anchor, caret, ideal_x, kind: kind_between(anchor, caret) }
}

/// Carry out a motion: the caret lands on the goal, clamped into the
/// document; a cell is selected whole; `extend` keeps the anchor. `doc` is
/// the document after a row that the goal asked for was inserted.
pub fn finish_move(doc: &DocumentTree, sel: &SelectionState, goal: MoveGoal, extend: bool) -> (r:
    SelectionState)
    ensures
        r@ == moved(doc.blocks@, sel@, goal@, extend),
{
    let (start, caret, ideal_x): (LogicalPos, LogicalPos, Option<i32>) = match goal {
        MoveGoal::Place { caret, ideal_x } => {
            let c = clamp_pos(doc, caret);
            (c.clone(), c, ideal_x)
        },
        MoveGoal::Cell { table_path, row, col } => {
            let (s, e) = cell_content(doc, &table_path, row, col);
            (clamp_pos(doc, s), clamp_pos(doc, e), None)
        },
        MoveGoal::NewRow { table_path, at } => {
            let (s, e) = cell_content(doc, &table_path, at, 0);
            (clamp_pos(doc, s), clamp_pos(doc, e), None)
        },
    };
    let anchor = if extend {
        sel.anchor.clone()
    } else {
        start
    };
    let kind = derive_selection_kind(&anchor, &caret);
    SelectionState { anchor, caret, ideal_x, kind }
}

/// A motion to a position without `extend` leaves no selected range, and with
/// `extend` keeps the anchor.
pub proof fn law_motion_anchor(blocks: Seq<Block>, sel: Sel, goal: Goal)
    requires
        goal is Place,
    ensures
        moved(blocks, sel, goal, false).anchor == moved(blocks, sel, goal, false).caret,
        moved(blocks, sel, goal, false).kind is Linear,
        moved(blocks, sel, goal, true).anchor == sel.anchor,
        moved(blocks, sel, goal, true).caret == moved(blocks, sel, goal, false).caret,
{
}

/// The column of a vertical walk lives through vertical motion unchanged, and
/// every other motion drops it.
#[verifier::rlimit(50)]
pub proof fn law_column_kept_by_vertical_motion(
    blocks: Seq<Block>,
    geom: Seq<LineGeom>,
    base: Option<Direction>,
    sel: Sel,
    direction: MoveDirection,
    extend: bool,
)
    ensures
        planned(blocks, Some(geom), base, sel, direction) matches Some(goal) && ({
            let after = moved(blocks, sel, goal, extend);
            if direction == MoveDirection::Up || direction == MoveDirection::Down {
                after.ideal_x is Some && (sel.ideal_x is Some ==> after.ideal_x == sel.ideal_x)
            } else {
                after.ideal_x is None
            }
        }),
{
}

/// Every row of a table has `n` cells, at least one, and the counts fit path
/// steps.
pub open spec fn rectangular(t: Table, n: nat) -> bool {
    &&& 0 < n <= u32::MAX
    &&& 0 < t.rows@.len() <= u32::MAX
    &&& forall|i: int| 0 <= i < t.rows@.len() ==> (#[trigger] t.rows@[i]).cells@.len() == n
}

proof fn lemma_widest(t: Table, n: nat, k: nat)
    requires
        rectangular(t, n),
        k <= t.rows@.len(),
    ensures
        widest(t, k) == if k == 0 {
            0
        } else {
            n
        },
    decreases k,
{
    if k > 0 {
        lemma_widest(t, n, (k - 1) as nat);
        assert(t.rows@[k - 1].cells@.len() == n);
    }
}

/// The start of the first paragraph of a cell.
pub open spec fn cell_start(table: Seq<PathStep>, row: u32, col: u32) -> Pos {
    Pos {
        path: table.push(PathStep::Cell { row, col }).push(PathStep::Block { idx: 0 }),
        offset: 0,
    }
}

proof fn lemma_cell_start(table: Seq<PathStep>, row: u32, col: u32)
    ensures
        table_around(cell_start(table, row, col).path) == Some(table),
        cell_in(cell_start(table, row, col).path, table) == Some((row, col)),
{
    let p = cell_start(table, row, col).path;
    assert(p.take(p.len() - 2) =~= table);
    assert(p.take(table.len() as int) =~= table);
}

/// In a rectangular table, Tab goes through the cells row by row, and
/// Shift+Tab undoes it; Tab in the last cell asks for a new row after the last
/// one, and Shift+Tab in the first cell does nothing.
pub proof fn law_tab_walks_row_major(
    blocks: Seq<Block>,
    table: Seq<PathStep>,
    t: Table,
    n: nat,
    row: u32,
    col: u32,
)
    requires
        table_at(blocks, table) == Some(t),
        rectangular(t, n),
        row < t.rows@.len(),
        col < n,
    ensures
        ({
            let here = cell_start(table, row, col);
            let k = row * n + col;
            match tab_goal(blocks, here, true) {
                TabGoal::Cell { table: t2, row: r2, col: c2 } => {
                    &&& t2 == table
                    &&& r2 < t.rows@.len() && c2 < n
                    &&& r2 * n + c2 == k + 1
                    &&& tab_goal(blocks, cell_start(table, r2, c2), false) == (TabGoal::Cell {
                        table,
                        row,
                        col,
                    })
                },
                TabGoal::NewRow { table: t2, at } => {
                    &&& t2 == table
                    &&& at == t.rows@.len()
                    &&& k + 1 == t.rows@.len() * n
                },
                TabGoal::Stay => false,
            }
        }),
        tab_goal(blocks, cell_start(table, 0, 0), false) is Stay,
{
    let here = cell_start(table, row, col);
    lemma_cell_start(table, row, col);
    lemma_cell_start(table, 0, 0);
    lemma_widest(t, n, t.rows@.len());
    let rows = t.rows@.len();
    if col + 1 < n {
        lemma_cell_start(table, row, (col + 1) as u32);
    } else if row + 1 < rows {
        lemma_cell_start(table, (row + 1) as u32, 0);
        assert(t.rows@[row as int].cells@.len() == n);
        assert((row + 1) * n == row * n + n) by (nonlinear_arith);
    } else {
        assert((row + 1) * n == row * n + n) by (nonlinear_arith);
        assert(rows == row + 1);
    }
}

/// Tab and Shift+Tab leave the caret alone outside tables.
pub proof fn law_tab_outside_tables(blocks: Seq<Block>, idx: u32, offset: u32, forward: bool)
    ensures
        tab_goal(blocks, top_pos(idx, offset), forward) is Stay,
{
}

/// Vertical motion from a line goes up or down as asked: to a line on that
/// side, more than half a pixel away, when there is one; else from a table to
/// body text before or after it; else the caret stays.
pub proof fn law_vertical_motion_goes_that_way(
    geom: Seq<LineGeom>,
    caret: Pos,
    column: i32,
    up: bool,
    cur: int,
)
    requires
        line_of(geom, caret) == Some(cur),
    ensures
        match vertical_line(geom, caret, column, up) {
            Some(i) => {
                &&& 0 <= i < geom.len()
                &&& vertical_target(geom, caret, column, up).path == geom[i].path@
                &&& on_other_side(geom, cur, up)(i) || (top_table(geom[cur].path@) is Some
                    && body_beyond(geom, top_table(geom[cur].path@)->0, up)(i) && forall|j: int|
                    0 <= j < geom.len() ==> !(#[trigger] on_other_side(geom, cur, up)(j)))
            },
            None => {
                &&& vertical_target(geom, caret, column, up) == caret
                &&& forall|j: int|
                    0 <= j < geom.len() ==> !(#[trigger] on_other_side(geom, cur, up)(j))
            },
        },
{
    lemma_scan_range(
        geom.len(),
        on_other_side(geom, cur, up),
        better_target(geom, cur, column as int),
    );
    if let Some(t) = top_table(geom[cur].path@) {
        lemma_scan_range(geom.len(), body_beyond(geom, t, up), nearer_edge(geom, up));
    }
}

/// How far line `i` stands from line `cur` vertically, between their tops.
pub open spec fn rise(geom: Seq<LineGeom>, i: int, cur: int) -> int {
    if geom[i].y_top < geom[cur].y_top {
        geom[cur].y_top - geom[i].y_top
    } else {
        geom[i].y_top - geom[cur].y_top
    }
}

/// Lines stand in rows: the tops of two lines are either less than half a
/// pixel apart, in one row, or more than that, and two lines that share a row
/// with a third share it with one another.
pub open spec fn in_rows(geom: Seq<LineGeom>) -> bool {
    &&& forall|i: int, j: int|
        0 <= i < geom.len() && 0 <= j < geom.len() ==> #[trigger] rise(geom, i, j) != 32
    &&& forall|i: int, j: int, k: int|
        #![trigger rise(geom, i, j), rise(geom, j, k)]
        0 <= i < geom.len() && 0 <= j < geom.len() && 0 <= k < geom.len() && rise(geom, i, j) < 32
            && rise(geom, j, k) < 32 ==> rise(geom, i, k) < 32
}

/// The scan over the first `n` lines keeps a line that stands no farther off
/// than any other by more than half a pixel, and none of its row is nearer to
/// the column.
proof fn lemma_nearest_row(geom: Seq<LineGeom>, cur: int, column: int, up: bool, n: nat)
    requires
        0 <= cur < geom.len(),
        n <= geom.len(),
        in_rows(geom),
    ensures
        scan_pick(n, on_other_side(geom, cur, up), better_target(geom, cur, column)) matches Some(
            b,
        ) ==> {
            &&& 0 <= b < n && on_other_side(geom, cur, up)(b)
            &&& forall|j: int|
                0 <= j < n && #[trigger] on_other_side(geom, cur, up)(j) ==> rise(geom, b, cur)
                    <= rise(geom, j, cur) + 32
            &&& forall|j: int|
                0 <= j < n && #[trigger] on_other_side(geom, cur, up)(j) && rise(geom, b, j) < 32
                    ==> x_dist(geom[b], column) <= x_dist(geom[j], column) && (j < b ==> x_dist(
                    geom[b],
                    column,
                ) < x_dist(geom[j], column))
        },
    decreases n,
{
    let ok = on_other_side(geom, cur, up);
    let beats = better_target(geom, cur, column);
    lemma_scan_range(n, ok, beats);
    if n > 0 {
        let m = (n - 1) as nat;
        let i = n - 1;
        lemma_scan_range(m, ok, beats);
        lemma_nearest_row(geom, cur, column, up, m);
        if let Some(b) = scan_pick(n, ok, beats) {
            assert forall|j: int| 0 <= j < n && #[trigger] ok(j) implies rise(geom, b, cur) <= rise(
                geom,
                j,
                cur,
            ) + 32 && (rise(geom, b, j) < 32 ==> x_dist(geom[b], column) <= x_dist(
                geom[j],
                column,
            ) && (j < b ==> x_dist(geom[b], column) < x_dist(geom[j], column))) by {
                if let Some(a) = scan_pick(m, ok, beats) {
                    assert(ok(a));
                    if ok(i) {
                        assert(beats(i, a) == (rise(geom, i, cur) < rise(geom, a, cur) - 32 || (rise(
                            geom,
                            i,
                            a,
                        ) < 32 && x_dist(geom[i], column) < x_dist(geom[a], column))));
                        assert(rise(geom, a, i) != 32);
                    }
                    assert(rise(geom, a, i) == rise(geom, i, a) && rise(geom, a, j) == rise(
                        geom,
                        j,
                        a,
                    ) && rise(geom, i, j) == rise(geom, j, i));
                    if j < m {
                        assert(rise(geom, a, cur) <= rise(geom, j, cur) + 32);
                        assert(rise(geom, a, j) != 32);
                        assert(rise(geom, i, a) < 32 && rise(geom, a, j) < 32 ==> rise(geom, i, j)
                            < 32);
                        assert(rise(geom, a, i) < 32 && rise(geom, i, j) < 32 ==> rise(geom, a, j)
                            < 32);
                        if rise(geom, a, j) < 32 {
                            assert(x_dist(geom[a], column) <= x_dist(geom[j], column));
                        }
                    }
                }
            }
        }
    }
}

/// Whatever the lines are, the scan never strays from the nearest line by more
/// than half a pixel for each line it has seen.
proof fn lemma_nearest_line_but_for_ties(
    geom: Seq<LineGeom>,
    cur: int,
    column: int,
    up: bool,
    n: nat,
)
    requires
        0 <= cur < geom.len(),
        n <= geom.len(),
    ensures
        scan_pick(n, on_other_side(geom, cur, up), better_target(geom, cur, column)) matches Some(
            b,
        ) ==> 0 <= b < n && forall|j: int|
            0 <= j < n && #[trigger] on_other_side(geom, cur, up)(j) ==> rise(geom, b, cur)
                <= rise(geom, j, cur) + 32 * n,
    decreases n,
{
    let ok = on_other_side(geom, cur, up);
    let beats = better_target(geom, cur, column);
    lemma_scan_range(n, ok, beats);
    if n > 0 {
        let m = (n - 1) as nat;
        lemma_scan_range(m, ok, beats);
        lemma_nearest_line_but_for_ties(geom, cur, column, up, m);
    }
}

/// Up and Down take the caret to the nearest row on that side, as far as there
/// is one: the target line stands more than half a pixel above (below) the
/// caret's line, no line on that side is nearer to the caret's line by more than
/// half a pixel, and no line at the target's height lies nearer to the column, nor
/// an earlier one as near.
pub proof fn law_vertical_motion_takes_the_nearest_row(
    geom: Seq<LineGeom>,
    caret: Pos,
    column: i32,
    up: bool,
    cur: int,
    some: int,
)
    requires
        line_of(geom, caret) == Some(cur),
        in_rows(geom),
        0 <= some < geom.len(),
        if up {
            geom[some].y_top + 32 < geom[cur].y_top
        } else {
            geom[some].y_top > geom[cur].y_top + 32
        },
    ensures
        vertical_line(geom, caret, column, up) matches Some(i) && {
            &&& 0 <= i < geom.len()
            &&& vertical_target(geom, caret, column, up).path == geom[i].path@
            &&& up ==> geom[i].y_top + 32 < geom[cur].y_top && forall|j: int|
                0 <= j < geom.len() && (#[trigger] geom[j]).y_top + 32 < geom[cur].y_top
                    ==> geom[j].y_top <= geom[i].y_top + 32
            &&& !up ==> geom[i].y_top > geom[cur].y_top + 32 && forall|j: int|
                0 <= j < geom.len() && (#[trigger] geom[j]).y_top > geom[cur].y_top + 32
                    ==> geom[i].y_top <= geom[j].y_top + 32
            &&& forall|j: int|
                0 <= j < geom.len() && (#[trigger] geom[j]).y_top == geom[i].y_top ==> x_dist(
                    geom[i],
                    column as int,
                ) <= x_dist(geom[j], column as int) && (j < i ==> x_dist(geom[i], column as int)
                    < x_dist(geom[j], column as int))
        },
{
    let ok = on_other_side(geom, cur, up);
    lemma_scan_range(geom.len(), holding(geom, caret), never());
    lemma_nearest_row(geom, cur, column as int, up, geom.len());
    lemma_scan_range(geom.len(), ok, better_target(geom, cur, column as int));
    assert(ok(some));
    let i = vertical_line(geom, caret, column, up)->0;
    assert forall|j: int| 0 <= j < geom.len() && #[trigger] ok(j) implies rise(geom, i, cur)
        <= rise(geom, j, cur) + 32 by {}
    assert forall|j: int| 0 <= j < geom.len() && (#[trigger] geom[j]).y_top == geom[i].y_top implies
        x_dist(geom[i], column as int) <= x_dist(geom[j], column as int) && (j < i ==> x_dist(
        geom[i],
        column as int,
    ) < x_dist(geom[j], column as int)) by {
        assert(j != cur);
        assert(ok(j));
        assert(rise(geom, i, j) == 0);
    }
    if up {
        assert forall|j: int|
            0 <= j < geom.len() && (#[trigger] geom[j]).y_top + 32 < geom[cur].y_top implies
            geom[j].y_top <= geom[i].y_top + 32 by {
            assert(ok(j));
            assert(rise(geom, i, cur) <= rise(geom, j, cur) + 32);
        }
    } else {
        assert forall|j: int|
            0 <= j < geom.len() && (#[trigger] geom[j]).y_top > geom[cur].y_top + 32 implies
            geom[i].y_top <= geom[j].y_top + 32 by {
            assert(ok(j));
            assert(rise(geom, i, cur) <= rise(geom, j, cur) + 32);
        }
    }
}

/// However the lines stand, the line that vertical motion takes is the nearest
/// on its side but for ties, and each line can add less than half a pixel to
/// what counts as a tie.
pub proof fn law_vertical_motion_passes_over_no_line(
    geom: Seq<LineGeom>,
    caret: Pos,
    column: i32,
    up: bool,
    cur: int,
    j: int,
)
    requires
        line_of(geom, caret) == Some(cur),
        0 <= j < geom.len(),
        if up {
            geom[j].y_top + 32 < geom[cur].y_top
        } else {
            geom[j].y_top > geom[cur].y_top + 32
        },
    ensures
        vertical_line(geom, caret, column, up) matches Some(i) && {
            &&& 0 <= i < geom.len()
            &&& up ==> geom[j].y_top <= geom[i].y_top + 32 * geom.len()
            &&& !up ==> geom[i].y_top <= geom[j].y_top + 32 * geom.len()
        },
{
    let ok = on_other_side(geom, cur, up);
    lemma_scan_range(geom.len(), holding(geom, caret), never());
    lemma_nearest_line_but_for_ties(geom, cur, column as int, up, geom.len());
    lemma_scan_range(geom.len(), ok, better_target(geom, cur, column as int));
    assert(ok(j));
}

/// Vertical motion puts the caret on a slot of the target line, and on none
/// that is farther from the column than another; on the line's start where it
/// has no slot.
pub proof fn law_vertical_motion_keeps_to_the_column(
    geom: Seq<LineGeom>,
    caret: Pos,
    column: i32,
    up: bool,
)
    ensures
        match vertical_line(geom, caret, column, up) {
            Some(i) => {
                let target = vertical_target(geom, caret, column, up);
                let slots = geom[i].slots@;
                if slots.len() == 0 {
                    target.offset == geom[i].start_byte
                } else {
                    exists|k: int|
                        0 <= k < slots.len() && (#[trigger] slots[k]).byte == target.offset
                            && forall|m: int|
                            0 <= m < slots.len() ==> gap(slots[k].x as int, column as int) <= gap(
                                (#[trigger] slots[m]).x as int,
                                column as int,
                            )
                }
            },
            None => vertical_target(geom, caret, column, up) == caret,
        },
{
    if let Some(i) = vertical_line(geom, caret, column, up) {
        let slots = geom[i].slots@;
        if slots.len() > 0 {
            law_hit_picks_nearest_slot(slots, column as int);
            lemma_scan_range(slots.len(), any_index(), nearer_slot(slots, column as int));
            assert(any_index()(0));
        }
    }
}

/// From a table's edge row, vertical motion leaves the table for the nearest
/// body line before it (going up) or after it (going down): no body line on that
/// side of the table stands lower (higher).
pub proof fn law_vertical_motion_leaves_a_table(
    geom: Seq<LineGeom>,
    caret: Pos,
    column: i32,
    up: bool,
    cur: int,
    table: u32,
    row: u32,
    col: u32,
    i: int,
)
    requires
        line_of(geom, caret) == Some(cur),
        geom[cur].path@.len() >= 2,
        geom[cur].path@[0] == (PathStep::Block { idx: table }),
        geom[cur].path@[1] == (PathStep::Cell { row, col }),
        forall|j: int|
            0 <= j < geom.len() ==> if up {
                geom[cur].y_top <= (#[trigger] geom[j]).y_top + 32
            } else {
                (#[trigger] geom[j]).y_top <= geom[cur].y_top + 32
            },
        vertical_line(geom, caret, column, up) == Some(i),
    ensures
        0 <= i < geom.len(),
        geom[i].path@.len() >= 1,
        geom[i].path@[0] matches PathStep::Block { idx } && if up {
            idx < table
        } else {
            idx > table
        },
        forall|j: int|
            0 <= j < geom.len() && (#[trigger] geom[j]).path@.len() == 1 && geom[j].path@[0] is Block
                ==> if up {
                geom[j].path@[0]->idx < table ==> geom[j].y_top <= geom[i].y_top
            } else {
                geom[j].path@[0]->idx > table ==> geom[i].y_top <= geom[j].y_top
            },
{
    let ok = on_other_side(geom, cur, up);
    lemma_scan_range(geom.len(), ok, better_target(geom, cur, column as int));
    let beyond = body_beyond(geom, table, up);
    let key = |k: int|
        if up {
            -geom[k].y_top
        } else {
            geom[k].y_top as int
        };
    lemma_scan_first_least(geom.len(), beyond, nearer_edge(geom, up), key);
    assert forall|j: int|
        0 <= j < geom.len() && (#[trigger] geom[j]).path@.len() == 1 && geom[j].path@[0] is Block implies if up {
        geom[j].path@[0]->idx < table ==> geom[j].y_top <= geom[i].y_top
    } else {
        geom[j].path@[0]->idx > table ==> geom[i].y_top <= geom[j].y_top
    } by {
        let idx = geom[j].path@[0]->idx;
        if (up && idx < table) || (!up && idx > table) {
            assert(beyond(j));
            assert(key(i) <= key(j));
        }
    }
}

/// On a laid-out line an arrow key goes to the slot that stands next to the
/// caret's on that side, more than half a pixel away; no slot of the line stands
/// between the two.
pub proof fn law_arrow_goes_to_the_next_slot(
    blocks: Seq<Block>,
    geom: Seq<LineGeom>,
    base: Option<Direction>,
    caret: Pos,
    right: bool,
    i: int,
    from: int,
    some: int,
)
    requires
        line_of(geom, caret) == Some(i),
        0 <= from < geom[i].slots@.len(),
        geom[i].slots@[from].byte == caret.offset,
        forall|m: int|
            0 <= m < geom[i].slots@.len() && (#[trigger] geom[i].slots@[m]).byte == caret.offset
                ==> m == from,
        0 <= some < geom[i].slots@.len(),
        if right {
            geom[i].slots@[some].x > geom[i].slots@[from].x + 32
        } else {
            geom[i].slots@[some].x < geom[i].slots@[from].x - 32
        },
    ensures
        arrow_target(blocks, Some(geom), base, caret, right).path == caret.path,
        exists|k: int|
            {
                let x = geom[i].slots@[from].x;
                &&& 0 <= k < geom[i].slots@.len()
                &&& (#[trigger] geom[i].slots@[k]).byte == arrow_target(
                    blocks,
                    Some(geom),
                    base,
                    caret,
                    right,
                ).offset
                &&& right ==> geom[i].slots@[k].x > x + 32 && forall|m: int|
                    0 <= m < geom[i].slots@.len() && (#[trigger] geom[i].slots@[m]).x > x + 32
                        ==> geom[i].slots@[k].x <= geom[i].slots@[m].x
                &&& !right ==> geom[i].slots@[k].x < x - 32 && forall|m: int|
                    0 <= m < geom[i].slots@.len() && (#[trigger] geom[i].slots@[m]).x < x - 32
                        ==> geom[i].slots@[m].x <= geom[i].slots@[k].x
            },
{
    let slots = geom[i].slots@;
    let at = caret.offset as int;
    let key = |k: int| gap(slots[k].byte as int, at);
    lemma_scan_first_least(slots.len(), any_index(), nearer_byte(slots, at), key);
    assert(any_index()(from));
    let b = scan_pick(slots.len(), any_index(), nearer_byte(slots, at))->0;
    assert(key(b) <= key(from));
    assert(slots[b].byte == caret.offset);
    law_visual_step_is_next(slots, slots[from].x as int, right);
    let k = scan_pick(
        slots.len(),
        beyond(slots, slots[from].x as int, right),
        closer_beyond(slots, right),
    )->0;
    assert(slots[k].byte == arrow_target(blocks, Some(geom), base, caret, right).offset);
}

/// Without a slot to go to, an arrow key steps on in the text in the direction
/// that it shows: right steps on in text that runs from left to right, and back
/// in text that runs the other way. Jumps by word do the same.
pub proof fn law_arrows_follow_the_direction(
    blocks: Seq<Block>,
    base: Option<Direction>,
    caret: Pos,
)
    ensures
        direction_at(blocks, caret.path, base) == Direction::Ltr ==> {
            &&& arrow_target(blocks, None, base, caret, true) == right_of(blocks, caret)
            &&& arrow_target(blocks, None, base, caret, false) == left_of(blocks, caret)
            &&& word_target(blocks, caret, true, Direction::Ltr) == word_right_of(blocks, caret)
            &&& word_target(blocks, caret, false, Direction::Ltr) == word_left_of(blocks, caret)
        },
        direction_at(blocks, caret.path, base) == Direction::Rtl ==> {
            &&& arrow_target(blocks, None, base, caret, true) == left_of(blocks, caret)
            &&& arrow_target(blocks, None, base, caret, false) == right_of(blocks, caret)
            &&& word_target(blocks, caret, true, Direction::Rtl) == word_left_of(blocks, caret)
            &&& word_target(blocks, caret, false, Direction::Rtl) == word_right_of(blocks, caret)
        },
{
}

/// Text runs in the direction set on its paragraph, else in that of its own
/// letters, else in the document's, else from left to right.
pub proof fn law_direction_of_a_paragraph(
    blocks: Seq<Block>,
    path: Seq<PathStep>,
    base: Option<Direction>,
    p: crate::document::Paragraph,
)
    requires
        para_at(blocks, path) == Some(p),
    ensures
        p.props.direction is Some ==> direction_at(blocks, path, base) == p.props.direction->0,
        p.props.direction is None && p.auto_direction is Some ==> direction_at(blocks, path, base)
            == p.auto_direction->0,
        p.props.direction is None && p.auto_direction is None && base is Some ==> direction_at(
            blocks,
            path,
            base,
        ) == base->0,
        p.props.direction is None && p.auto_direction is None && base is None ==> direction_at(
            blocks,
            path,
            base,
        ) == Direction::Ltr,
{
}

/// Home and End take the caret to the first and to the last byte of its line;
/// without such a line they leave it.
pub proof fn law_home_and_end_of_a_line(geom: Seq<LineGeom>, caret: Pos)
    ensures
        line_of(geom, caret) matches Some(i) ==> {
            &&& line_edge(Some(geom), caret, true).path == caret.path
            &&& line_edge(Some(geom), caret, true).offset == geom[i].start_byte
            &&& line_edge(Some(geom), caret, false).path == caret.path
            &&& line_edge(Some(geom), caret, false).offset == geom[i].end_byte
        },
        line_of(geom, caret) is None ==> line_edge(Some(geom), caret, true) == caret && line_edge(
            Some(geom),
            caret,
            false,
        ) == caret,
        line_edge(None, caret, true) == caret && line_edge(None, caret, false) == caret,
{
}

/// The first step of a vertical walk takes its column from where the caret
/// stands on its line; the steps after it keep that column.
pub proof fn law_column_of_a_walk(geom: Seq<LineGeom>, sel: Sel, i: int)
    requires
        line_of(geom, sel.caret) == Some(i),
    ensures
        sel.ideal_x matches Some(x) ==> walk_column(geom, sel) == x,
        sel.ideal_x is None && geom[i].slots@.len() == 0 ==> walk_column(geom, sel)
            == geom[i].start_x,
        sel.ideal_x is None && geom[i].slots@.len() > 0 ==> exists|k: int|
            0 <= k < geom[i].slots@.len() && (#[trigger] geom[i].slots@[k]).x == walk_column(
                geom,
                sel,
            ) && forall|m: int|
                0 <= m < geom[i].slots@.len() ==> gap(
                    geom[i].slots@[k].byte as int,
                    sel.caret.offset as int,
                ) <= gap((#[trigger] geom[i].slots@[m]).byte as int, sel.caret.offset as int),
{
    let slots = geom[i].slots@;
    let at = sel.caret.offset as int;
    if slots.len() > 0 {
        let key = |k: int| gap(slots[k].byte as int, at);
        lemma_scan_first_least(slots.len(), any_index(), nearer_byte(slots, at), key);
        assert(any_index()(0));
        let b = scan_pick(slots.len(), any_index(), nearer_byte(slots, at))->0;
        assert forall|m: int| 0 <= m < slots.len() implies gap(slots[b].byte as int, at) <= gap(
            (#[trigger] slots[m]).byte as int,
            at,
        ) by {
            assert(any_index()(m));
            assert(key(b) <= key(m));
        }
        if sel.ideal_x is None {
            assert(slots[b].x == walk_column(geom, sel));
        }
    }
}

/// What each motion does: the arrows and word jumps step, Home and End go to
/// the edges of the line, with the control key to those of the document, Tab to
/// the next cell and Shift+Tab to the one before. Only vertical motion needs a
/// layout, and is refused without one.
pub proof fn law_motions_do_what_they_say(
    blocks: Seq<Block>,
    geom: Option<Seq<LineGeom>>,
    base: Option<Direction>,
    sel: Sel,
)
    ensures
        ({
            let here = sel.caret;
            let dir = direction_at(blocks, here.path, base);
            &&& planned(blocks, geom, base, sel, MoveDirection::Left) == Some(
                Goal::Place { caret: arrow_target(blocks, geom, base, here, false), ideal_x: None },
            )
            &&& planned(blocks, geom, base, sel, MoveDirection::Right) == Some(
                Goal::Place { caret: arrow_target(blocks, geom, base, here, true), ideal_x: None },
            )
            &&& planned(blocks, geom, base, sel, MoveDirection::WordLeft) == Some(
                Goal::Place { caret: word_target(blocks, here, false, dir), ideal_x: None },
            )
            &&& planned(blocks, geom, base, sel, MoveDirection::WordRight) == Some(
                Goal::Place { caret: word_target(blocks, here, true, dir), ideal_x: None },
            )
            &&& planned(blocks, geom, base, sel, MoveDirection::LineHome) == Some(
                Goal::Place { caret: line_edge(geom, here, true), ideal_x: None },
            )
            &&& planned(blocks, geom, base, sel, MoveDirection::LineEnd) == Some(
                Goal::Place { caret: line_edge(geom, here, false), ideal_x: None },
            )
            &&& planned(blocks, geom, base, sel, MoveDirection::DocHome) == Some(
                Goal::Place { caret: top_pos(0, 0), ideal_x: None },
            )
            &&& planned(blocks, geom, base, sel, MoveDirection::DocEnd) == Some(
                Goal::Place { caret: doc_end(blocks), ideal_x: None },
            )
            &&& planned(blocks, geom, base, sel, MoveDirection::Up) is None <==> geom is None
            &&& planned(blocks, geom, base, sel, MoveDirection::Down) is None <==> geom is None
            &&& geom matches Some(g) ==> {
                &&& planned(blocks, geom, base, sel, MoveDirection::Up) matches Some(
                    Goal::Place { caret, .. },
                ) && caret == vertical_target(g, here, walk_column(g, sel), true)
                &&& planned(blocks, geom, base, sel, MoveDirection::Down) matches Some(
                    Goal::Place { caret, .. },
                ) && caret == vertical_target(g, here, walk_column(g, sel), false)
            }
        }),
{
}

/// Tab and Shift+Tab go where the cells lie, and stay outside tables.
pub proof fn law_tab_keys(
    blocks: Seq<Block>,
    geom: Option<Seq<LineGeom>>,
    base: Option<Direction>,
    sel: Sel,
)
    ensures
        planned(blocks, geom, base, sel, MoveDirection::NextCell) == Some(
            match tab_goal(blocks, sel.caret, true) {
                TabGoal::Stay => Goal::Place { caret: sel.caret, ideal_x: None },
                TabGoal::Cell { table, row, col } => Goal::Cell { table, row, col },
                TabGoal::NewRow { table, at } => Goal::NewRow { table, at },
            },
        ),
        planned(blocks, geom, base, sel, MoveDirection::PrevCell) == Some(
            match tab_goal(blocks, sel.caret, false) {
                TabGoal::Stay => Goal::Place { caret: sel.caret, ideal_x: None },
                TabGoal::Cell { table, row, col } => Goal::Cell { table, row, col },
                TabGoal::NewRow { table, at } => Goal::NewRow { table, at },
            },
        ),
{
}

/// Going to a cell selects it whole, from the start of its first block to the
/// end of its last.
pub proof fn law_tab_selects_the_cell(
    blocks: Seq<Block>,
    table: Seq<PathStep>,
    t: Table,
    row: u32,
    col: u32,
)
    requires
        table_at(blocks, table) == Some(t),
        row < t.rows@.len(),
        col < t.rows@[row as int].cells@.len(),
        0 < t.rows@[row as int].cells@[col as int].blocks@.len() <= u32::MAX,
    ensures
        ({
            let (start, end) = cell_span(blocks, table, row, col);
            let last = t.rows@[row as int].cells@[col as int].blocks@.len() - 1;
            &&& start.path == table + seq![
                PathStep::Cell { row, col },
                PathStep::Block { idx: 0 },
            ]
            &&& start.offset == 0
            &&& end.path == table + seq![
                PathStep::Cell { row, col },
                PathStep::Block { idx: last as u32 },
            ]
            &&& end.offset == len_at(blocks, end.path)
        }),
{
    let (start, end) = cell_span(blocks, table, row, col);
    let last = t.rows@[row as int].cells@[col as int].blocks@.len() - 1;
    assert(start.path =~= table + seq![PathStep::Cell { row, col }, PathStep::Block { idx: 0 }]);
    assert(end.path =~= table + seq![
        PathStep::Cell { row, col },
        PathStep::Block { idx: last as u32 },
    ]);
}

/// A motion to the left leaves the caret on the leading side of a seam, one to
/// the right on the trailing side, and any other where it was.
pub proof fn law_side_of_a_seam(side: CaretAffinity, direction: MoveDirection)
    ensures
        direction == MoveDirection::Left || direction == MoveDirection::WordLeft ==> side_after(
            side,
            direction,
        ) == CaretAffinity::LeadingX,
        direction == MoveDirection::Right || direction == MoveDirection::WordRight ==> side_after(
            side,
            direction,
        ) == CaretAffinity::TrailingX,
        direction != MoveDirection::Left && direction != MoveDirection::WordLeft && direction
            != MoveDirection::Right && direction != MoveDirection::WordRight ==> side_after(
            side,
            direction,
        ) == side,
{
}

/// Where the caret is on no line, Up goes to the last line and Down to the
/// first.
pub proof fn law_vertical_motion_without_a_line(geom: Seq<LineGeom>, caret: Pos, column: i32)
    requires
        line_of(geom, caret) is None,
        geom.len() > 0,
    ensures
        vertical_target(geom, caret, column, true).path == geom[geom.len() - 1].path@,
        vertical_target(geom, caret, column, false).path == geom[0].path@,
{
}

/// Shift+Tab goes to the cell before; from the first cell of a row it goes to the
/// last cell that the row above has, however many that are.
pub proof fn law_shift_tab_goes_to_the_row_above(
    blocks: Seq<Block>,
    table: Seq<PathStep>,
    t: Table,
    row: u32,
    col: u32,
    some: int,
)
    requires
        table_at(blocks, table) == Some(t),
        0 < t.rows@.len() <= u32::MAX,
        row < t.rows@.len(),
        0 <= some < t.rows@.len(),
        0 < t.rows@[some].cells@.len(),
        forall|i: int|
            0 <= i < t.rows@.len() ==> (#[trigger] t.rows@[i]).cells@.len() <= u32::MAX,
    ensures
        col > 0 ==> tab_goal(blocks, cell_start(table, row, col), false) == (TabGoal::Cell {
            table,
            row,
            col: (col - 1) as u32,
        }),
        col == 0 && row > 0 && t.rows@[row - 1].cells@.len() > 0 ==> tab_goal(
            blocks,
            cell_start(table, row, col),
            false,
        ) == (TabGoal::Cell {
            table,
            row: (row - 1) as u32,
            col: (t.rows@[row - 1].cells@.len() - 1) as u32,
        }),
        col == 0 && row == 0 ==> tab_goal(blocks, cell_start(table, row, col), false) is Stay,
{
    lemma_cell_start(table, row, col);
    lemma_widest_covers(t, t.rows@.len(), some);
}

proof fn lemma_widest_covers(t: Table, n: nat, some: int)
    requires
        0 <= some < n <= t.rows@.len(),
        forall|i: int|
            0 <= i < t.rows@.len() ==> (#[trigger] t.rows@[i]).cells@.len() <= u32::MAX,
    ensures
        t.rows@[some].cells@.len() <= widest(t, n) <= u32::MAX,
    decreases n,
{
    assert(t.rows@[n - 1].cells@.len() <= u32::MAX);
    if some < n - 1 {
        lemma_widest_covers(t, (n - 1) as nat, some);
    } else {
        if n > 1 {
            lemma_widest_covers(t, (n - 1) as nat, 0);
        }
    }
}

/// An arrow to the right leaves the caret on the trailing side of a seam, one to
/// the left on the leading side.
pub proof fn law_arrows_choose_a_side()
    ensures
        arrow_side(true) == CaretAffinity::TrailingX,
        arrow_side(false) == CaretAffinity::LeadingX,
{
}

} // verus!
