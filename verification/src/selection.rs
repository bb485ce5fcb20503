//! Table addresses inside paths, and what two selection ends select.

use crate::common::{
    alternates, is_prefix, BlockPath, Kind, LogicalPos, PathStep, Pos, SelectionKind,
};
use vstd::prelude::*;

verus! {

/// The cell of table `table` that `path` descends into.
pub open spec fn cell_in(path: Seq<PathStep>, table: Seq<PathStep>) -> Option<(u32, u32)> {
    if is_prefix(table, path) && path.len() > table.len() {
        match path[table.len() as int] {
            PathStep::Cell { row, col } => Some((row, col)),
            PathStep::Block { .. } => None,
        }
    } else {
        None
    }
}

/// The cell `(row, col)` of `path` inside the table at `table_path`; `None`
/// when `path` does not descend into a cell of that table.
pub fn cell_of(path: &BlockPath, table_path: &BlockPath) -> (r: Option<(u32, u32)>)
    ensures
        r == cell_in(path@, table_path@),
{
    if !table_path.is_ancestor_of(path) || path.steps.len() <= table_path.steps.len() {
        return None;
    }
    match path.steps[table_path.steps.len()] {
        PathStep::Cell { row, col } => Some((row, col)),
        PathStep::Block { .. } => None,
    }
}

/// The path of the innermost table around `path`: what comes before the last
/// cell step that a block step follows.
pub open spec fn table_around(path: Seq<PathStep>) -> Option<Seq<PathStep>>
    decreases path.len(),
{
    if path.len() < 2 {
        None
    } else if path.last() is Block && path[path.len() - 2] is Cell {
        Some(path.take(path.len() - 2))
    } else {
        table_around(path.drop_last())
    }
}

/// The path of the innermost table that contains a paragraph path; `None`
/// outside any table.
pub fn enclosing_table_path(path: &BlockPath) -> (r: Option<BlockPath>)
    ensures
        match r {
            Some(t) => table_around(path@) == Some(t@),
            None => table_around(path@) is None,
        },
{
    let mut steps = crate::common::clone_steps(&path.steps);
    while steps.len() > 0
        invariant
            table_around(path@) == table_around(steps@),
        decreases steps.len(),
    {
        let n: usize = steps.len();
        if n >= 2 {
            if let (PathStep::Block { .. }, PathStep::Cell { .. }) = (steps[n - 1], steps[n - 2]) {
                steps.truncate(n - 2);
                return Some(BlockPath { steps });
            }
        }
        let _ = steps.pop();
    }
    None
}

/// What a selection with these ends covers: a rectangle of cells when both
/// ends lie in different cells of one table, else a run of text.
pub open spec fn kind_between(a: Pos, b: Pos) -> Kind {
    match (table_around(a.path), table_around(b.path)) {
        (Some(ta), Some(tb)) => if ta == tb {
            match (cell_in(a.path, ta), cell_in(b.path, ta)) {
                (Some((ar, ac)), Some((br, bc))) => if ar == br && ac == bc {
                    Kind::Linear
                } else {
                    Kind::Cells {
                        table: ta,
                        from_row: if ar <= br {
                            ar
                        } else {
                            br
                        },
                        from_col: if ac <= bc {
                            ac
                        } else {
                            bc
                        },
                        to_row: if ar <= br {
                            br
                        } else {
                            ar
                        },
                        to_col: if ac <= bc {
                            bc
                        } else {
                            ac
                        },
                    }
                },
                _ => Kind::Linear,
            }
        } else {
            Kind::Linear
        },
        _ => Kind::Linear,
    }
}

fn sorted_pair(a: u32, b: u32) -> (r: (u32, u32))
    ensures
        a <= b ==> r == (a, b),
        a > b ==> r == (b, a),
{
    if a <= b {
        (a, b)
    } else {
        (b, a)
    }
}

/// The selection kind that the two ends ask for.
pub fn derive_selection_kind(anchor: &LogicalPos, caret: &LogicalPos) -> (r: SelectionKind)
    ensures
        r@ == kind_between(anchor@, caret@),
{
    match (enclosing_table_path(&anchor.path), enclosing_table_path(&caret.path)) {
        (Some(table_a), Some(table_b)) => {
            if !table_a.same(&table_b) {
                return SelectionKind::Linear;
            }
            match (cell_of(&anchor.path, &table_a), cell_of(&caret.path, &table_b)) {
                (Some((ar, ac)), Some((br, bc))) => {
                    if ar == br && ac == bc {
                        return SelectionKind::Linear;
                    }
                    let (from_row, to_row) = sorted_pair(ar, br);
                    let (from_col, to_col) = sorted_pair(ac, bc);
                    SelectionKind::TableCells { table_path: table_a, from_row, from_col, to_row, to_col }
                },
                _ => SelectionKind::Linear,
            }
        },
        _ => SelectionKind::Linear,
    }
}

/// The selection kind does not depend on which end is the anchor.
pub proof fn law_kind_symmetric(a: Pos, b: Pos)
    ensures
        kind_between(a, b) == kind_between(b, a),
{
}

/// A selected rectangle of cells is not empty and has both ends inside.
pub proof fn law_kind_holds_both_ends(a: Pos, b: Pos)
    ensures
        kind_between(a, b) matches Kind::Cells { table, from_row, from_col, to_row, to_col } ==> {
            &&& from_row <= to_row
            &&& from_col <= to_col
            &&& (from_row, from_col) != (to_row, to_col)
            &&& cell_in(a.path, table) matches Some((r, c)) && from_row <= r <= to_row && from_col
                <= c <= to_col
            &&& cell_in(b.path, table) matches Some((r, c)) && from_row <= r <= to_row && from_col
                <= c <= to_col
        },
{
}

/// Two positions in one paragraph select text, never cells.
pub proof fn law_same_paragraph_is_linear(path: Seq<PathStep>, x: u32, y: u32)
    ensures
        kind_between(Pos { path, offset: x }, Pos { path, offset: y }) is Linear,
{
}

/// The table around a path is an ancestor of it, and the path descends into
/// one of its cells.
pub proof fn law_table_around(path: Seq<PathStep>)
    requires
        table_around(path) is Some,
    ensures
        is_prefix(table_around(path)->0, path),
        cell_in(path, table_around(path)->0) is Some,
    decreases path.len(),
{
    let t = table_around(path)->0;
    if path.last() is Block && path[path.len() - 2] is Cell {
        assert(t == path.take(t.len() as int));
    } else {
        law_table_around(path.drop_last());
        let q = path.drop_last();
        assert(q.take(t.len() as int) =~= path.take(t.len() as int));
        assert(q[t.len() as int] == path[t.len() as int]);
    }
}

/// A paragraph path with block and cell steps in the usual places lies in a
/// table exactly when it has more than one step.
pub proof fn law_table_around_exists(path: Seq<PathStep>)
    requires
        alternates(path),
        path.len() % 2 == 1,
    ensures
        table_around(path) is Some <==> path.len() >= 3,
        path.len() >= 3 ==> table_around(path) == Some(path.take(path.len() - 2)),
{
}

/// Two ends in different cells of one table select the smallest rectangle of
/// cells that holds both.
pub proof fn law_cells_between_two_cells(
    table: Seq<PathStep>,
    a: (u32, u32),
    b: (u32, u32),
    x: Pos,
    y: Pos,
    i: u32,
    j: u32,
)
    requires
        x.path == table + seq![PathStep::Cell { row: a.0, col: a.1 }, PathStep::Block { idx: i }],
        y.path == table + seq![PathStep::Cell { row: b.0, col: b.1 }, PathStep::Block { idx: j }],
    ensures
        a == b ==> kind_between(x, y) is Linear,
        a != b ==> (kind_between(x, y) matches Kind::Cells {
            table: t,
            from_row,
            from_col,
            to_row,
            to_col,
        } && {
            &&& t == table
            &&& from_row <= a.0 && from_row <= b.0 && (from_row == a.0 || from_row == b.0)
            &&& from_col <= a.1 && from_col <= b.1 && (from_col == a.1 || from_col == b.1)
            &&& to_row >= a.0 && to_row >= b.0 && (to_row == a.0 || to_row == b.0)
            &&& to_col >= a.1 && to_col >= b.1 && (to_col == a.1 || to_col == b.1)
        }),
{
    assert(x.path.take(x.path.len() - 2) =~= table);
    assert(y.path.take(y.path.len() - 2) =~= table);
    assert(x.path.take(table.len() as int) =~= table);
    assert(y.path.take(table.len() as int) =~= table);
}

} // verus!
