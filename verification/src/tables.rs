//! Table layout: column widths, row heights, vertical merges and the place of
//! each cell's content.
//!
//! Lengths are in layout units. What a cell's text needs, its natural width
//! and its height at a given width, comes from outside.

use crate::boxes::{clamp32, clamped};
use crate::document::VMergeRole;
use vstd::prelude::*;

verus! {

/// Twips in one pixel.
pub const TWIPS_PER_PX: i64 = 15;

/// The width, in points, that no column's natural width falls below.
pub const MIN_COLUMN_PT: i64 = 30;

/// Where a cell's content stands when the cell is taller than it.
#[derive(Debug, Clone, Copy, PartialEq, Eq, Structural)]
pub enum VerticalAlign {
    Top,
    Center,
    Bottom,
}

/// A row's height in twips.
#[derive(Debug, Clone, Copy, PartialEq, Eq, Structural)]
pub enum RowHeight {
    Auto,
    AtLeast { twips: i32 },
    Exact { twips: i32 },
}

/// The margins of a cell's content, in twips or in layout units.
#[derive(Debug, Clone, Copy, PartialEq, Eq, Structural)]
pub struct Edges {
    pub top: i32,
    pub right: i32,
    pub bottom: i32,
    pub left: i32,
}

/// What the layout of a cell depends on besides its content.
#[derive(Debug, Clone, Copy, PartialEq, Eq, Structural)]
pub struct CellSpec {
    pub grid_span: u16,
    pub v_merge: VMergeRole,
    pub v_align: VerticalAlign,
    pub margins: Edges,
}

/// What the layout of a row depends on.
#[derive(Debug, PartialEq, Eq)]
pub struct RowSpec {
    pub cells: Vec<CellSpec>,
    pub height: RowHeight,
    pub header: bool,
    pub cant_split: bool,
}

/// What the layout of a table depends on: the column widths set in the
/// document in twips, if any, whether columns adjust to their content, and the
/// rows.
#[derive(Debug, PartialEq, Eq)]
pub struct TableSpec {
    pub grid: Vec<i32>,
    pub autofit: bool,
    pub rows: Vec<RowSpec>,
}

/// A cell's place in its row, the columns it spans, its part in a vertical
/// merge, the room round its content in layout units, and how far the content is
/// moved down.
#[derive(Debug, Clone, Copy, PartialEq, Eq, Structural)]
pub struct CellFrame {
    pub x: i128,
    pub width: i128,
    pub height: i128,
    pub grid_span: u16,
    pub v_merge: VMergeRole,
    pub padding: Edges,
    pub content_shift: i128,
}

/// Margins in layout units.
pub open spec fn edge_units(e: Edges, unit: u32) -> Edges {
    Edges {
        top: units(e.top, unit),
        right: units(e.right, unit),
        bottom: units(e.bottom, unit),
        left: units(e.left, unit),
    }
}

/// A row's place in its table. A header row comes again on each page, and one
/// that cannot be split stays on one page.
#[derive(Debug, PartialEq, Eq)]
pub struct RowFrame {
    pub y: i128,
    pub width: i128,
    pub height: i128,
    pub cells: Vec<CellFrame>,
    pub header: bool,
    pub cant_split: bool,
}

/// What a row's place says.
pub ghost struct RowPlace {
    pub y: int,
    pub width: int,
    pub height: int,
    pub cells: Seq<CellFrame>,
    pub header: bool,
    pub cant_split: bool,
}

impl View for RowFrame {
    type V = RowPlace;

    open spec fn view(&self) -> RowPlace {
        RowPlace {
            y: self.y as int,
            width: self.width as int,
            height: self.height as int,
            cells: self.cells@,
            header: self.header,
            cant_split: self.cant_split,
        }
    }
}

pub open spec fn most(a: int, b: int) -> int {
    if a >= b {
        a
    } else {
        b
    }
}

fn most_of(a: i128, b: i128) -> (r: i128)
    ensures
        r == most(a as int, b as int),
{
    if a >= b {
        a
    } else {
        b
    }
}

/// A quotient rounded down.
pub(crate) fn div_down(a: i128, b: i128) -> (r: i128)
    requires
        b > 0,
        a > i128::MIN,
        -a + b - 1 <= i128::MAX,
    ensures
        r == a as int / b as int,
{
    if a >= 0 {
        a / b
    } else {
        let n: i128 = (b - 1) - a;
        let q: i128 = n / b;
        assert(-(n as int / b as int) == a as int / b as int) by (nonlinear_arith)
            requires
                b > 0,
                a < 0,
                n == -a + b - 1,
        ;
        assert(q <= n) by (nonlinear_arith)
            requires
                n >= 0,
                b > 0,
                q == n / b,
        ;
        -q
    }
}

/// A length in twips at `unit` layout units to a pixel, rounded down.
pub open spec fn units(twips: i32, unit: u32) -> i32 {
    clamped((twips * unit) / TWIPS_PER_PX as int)
}

/// A length in twips at `unit` layout units to a pixel, rounded down.
pub fn twips_to_units(twips: i32, unit: u32) -> (r: i32)
    ensures
        r == units(twips, unit),
{
    assert(-0x8000_0000 * 0xFFFF_FFFF <= twips * unit <= 0x7FFF_FFFF * 0xFFFF_FFFF)
        by (nonlinear_arith)
        requires
            -0x8000_0000 <= twips <= 0x7FFF_FFFF,
            0 <= unit <= 0xFFFF_FFFF,
    ;
    let v: i128 = div_down(twips as i128 * unit as i128, TWIPS_PER_PX as i128);
    clamp32(v)
}

/// The number of columns that a cell covers.
pub open spec fn span_of(cell: CellSpec) -> nat {
    if cell.grid_span == 0 {
        1
    } else {
        cell.grid_span as nat
    }
}

fn span_count(cell: &CellSpec) -> (r: u128)
    ensures
        r == span_of(*cell),
        1 <= r <= 0xFFFF,
{
    if cell.grid_span == 0 {
        1
    } else {
        cell.grid_span as u128
    }
}

/// The column at which cell `n` of a row starts, or the number of columns of
/// the row when it has `n` cells.
pub open spec fn column_start(cells: Seq<CellSpec>, n: nat) -> nat
    decreases n,
{
    if n == 0 {
        0
    } else {
        column_start(cells, (n - 1) as nat) + span_of(cells[n - 1])
    }
}

proof fn lemma_column_start_bound(cells: Seq<CellSpec>, n: nat)
    ensures
        n <= column_start(cells, n) <= n * 0xFFFF,
    decreases n,
{
    if n > 0 {
        lemma_column_start_bound(cells, (n - 1) as nat);
    }
}

/// The columns of the widest of the first `n` rows.
pub open spec fn widest_row(rows: Seq<RowSpec>, n: nat) -> nat
    decreases n,
{
    if n == 0 {
        0
    } else {
        most(
            widest_row(rows, (n - 1) as nat) as int,
            column_start(rows[n - 1].cells@, rows[n - 1].cells@.len()) as int,
        ) as nat
    }
}

/// The number of columns of a table: those of its grid or of its widest row.
pub open spec fn columns_of(t: TableSpec) -> nat {
    most(t.grid@.len() as int, widest_row(t.rows@, t.rows@.len()) as int) as nat
}

/// The number of columns of a table.
pub fn column_count(t: &TableSpec) -> (r: u128)
    ensures
        r == columns_of(*t),
{
    let mut n: u128 = t.grid.len() as u128;
    let mut widest: u128 = 0;
    let mut i: usize = 0;
    while i < t.rows.len()
        invariant
            i <= t.rows@.len(),
            widest == widest_row(t.rows@, i as nat),
        decreases t.rows.len() - i,
    {
        let cells: &Vec<CellSpec> = &t.rows[i].cells;
        let mut sum: u128 = 0;
        let mut c: usize = 0;
        while c < cells.len()
            invariant
                c <= cells@.len(),
                sum == column_start(cells@, c as nat),
            decreases cells.len() - c,
        {
            proof {
                lemma_column_start_bound(cells@, c as nat);
            }
            sum += span_count(&cells[c]);
            c += 1;
        }
        if sum > widest {
            widest = sum;
        }
        i += 1;
    }
    if widest > n {
        n = widest;
    }
    n
}

/// The width at which cells are measured for their natural width.
pub open spec fn probe_width(available: i32, columns: nat, unit: u32) -> int {
    most(available as int / columns as int, MIN_COLUMN_PT * unit)
}

/// The width at which cells are measured for their natural width.
pub fn measure_width(available: i32, columns: u128, unit: u32) -> (r: i128)
    requires
        0 < columns <= 0xFFFF_FFFF_FFFF_FFFF_FFFF,
    ensures
        r == probe_width(available, columns as nat, unit),
{
    let share: i128 = div_down(available as i128, columns as i128);
    let floor: i128 = MIN_COLUMN_PT as i128 * unit as i128;
    most_of(share, floor)
}

/// What the content of a cell, with its margins, asks of each column that it
/// covers.
pub open spec fn share(cell: CellSpec, natural: i32, unit: u32) -> int {
    (natural + units(clamped(cell.margins.left + cell.margins.right), unit)) / span_of(cell) as int
}

/// What the first `n` cells of a row ask of column `col`. Cells covered by a
/// merge ask nothing.
pub open spec fn row_asks(
    cells: Seq<CellSpec>,
    natural: Seq<i32>,
    unit: u32,
    col: nat,
    n: nat,
) -> int
    decreases n,
{
    if n == 0 {
        MIN_COLUMN_PT * unit
    } else {
        let so_far = row_asks(cells, natural, unit, col, (n - 1) as nat);
        let start = column_start(cells, (n - 1) as nat);
        let cell = cells[n - 1];
        if cell.v_merge != VMergeRole::Continue && start <= col < start + span_of(cell) {
            most(so_far, share(cell, natural[n - 1], unit))
        } else {
            so_far
        }
    }
}

/// What the first `n` rows ask of column `col`.
pub open spec fn rows_ask(
    rows: Seq<RowSpec>,
    natural: Seq<Vec<i32>>,
    unit: u32,
    col: nat,
    n: nat,
) -> int
    decreases n,
{
    if n == 0 {
        MIN_COLUMN_PT * unit
    } else {
        most(
            rows_ask(rows, natural, unit, col, (n - 1) as nat),
            row_asks(rows[n - 1].cells@, natural[n - 1]@, unit, col, rows[n - 1].cells@.len()),
        )
    }
}

/// The natural width of column `col`: what its widest cell asks, and no less
/// than the width that the grid sets.
pub open spec fn column_asks(t: TableSpec, natural: Seq<Vec<i32>>, unit: u32, col: nat) -> int {
    let rows = rows_ask(t.rows@, natural, unit, col, t.rows@.len());
    if col < t.grid@.len() {
        most(rows, units(t.grid@[col as int], unit) as int)
    } else {
        rows
    }
}

/// The natural widths of the first `n` columns.
pub open spec fn all_asks(t: TableSpec, natural: Seq<Vec<i32>>, unit: u32, n: nat) -> Seq<int> {
    Seq::new(n, |i: int| column_asks(t, natural, unit, i as nat))
}

/// The sum of the first `n` of a list of lengths.
pub open spec fn total(s: Seq<int>, n: nat) -> int
    decreases n,
{
    if n == 0 {
        0
    } else {
        total(s, (n - 1) as nat) + s[n - 1]
    }
}

/// A width shared out in proportion to natural widths, each part rounded down.
/// Without natural widths all parts are equal.
pub open spec fn distributed(asks: Seq<int>, available: int) -> Seq<int> {
    let sum = total(asks, asks.len());
    Seq::new(
        asks.len(),
        |i: int|
            if sum <= 0 {
                available / asks.len() as int
            } else {
                (asks[i] * available) / sum
            },
    )
}

/// Widths of columns, none less than the width that the grid sets for it.
pub open spec fn floored(widths: Seq<int>, grid: Seq<i32>, unit: u32) -> Seq<int> {
    Seq::new(
        widths.len(),
        |i: int|
            if i < grid.len() {
                most(widths[i], units(grid[i], unit) as int)
            } else {
                widths[i]
            },
    )
}

/// The column widths of a table whose columns adjust to their content.
pub open spec fn fitted(t: TableSpec, available: int, unit: u32, natural: Seq<Vec<i32>>) -> Seq<
    int,
> {
    floored(
        distributed(all_asks(t, natural, unit, columns_of(t)), available),
        t.grid@,
        unit,
    )
}

/// There is a natural width for each cell.
pub open spec fn naturals_ok(t: TableSpec, natural: Seq<Vec<i32>>) -> bool {
    &&& natural.len() == t.rows@.len()
    &&& forall|i: int|
        0 <= i < natural.len() ==> (#[trigger] natural[i])@.len() == t.rows@[i].cells@.len()
}

/// A natural width never falls below the least, nor out of range.
proof fn lemma_row_asks_bounds(
    cells: Seq<CellSpec>,
    natural: Seq<i32>,
    unit: u32,
    col: nat,
    n: nat,
)
    ensures
        0 <= row_asks(cells, natural, unit, col, n) <= 0x1F_FFFF_FFFF,
    decreases n,
{
    assert(0 <= MIN_COLUMN_PT * unit <= 0x1E_0000_0000);
    if n > 0 {
        lemma_row_asks_bounds(cells, natural, unit, col, (n - 1) as nat);
        lemma_share_bounds(cells[n - 1], natural[n - 1], unit);
    }
}

proof fn lemma_share_bounds(cell: CellSpec, natural: i32, unit: u32)
    ensures
        -0x1_0000_0000 <= share(cell, natural, unit) <= 0xFFFF_FFFF,
{
    let pad = units(clamped(cell.margins.left + cell.margins.right), unit);
    let v: int = natural + pad;
    let d = span_of(cell) as int;
    assert(-0x1_0000_0000 <= v / d <= 0xFFFF_FFFF) by (nonlinear_arith)
        requires
            -0x1_0000_0000 <= v <= 0xFFFF_FFFF,
            d >= 1,
    ;
}

proof fn lemma_rows_ask_bounds(
    rows: Seq<RowSpec>,
    natural: Seq<Vec<i32>>,
    unit: u32,
    col: nat,
    n: nat,
)
    ensures
        0 <= rows_ask(rows, natural, unit, col, n) <= 0x1F_FFFF_FFFF,
    decreases n,
{
    assert(0 <= MIN_COLUMN_PT * unit <= 0x1E_0000_0000);
    if n > 0 {
        lemma_rows_ask_bounds(rows, natural, unit, col, (n - 1) as nat);
        lemma_row_asks_bounds(
            rows[n - 1].cells@,
            natural[n - 1]@,
            unit,
            col,
            rows[n - 1].cells@.len(),
        );
    }
}

fn natural_share(cell: &CellSpec, natural: i32, unit: u32) -> (r: i128)
    ensures
        r == share(*cell, natural, unit),
{
    let margins: i32 = clamp32(cell.margins.left as i128 + cell.margins.right as i128);
    let pad: i32 = twips_to_units(margins, unit);
    div_down(natural as i128 + pad as i128, span_count(cell) as i128)
}

fn column_natural(t: &TableSpec, natural: &Vec<Vec<i32>>, unit: u32, col: usize) -> (r: i128)
    requires
        naturals_ok(*t, natural@),
    ensures
        r == column_asks(*t, natural@, unit, col as nat),
        0 <= r <= 0x1F_FFFF_FFFF,
{
    let floor: i128 = MIN_COLUMN_PT as i128 * unit as i128;
    let mut widest: i128 = floor;
    let mut i: usize = 0;
    while i < t.rows.len()
        invariant
            i <= t.rows@.len(),
            naturals_ok(*t, natural@),
            floor == MIN_COLUMN_PT * unit,
            widest == rows_ask(t.rows@, natural@, unit, col as nat, i as nat),
        decreases t.rows.len() - i,
    {
        let cells: &Vec<CellSpec> = &t.rows[i].cells;
        let widths: &Vec<i32> = &natural[i];
        let mut row: i128 = floor;
        let mut start: u128 = 0;
        let mut c: usize = 0;
        while c < cells.len()
            invariant
                c <= cells@.len() == widths@.len(),
                start == column_start(cells@, c as nat),
                row == row_asks(cells@, widths@, unit, col as nat, c as nat),
            decreases cells.len() - c,
        {
            proof {
                lemma_column_start_bound(cells@, c as nat);
            }
            let cell: &CellSpec = &cells[c];
            let span: u128 = span_count(cell);
            if cell.v_merge != VMergeRole::Continue && start <= col as u128 && (col as u128) < start
                + span {
                row = most_of(row, natural_share(cell, widths[c], unit));
            }
            start += span;
            c += 1;
        }
        widest = most_of(widest, row);
        i += 1;
    }
    proof {
        lemma_rows_ask_bounds(t.rows@, natural@, unit, col as nat, t.rows@.len());
    }
    if col < t.grid.len() {
        most_of(widest, twips_to_units(t.grid[col], unit) as i128)
    } else {
        widest
    }
}

proof fn lemma_total_bounds(s: Seq<int>, n: nat)
    requires
        n <= s.len(),
        forall|i: int| 0 <= i < s.len() ==> 0 <= #[trigger] s[i] <= 0x1F_FFFF_FFFF,
    ensures
        0 <= total(s, n) <= n * 0x1F_FFFF_FFFF,
        forall|i: int| 0 <= i < n ==> #[trigger] s[i] <= total(s, n),
    decreases n,
{
    if n > 0 {
        lemma_total_bounds(s, (n - 1) as nat);
    }
}

/// What a list of lengths says.
pub open spec fn lengths(s: Seq<i128>) -> Seq<int> {
    s.map_values(|v: i128| v as int)
}

/// A list of widths can be added up.
pub open spec fn widths_fit(s: Seq<i128>) -> bool {
    &&& s.len() <= u32::MAX
    &&& forall|i: int| 0 <= i < s.len() ==> -0x1_0000_0000 <= #[trigger] s[i] <= 0x1_0000_0000
}

/// The column widths of a table whose columns adjust to their content:
/// `available` shared out in proportion to the natural widths, where no column
/// gets less than the grid sets for it. A table without columns has none.
pub fn autofit_distribute(
    t: &TableSpec,
    available: i32,
    unit: u32,
    natural: &Vec<Vec<i32>>,
) -> (r: Vec<i128>)
    requires
        naturals_ok(*t, natural@),
        columns_of(*t) <= u32::MAX,
    ensures
        lengths(r@) == fitted(*t, available as int, unit, natural@),
        widths_fit(r@),
{
    let n: usize = column_count(t) as usize;
    let ghost asks = all_asks(*t, natural@, unit, n as nat);
    let ghost goal = fitted(*t, available as int, unit, natural@);
    let mut widths: Vec<i128> = Vec::new();
    let mut sum: i128 = 0;
    let mut i: usize = 0;
    while i < n
        invariant
            i <= n,
            n == columns_of(*t),
            naturals_ok(*t, natural@),
            asks == all_asks(*t, natural@, unit, n as nat),
            widths@.len() == i,
            forall|k: int| 0 <= k < i ==> widths@[k] == #[trigger] asks[k],
            forall|k: int| 0 <= k < i ==> 0 <= #[trigger] widths@[k] <= 0x1F_FFFF_FFFF,
            sum == total(asks, i as nat),
            0 <= sum <= i * 0x1F_FFFF_FFFF,
        decreases n - i,
    {
        let w: i128 = column_natural(t, natural, unit, i);
        assert(asks[i as int] == w);
        sum += w;
        widths.push(w);
        i += 1;
    }
    let mut out: Vec<i128> = Vec::new();
    let mut k: usize = 0;
    while k < n
        invariant
            k <= n,
            n == asks.len(),
            n == widths@.len(),
            out@.len() == k,
            sum == total(asks, n as nat),
            forall|j: int| 0 <= j < n ==> widths@[j] == #[trigger] asks[j],
            forall|j: int| 0 <= j < n ==> 0 <= #[trigger] widths@[j] <= 0x1F_FFFF_FFFF,
            0 <= sum <= n * 0x1F_FFFF_FFFF,
            goal == floored(distributed(asks, available as int), t.grid@, unit),
            forall|j: int| 0 <= j < k ==> #[trigger] out@[j] == goal[j],
            forall|j: int| 0 <= j < k ==> -0x1_0000_0000 <= #[trigger] out@[j] <= 0x1_0000_0000,
        decreases n - k,
    {
        let w: i128 = widths[k];
        assert(w == asks[k as int]);
        let v: i128 = if sum <= 0 {
            assert(-0x8000_0000 <= available as int / n as int <= 0x7FFF_FFFF) by (nonlinear_arith)
                requires
                    -0x8000_0000 <= available <= 0x7FFF_FFFF,
                    n >= 1,
            ;
            div_down(available as i128, n as i128)
        } else {
            proof {
                lemma_total_bounds(asks, n as nat);
            }
            assert(-0x8000_0000 <= (w * available) / (sum as int) <= 0x7FFF_FFFF)
                by (nonlinear_arith)
                requires
                    0 <= w <= sum,
                    sum > 0,
                    -0x8000_0000 <= available <= 0x7FFF_FFFF,
            ;
            assert(-0x1F_FFFF_FFFF * 0x8000_0000 <= w * available <= 0x1F_FFFF_FFFF * 0x7FFF_FFFF)
                by (nonlinear_arith)
                requires
                    0 <= w <= 0x1F_FFFF_FFFF,
                    -0x8000_0000 <= available <= 0x7FFF_FFFF,
            ;
            div_down(w * available as i128, sum)
        };
        assert(v == distributed(asks, available as int)[k as int]);
        let floored: i128 = if k < t.grid.len() {
            most_of(v, twips_to_units(t.grid[k], unit) as i128)
        } else {
            v
        };
        out.push(floored);
        k += 1;
    }
    assert(lengths(out@) =~= goal);
    out
}

/// The columns that the layout of a table goes by: adjusted to the content, or
/// as the grid sets them.
pub fn table_columns(
    t: &TableSpec,
    available: i32,
    unit: u32,
    natural: &Vec<Vec<i32>>,
) -> (r: Vec<i128>)
    requires
        naturals_ok(*t, natural@),
        columns_of(*t) <= u32::MAX,
    ensures
        lengths(r@) == columns_for(*t, available, unit, natural@),
        t.grid@.len() <= u32::MAX ==> widths_fit(r@),
{
    if t.autofit {
        return autofit_distribute(t, available, unit, natural);
    }
    let mut out: Vec<i128> = Vec::new();
    let mut i: usize = 0;
    while i < t.grid.len()
        invariant
            i <= t.grid@.len(),
            lengths(out@) == grid_units(t.grid@, unit).take(i as int),
            out@.len() == i,
            forall|j: int| 0 <= j < i ==> -0x1_0000_0000 <= #[trigger] out@[j] <= 0x1_0000_0000,
        decreases t.grid.len() - i,
    {
        out.push(twips_to_units(t.grid[i], unit) as i128);
        i += 1;
        assert(lengths(out@) =~= grid_units(t.grid@, unit).take(i as int));
    }
    assert(grid_units(t.grid@, unit).take(i as int) =~= grid_units(t.grid@, unit));
    out
}

/// The widths that a grid sets.
pub open spec fn grid_units(grid: Seq<i32>, unit: u32) -> Seq<int> {
    grid.map_values(|w: i32| units(w, unit) as int)
}

/// The columns that the layout of a table goes by.
pub open spec fn columns_for(t: TableSpec, available: i32, unit: u32, natural: Seq<Vec<i32>>) -> Seq<
    int,
> {
    if t.autofit {
        fitted(t, available as int, unit, natural)
    } else {
        grid_units(t.grid@, unit)
    }
}

/// The width of a table with these columns.
pub open spec fn table_width(columns: Seq<int>, available: int) -> int {
    let sum = total(columns, columns.len());
    if sum <= 0 {
        available
    } else {
        sum
    }
}

/// The sum of columns `lo` to `hi`.
pub open spec fn columns_between(columns: Seq<int>, lo: int, hi: int) -> int {
    total(columns, hi as nat) - total(columns, lo as nat)
}

pub open spec fn least(a: int, b: int) -> int {
    if a <= b {
        a
    } else {
        b
    }
}

/// The width of cell `c` of a row: the columns that it covers, at least a
/// pixel, or an equal share of the table where there are no columns.
pub open spec fn cell_width(columns: Seq<int>, cells: Seq<CellSpec>, c: nat, available: int) -> int {
    if columns.len() == 0 {
        table_width(columns, available) / cells.len() as int
    } else {
        let start = column_start(cells, c);
        let lo = least(start as int, columns.len() as int);
        let hi = least((start + span_of(cells[c as int])) as int, columns.len() as int);
        most(columns_between(columns, lo, hi), 64)
    }
}

/// The width left for the content of cell `c` between its margins.
pub open spec fn content_width(
    columns: Seq<int>,
    cells: Seq<CellSpec>,
    c: nat,
    available: int,
    unit: u32,
) -> int {
    most(
        cell_width(columns, cells, c, available) - units(cells[c as int].margins.left, unit)
            - units(cells[c as int].margins.right, unit),
        0,
    )
}

/// The height that cell `c` asks of its row. A cell covered by a merge asks
/// nothing.
pub open spec fn asked_height(cell: CellSpec, content: i32, unit: u32) -> int {
    if cell.v_merge == VMergeRole::Continue {
        0
    } else {
        content + units(cell.margins.top, unit) + units(cell.margins.bottom, unit)
    }
}

/// The height that the first `n` cells ask of their row.
pub open spec fn cells_height(cells: Seq<CellSpec>, content: Seq<i32>, unit: u32, n: nat) -> int
    decreases n,
{
    if n == 0 {
        0
    } else {
        most(
            cells_height(cells, content, unit, (n - 1) as nat),
            asked_height(cells[n - 1], content[n - 1], unit),
        )
    }
}

/// The height of a row: that of its tallest cell, and no less than the height
/// set on it.
pub open spec fn row_height(row: RowSpec, content: Seq<i32>, unit: u32) -> int {
    let tallest = cells_height(row.cells@, content, unit, row.cells@.len());
    match row.height {
        RowHeight::Auto => tallest,
        RowHeight::AtLeast { twips } => most(tallest, units(twips, unit) as int),
        RowHeight::Exact { twips } => most(tallest, units(twips, unit) as int),
    }
}

/// The heights of the rows of a table.
pub open spec fn row_heights(t: TableSpec, content: Seq<Vec<i32>>, unit: u32) -> Seq<int> {
    Seq::new(t.rows@.len(), |r: int| row_height(t.rows@[r], content[r]@, unit))
}

/// The row has a cell that starts at `col` and continues the one above.
pub open spec fn continues_at(cells: Seq<CellSpec>, col: nat, n: nat) -> bool
    decreases n,
{
    if n == 0 {
        false
    } else if column_start(cells, (n - 1) as nat) == col {
        cells[n - 1].v_merge == VMergeRole::Continue
    } else {
        continues_at(cells, col, (n - 1) as nat)
    }
}

/// The heights of the rows from `k` on that continue a cell at `col`, without
/// a break.
pub open spec fn merged_below(rows: Seq<RowSpec>, heights: Seq<int>, col: nat, k: int) -> int
    decreases rows.len() - k,
{
    if k < 0 || k >= rows.len() || !continues_at(rows[k].cells@, col, rows[k].cells@.len()) {
        0
    } else {
        heights[k] + merged_below(rows, heights, col, k + 1)
    }
}

/// The height of cell `c` of row `r`: that of the row, and for the top cell of
/// a vertical merge that of the rows below that continue it.
pub open spec fn cell_height(rows: Seq<RowSpec>, heights: Seq<int>, r: int, c: int) -> int {
    if rows[r].cells@[c].v_merge == VMergeRole::Restart {
        heights[r] + merged_below(rows, heights, column_start(rows[r].cells@, c as nat), r + 1)
    } else {
        heights[r]
    }
}

/// How far the content of a cell of the given height is moved down.
pub open spec fn content_shift(cell: CellSpec, height: int, content: i32, unit: u32) -> int {
    let inner = most(height - units(cell.margins.top, unit) - units(cell.margins.bottom, unit), 0);
    let slack = most(inner - content, 0);
    if cell.v_merge == VMergeRole::Continue {
        0
    } else {
        match cell.v_align {
            VerticalAlign::Top => 0,
            VerticalAlign::Center => slack / 2,
            VerticalAlign::Bottom => slack,
        }
    }
}

/// The left edge of cell `c` of a row.
pub open spec fn cell_x(columns: Seq<int>, cells: Seq<CellSpec>, c: nat, available: int) -> int
    decreases c,
{
    if c == 0 {
        0
    } else {
        cell_x(columns, cells, (c - 1) as nat, available) + cell_width(
            columns,
            cells,
            (c - 1) as nat,
            available,
        )
    }
}

/// The place of cell `c` of row `r`.
pub open spec fn cell_frame(
    t: TableSpec,
    columns: Seq<int>,
    available: int,
    content: Seq<Vec<i32>>,
    unit: u32,
    r: int,
    c: int,
) -> CellFrame {
    let cells = t.rows@[r].cells@;
    let height = cell_height(t.rows@, row_heights(t, content, unit), r, c);
    CellFrame {
        x: cell_x(columns, cells, c as nat, available) as i128,
        width: cell_width(columns, cells, c as nat, available) as i128,
        height: height as i128,
        grid_span: span_of(cells[c]) as u16,
        v_merge: cells[c].v_merge,
        padding: edge_units(cells[c].margins, unit),
        content_shift: content_shift(cells[c], height, content[r]@[c], unit) as i128,
    }
}

/// The place of row `r`.
pub open spec fn row_place(
    t: TableSpec,
    columns: Seq<int>,
    available: int,
    content: Seq<Vec<i32>>,
    unit: u32,
    r: int,
) -> RowPlace {
    let heights = row_heights(t, content, unit);
    let cells = t.rows@[r].cells@;
    RowPlace {
        y: total(heights, r as nat),
        width: most(
            cell_x(columns, cells, cells.len(), available),
            table_width(columns, available),
        ),
        height: heights[r],
        cells: Seq::new(
            cells.len(),
            |c: int| cell_frame(t, columns, available, content, unit, r, c),
        ),
        header: t.rows@[r].header,
        cant_split: t.rows@[r].cant_split,
    }
}

proof fn lemma_total_range(s: Seq<int>, n: nat, bound: int)
    requires
        n <= s.len(),
        forall|i: int| 0 <= i < s.len() ==> -bound <= #[trigger] s[i] <= bound,
    ensures
        -(n * bound) <= total(s, n) <= n * bound,
    decreases n,
{
    if n > 0 {
        lemma_total_range(s, (n - 1) as nat, bound);
        assert((n - 1) * bound + bound == n * bound) by (nonlinear_arith);
    }
}

proof fn lemma_columns_total(columns: Seq<i128>, n: nat)
    requires
        widths_fit(columns),
        n <= columns.len(),
    ensures
        -0x1_0000_0000_0000_0000 <= total(lengths(columns), n) <= 0x1_0000_0000_0000_0000,
{
    let s = lengths(columns);
    assert forall|i: int| 0 <= i < s.len() implies -0x1_0000_0000 <= #[trigger] s[i]
        <= 0x1_0000_0000 by {
        assert(s[i] == columns[i]);
    }
    lemma_total_range(s, n, 0x1_0000_0000);
}

fn sum_columns(columns: &Vec<i128>, lo: usize, hi: usize) -> (r: i128)
    requires
        widths_fit(columns@),
        lo <= hi <= columns@.len(),
    ensures
        r == columns_between(lengths(columns@), lo as int, hi as int),
{
    let mut sum: i128 = 0;
    let mut i: usize = lo;
    while i < hi
        invariant
            lo <= i <= hi <= columns@.len(),
            widths_fit(columns@),
            sum == total(lengths(columns@), i as nat) - total(lengths(columns@), lo as nat),
        decreases hi - i,
    {
        proof {
            lemma_columns_total(columns@, i as nat);
            lemma_columns_total(columns@, lo as nat);
        }
        sum += columns[i];
        i += 1;
        assert(total(lengths(columns@), i as nat) == total(lengths(columns@), (i - 1) as nat)
            + lengths(columns@)[i - 1]);
    }
    sum
}

/// The width of a table with these columns.
pub fn width_of_table(columns: &Vec<i128>, available: i32) -> (r: i128)
    requires
        widths_fit(columns@),
    ensures
        r == table_width(lengths(columns@), available as int),
{
    let sum: i128 = sum_columns(columns, 0, columns.len());
    if sum <= 0 {
        available as i128
    } else {
        sum
    }
}

proof fn lemma_cell_width_range(columns: Seq<i128>, cells: Seq<CellSpec>, c: nat, available: i32)
    requires
        widths_fit(columns),
        c < cells.len(),
    ensures
        -0x2_0000_0000_0000_0000 <= cell_width(lengths(columns), cells, c, available as int)
            <= 0x2_0000_0000_0000_0000,
{
    let s = lengths(columns);
    let start = column_start(cells, c);
    let lo = least(start as int, s.len() as int);
    let hi = least((start + span_of(cells[c as int])) as int, s.len() as int);
    lemma_columns_total(columns, lo as nat);
    lemma_columns_total(columns, hi as nat);
    if columns.len() == 0 {
        let w = table_width(s, available as int);
        let n = cells.len() as int;
        assert(w == available);
        assert(-0x8000_0000 <= w / n <= 0x7FFF_FFFF) by (nonlinear_arith)
            requires
                -0x8000_0000 <= w <= 0x7FFF_FFFF,
                n >= 1,
        ;
    }
}

/// The width of cell `c` of a row.
pub fn width_of_cell(columns: &Vec<i128>, cells: &Vec<CellSpec>, c: usize, available: i32) -> (r: i128)
    requires
        widths_fit(columns@),
        c < cells@.len(),
    ensures
        r == cell_width(lengths(columns@), cells@, c as nat, available as int),
        -0x2_0000_0000_0000_0000 <= r <= 0x2_0000_0000_0000_0000,
{
    proof {
        lemma_cell_width_range(columns@, cells@, c as nat, available);
    }
    if columns.len() == 0 {
        let w: i128 = width_of_table(columns, available);
        assert(w == available);
        return div_down(w, cells.len() as i128);
    }
    let mut start: u128 = 0;
    let mut i: usize = 0;
    while i < c
        invariant
            i <= c < cells@.len(),
            start == column_start(cells@, i as nat),
        decreases c - i,
    {
        proof {
            lemma_column_start_bound(cells@, i as nat);
        }
        start += span_count(&cells[i]);
        i += 1;
    }
    proof {
        lemma_column_start_bound(cells@, c as nat);
    }
    let end: u128 = start + span_count(&cells[c]);
    let n: usize = columns.len();
    let lo: usize = if start < n as u128 {
        start as usize
    } else {
        n
    };
    let hi: usize = if end < n as u128 {
        end as usize
    } else {
        n
    };
    most_of(sum_columns(columns, lo, hi), 64)
}

/// The width left for the content of cell `c` between its margins.
pub fn width_of_content(
    columns: &Vec<i128>,
    cells: &Vec<CellSpec>,
    c: usize,
    available: i32,
    unit: u32,
) -> (r: i128)
    requires
        widths_fit(columns@),
        c < cells@.len(),
    ensures
        r == content_width(lengths(columns@), cells@, c as nat, available as int, unit),
{
    let w: i128 = width_of_cell(columns, cells, c, available);
    let left: i32 = twips_to_units(cells[c].margins.left, unit);
    let right: i32 = twips_to_units(cells[c].margins.right, unit);
    most_of(w - left as i128 - right as i128, 0)
}

proof fn lemma_cells_height_range(cells: Seq<CellSpec>, content: Seq<i32>, unit: u32, n: nat)
    ensures
        0 <= cells_height(cells, content, unit, n) <= 0x2_0000_0000,
    decreases n,
{
    if n > 0 {
        lemma_cells_height_range(cells, content, unit, (n - 1) as nat);
    }
}

proof fn lemma_row_height_range(row: RowSpec, content: Seq<i32>, unit: u32)
    ensures
        0 <= row_height(row, content, unit) <= 0x2_0000_0000,
{
    lemma_cells_height_range(row.cells@, content, unit, row.cells@.len());
}

fn height_of_row(row: &RowSpec, content: &Vec<i32>, unit: u32) -> (r: i128)
    requires
        content@.len() == row.cells@.len(),
    ensures
        r == row_height(*row, content@, unit),
        0 <= r <= 0x2_0000_0000,
{
    proof {
        lemma_row_height_range(*row, content@, unit);
    }
    let mut tallest: i128 = 0;
    let mut c: usize = 0;
    while c < row.cells.len()
        invariant
            c <= row.cells@.len() == content@.len(),
            tallest == cells_height(row.cells@, content@, unit, c as nat),
        decreases row.cells.len() - c,
    {
        let cell: &CellSpec = &row.cells[c];
        let asked: i128 = if cell.v_merge == VMergeRole::Continue {
            0
        } else {
            content[c] as i128 + twips_to_units(cell.margins.top, unit) as i128 + twips_to_units(
                cell.margins.bottom,
                unit,
            ) as i128
        };
        tallest = most_of(tallest, asked);
        c += 1;
    }
    match row.height {
        RowHeight::Auto => tallest,
        RowHeight::AtLeast { twips } => most_of(tallest, twips_to_units(twips, unit) as i128),
        RowHeight::Exact { twips } => most_of(tallest, twips_to_units(twips, unit) as i128),
    }
}

/// There is a content height for each cell.
pub open spec fn contents_ok(t: TableSpec, content: Seq<Vec<i32>>) -> bool {
    &&& content.len() == t.rows@.len()
    &&& forall|i: int|
        0 <= i < content.len() ==> (#[trigger] content[i])@.len() == t.rows@[i].cells@.len()
    &&& forall|i: int| 0 <= i < t.rows@.len() ==> (#[trigger] t.rows@[i]).cells@.len() <= u32::MAX
}

proof fn lemma_starts_distinct(cells: Seq<CellSpec>, m: nat, n: nat)
    requires
        m < n,
    ensures
        column_start(cells, m) < column_start(cells, n),
    decreases n,
{
    if m + 1 < n {
        lemma_starts_distinct(cells, m, (n - 1) as nat);
    }
}

/// Cells that start past `col` do not decide whether the row continues there.
proof fn lemma_continues_upto(cells: Seq<CellSpec>, col: nat, k: nat, n: nat)
    requires
        k <= n <= cells.len(),
        column_start(cells, k) > col,
    ensures
        continues_at(cells, col, n) == continues_at(cells, col, k),
    decreases n,
{
    if k < n {
        lemma_continues_upto(cells, col, k, (n - 1) as nat);
        if k < n - 1 {
            lemma_starts_distinct(cells, k, (n - 1) as nat);
        }
    }
}

fn row_continues(cells: &Vec<CellSpec>, col: u128) -> (r: bool)
    ensures
        r == continues_at(cells@, col as nat, cells@.len()),
{
    let mut start: u128 = 0;
    let mut c: usize = 0;
    while c < cells.len() && start <= col
        invariant
            c <= cells@.len(),
            start == column_start(cells@, c as nat),
            !continues_at(cells@, col as nat, c as nat),
        decreases cells.len() - c,
    {
        let ghost here = start;
        if start == col {
            proof {
                lemma_column_start_bound(cells@, c as nat);
                assert(continues_at(cells@, col as nat, (c + 1) as nat) == (cells@[c as int].v_merge
                    == VMergeRole::Continue));
                lemma_continues_upto(cells@, col as nat, (c + 1) as nat, cells@.len());
            }
            return cells[c].v_merge == VMergeRole::Continue;
        }
        proof {
            lemma_column_start_bound(cells@, c as nat);
        }
        start += span_count(&cells[c]);
        c += 1;
    }
    proof {
        if c < cells@.len() {
            lemma_continues_upto(cells@, col as nat, c as nat, cells@.len());
        }
    }
    false
}

proof fn lemma_heights_range(t: TableSpec, content: Seq<Vec<i32>>, unit: u32, n: nat)
    requires
        n <= t.rows@.len(),
    ensures
        0 <= total(row_heights(t, content, unit), n) <= n * 0x2_0000_0000,
        forall|i: int|
            0 <= i < t.rows@.len() ==> 0 <= #[trigger] row_heights(t, content, unit)[i]
                <= 0x2_0000_0000,
    decreases n,
{
    assert forall|i: int| 0 <= i < t.rows@.len() implies 0 <= #[trigger] row_heights(
        t,
        content,
        unit,
    )[i] <= 0x2_0000_0000 by {
        lemma_row_height_range(t.rows@[i], content[i]@, unit);
    }
    if n > 0 {
        lemma_heights_range(t, content, unit, (n - 1) as nat);
    }
}

proof fn lemma_merged_range(rows: Seq<RowSpec>, heights: Seq<int>, col: nat, k: int)
    requires
        heights.len() == rows.len(),
        forall|i: int| 0 <= i < heights.len() ==> 0 <= #[trigger] heights[i] <= 0x2_0000_0000,
        0 <= k <= rows.len(),
    ensures
        0 <= merged_below(rows, heights, col, k) <= (rows.len() - k) * 0x2_0000_0000,
    decreases rows.len() - k,
{
    if k < rows.len() && continues_at(rows[k].cells@, col, rows[k].cells@.len()) {
        lemma_merged_range(rows, heights, col, k + 1);
    }
}

/// The heights of the rows from `from` on that continue a cell at `col`.
fn merged_height(rows: &Vec<RowSpec>, heights: &Vec<i128>, col: u128, from: usize) -> (r: i128)
    requires
        from <= rows@.len() == heights@.len(),
        forall|i: int| 0 <= i < heights@.len() ==> 0 <= #[trigger] heights@[i] <= 0x2_0000_0000,
    ensures
        r == merged_below(rows@, lengths(heights@), col as nat, from as int),
        0 <= r <= (rows@.len() - from) * 0x2_0000_0000,
{
    let ghost hs = lengths(heights@);
    proof {
        lemma_merged_range(rows@, hs, col as nat, from as int);
    }
    let mut sum: i128 = 0;
    let mut k: usize = from;
    while k < rows.len() && row_continues(&rows[k].cells, col)
        invariant
            from <= k <= rows@.len() == heights@.len(),
            hs == lengths(heights@),
            forall|i: int| 0 <= i < heights@.len() ==> 0 <= #[trigger] heights@[i]
                <= 0x2_0000_0000,
            0 <= sum <= (k - from) * 0x2_0000_0000,
            merged_below(rows@, hs, col as nat, from as int) == sum + merged_below(
                rows@,
                hs,
                col as nat,
                k as int,
            ),
        decreases rows.len() - k,
    {
        assert(hs[k as int] == heights@[k as int]);
        sum += heights[k];
        k += 1;
    }
    sum
}

fn shift_of(cell: &CellSpec, height: i128, content: i32, unit: u32) -> (r: i128)
    requires
        0 <= height <= 0x10_0000_0000_0000_0000_0000_0000,
    ensures
        r == content_shift(*cell, height as int, content, unit),
{
    if cell.v_merge == VMergeRole::Continue {
        return 0;
    }
    let top: i32 = twips_to_units(cell.margins.top, unit);
    let bottom: i32 = twips_to_units(cell.margins.bottom, unit);
    let inner: i128 = most_of(height - top as i128 - bottom as i128, 0);
    let slack: i128 = most_of(inner - content as i128, 0);
    match cell.v_align {
        VerticalAlign::Top => 0,
        VerticalAlign::Center => slack / 2,
        VerticalAlign::Bottom => slack,
    }
}

/// The place of cell `c` of row `r`, length by length: its left edge, its width
/// and height, and how far its content is moved down.
pub open spec fn placed_at(
    frame: CellFrame,
    t: TableSpec,
    columns: Seq<int>,
    available: int,
    content: Seq<Vec<i32>>,
    unit: u32,
    r: int,
    c: int,
) -> bool {
    let cells = t.rows@[r].cells@;
    &&& frame.x == cell_x(columns, cells, c as nat, available)
    &&& frame.width == cell_width(columns, cells, c as nat, available)
    &&& frame.height == cell_height(t.rows@, row_heights(t, content, unit), r, c)
    &&& frame.content_shift == content_shift(cells[c], frame.height as int, content[r]@[c], unit)
}

fn place_row(
    t: &TableSpec,
    columns: &Vec<i128>,
    available: i32,
    content: &Vec<Vec<i32>>,
    unit: u32,
    heights: &Vec<i128>,
    r: usize,
    y: i128,
) -> (out: RowFrame)
    requires
        widths_fit(columns@),
        contents_ok(*t, content@),
        r < t.rows@.len(),
        lengths(heights@) == row_heights(*t, content@, unit),
        y == total(row_heights(*t, content@, unit), r as nat),
    ensures
        out@ == row_place(*t, lengths(columns@), available as int, content@, unit, r as int),
        forall|c: int|
            0 <= c < out.cells@.len() ==> placed_at(
                #[trigger] out.cells@[c],
                *t,
                lengths(columns@),
                available as int,
                content@,
                unit,
                r as int,
                c,
            ),
{
    let ghost cols = lengths(columns@);
    let ghost hs = row_heights(*t, content@, unit);
    proof {
        lemma_heights_range(*t, content@, unit, 0);
        assert(heights@.len() == hs.len());
        assert forall|i: int| 0 <= i < heights@.len() implies 0 <= #[trigger] heights@[i]
            <= 0x2_0000_0000 by {
            assert(lengths(heights@)[i] == heights@[i]);
            assert(hs[i] == heights@[i]);
        }
    }
    let row: &RowSpec = &t.rows[r];
    let ghost goal = row_place(*t, cols, available as int, content@, unit, r as int);
    let mut cells: Vec<CellFrame> = Vec::new();
    let mut x: i128 = 0;
    let mut start: u128 = 0;
    let mut c: usize = 0;
    while c < row.cells.len()
        invariant
            c <= row.cells@.len() <= u32::MAX,
            widths_fit(columns@),
            contents_ok(*t, content@),
            r < t.rows@.len(),
            row == t.rows@[r as int],
            cols == lengths(columns@),
            hs == row_heights(*t, content@, unit),
            lengths(heights@) == hs,
            heights@.len() == t.rows@.len(),
            forall|i: int| 0 <= i < heights@.len() ==> 0 <= #[trigger] heights@[i]
                <= 0x2_0000_0000,
            goal == row_place(*t, cols, available as int, content@, unit, r as int),
            x == cell_x(cols, row.cells@, c as nat, available as int),
            -(c * 0x2_0000_0000_0000_0000) <= x <= c * 0x2_0000_0000_0000_0000,
            start == column_start(row.cells@, c as nat),
            cells@ == goal.cells.take(c as int),
            forall|k: int|
                0 <= k < c ==> placed_at(
                    #[trigger] cells@[k],
                    *t,
                    cols,
                    available as int,
                    content@,
                    unit,
                    r as int,
                    k,
                ),
        decreases row.cells.len() - c,
    {
        let cell: &CellSpec = &row.cells[c];
        let width: i128 = width_of_cell(columns, &row.cells, c, available);
        assert(hs[r as int] == heights@[r as int]);
        let n: usize = t.rows.len();
        assert(r < n);
        let height: i128 = if cell.v_merge == VMergeRole::Restart {
            heights[r] + merged_height(&t.rows, heights, start, r + 1)
        } else {
            heights[r]
        };
        assert(content@[r as int]@.len() == row.cells@.len());
        let shift: i128 = shift_of(cell, height, content[r][c], unit);
        let frame = CellFrame {
            x,
            width,
            height,
            grid_span: span_count(cell) as u16,
            v_merge: cell.v_merge,
            padding: Edges {
                top: twips_to_units(cell.margins.top, unit),
                right: twips_to_units(cell.margins.right, unit),
                bottom: twips_to_units(cell.margins.bottom, unit),
                left: twips_to_units(cell.margins.left, unit),
            },
            content_shift: shift,
        };
        assert(frame == goal.cells[c as int]);
        cells.push(frame);
        proof {
            lemma_column_start_bound(row.cells@, c as nat);
        }
        x += width;
        start += span_count(cell);
        c += 1;
        assert(cells@ =~= goal.cells.take(c as int));
    }
    assert(cells@ =~= goal.cells);
    let width: i128 = most_of(x, width_of_table(columns, available));
    assert(hs[r as int] == heights@[r as int]);
    RowFrame {
        y,
        width,
        height: heights[r],
        cells,
        header: t.rows[r].header,
        cant_split: t.rows[r].cant_split,
    }
}

/// Place the rows and cells of a table with these columns, given the height
/// that each cell's content takes at its width. Gives the rows, and the width
/// and the height of the table.
pub fn layout_table(
    t: &TableSpec,
    columns: &Vec<i128>,
    available: i32,
    content: &Vec<Vec<i32>>,
    unit: u32,
) -> (out: (Vec<RowFrame>, i128, i128))
    requires
        widths_fit(columns@),
        contents_ok(*t, content@),
    ensures
        out.0@.len() == t.rows@.len(),
        forall|r: int|
            0 <= r < t.rows@.len() ==> (#[trigger] out.0@[r])@ == row_place(
                *t,
                lengths(columns@),
                available as int,
                content@,
                unit,
                r,
            ),
        forall|r: int, c: int|
            0 <= r < t.rows@.len() && 0 <= c < t.rows@[r].cells@.len() ==> placed_at(
                #[trigger] out.0@[r].cells@[c],
                *t,
                lengths(columns@),
                available as int,
                content@,
                unit,
                r,
                c,
            ),
        out.1 == table_width(lengths(columns@), available as int),
        out.2 == total(row_heights(*t, content@, unit), t.rows@.len()),
{
    let ghost hs = row_heights(*t, content@, unit);
    let mut heights: Vec<i128> = Vec::new();
    let mut i: usize = 0;
    while i < t.rows.len()
        invariant
            i <= t.rows@.len(),
            contents_ok(*t, content@),
            hs == row_heights(*t, content@, unit),
            lengths(heights@) == hs.take(i as int),
        decreases t.rows.len() - i,
    {
        assert(content@[i as int]@.len() == t.rows@[i as int].cells@.len());
        let h: i128 = height_of_row(&t.rows[i], &content[i], unit);
        assert(hs[i as int] == h);
        let ghost before = heights@;
        heights.push(h);
        assert(lengths(heights@) =~= lengths(before).push(h as int));
        i += 1;
        assert(lengths(heights@) =~= hs.take(i as int));
    }
    assert(lengths(heights@) =~= hs);
    let mut rows: Vec<RowFrame> = Vec::new();
    let mut y: i128 = 0;
    let mut r: usize = 0;
    while r < t.rows.len()
        invariant
            r <= t.rows@.len(),
            widths_fit(columns@),
            contents_ok(*t, content@),
            hs == row_heights(*t, content@, unit),
            lengths(heights@) == hs,
            y == total(hs, r as nat),
            rows@.len() == r,
            forall|k: int|
                0 <= k < r ==> (#[trigger] rows@[k])@ == row_place(
                    *t,
                    lengths(columns@),
                    available as int,
                    content@,
                    unit,
                    k,
                ),
            forall|k: int, c: int|
                0 <= k < r && 0 <= c < t.rows@[k].cells@.len() ==> placed_at(
                    #[trigger] rows@[k].cells@[c],
                    *t,
                    lengths(columns@),
                    available as int,
                    content@,
                    unit,
                    k,
                    c,
                ),
        decreases t.rows.len() - r,
    {
        proof {
            lemma_heights_range(*t, content@, unit, r as nat);
            assert(lengths(heights@).len() == hs.len());
            assert(lengths(heights@)[r as int] == heights@[r as int]);
        }
        rows.push(place_row(t, columns, available, content, unit, &heights, r, y));
        y += heights[r];
        r += 1;
    }
    (rows, width_of_table(columns, available), y)
}

proof fn lemma_share_sum(asks: Seq<int>, available: int, n: nat)
    requires
        n <= asks.len(),
        total(asks, asks.len()) > 0,
        available >= 0,
    ensures
        ({
            let sum = total(asks, asks.len());
            let part = total(distributed(asks, available), n) * sum;
            total(asks, n) * available - n * (sum - 1) <= part <= total(asks, n) * available
        }),
    decreases n,
{
    let sum = total(asks, asks.len());
    let d = distributed(asks, available);
    if n > 0 {
        lemma_share_sum(asks, available, (n - 1) as nat);
        let w = asks[n - 1];
        let q = (w * available) / sum;
        assert(d[n - 1] == q);
        assert(q * sum <= w * available <= q * sum + sum - 1) by (nonlinear_arith)
            requires
                sum > 0,
                q == (w * available) / sum,
        ;
        let (t1, a1) = (total(d, (n - 1) as nat), total(asks, (n - 1) as nat));
        assert((t1 + q) * sum == t1 * sum + q * sum) by (nonlinear_arith);
        assert((a1 + w) * available == a1 * available + w * available) by (nonlinear_arith);
        assert(n * (sum - 1) == (n - 1) * (sum - 1) + (sum - 1)) by (nonlinear_arith);
    } else {
        assert(0 * sum == 0) by (nonlinear_arith);
        assert(0 * available == 0) by (nonlinear_arith);
    }
}

proof fn lemma_equal_shares(s: Seq<int>, share: int, n: nat)
    requires
        n <= s.len(),
        forall|i: int| 0 <= i < s.len() ==> #[trigger] s[i] == share,
    ensures
        total(s, n) == n * share,
    decreases n,
{
    if n > 0 {
        lemma_equal_shares(s, share, (n - 1) as nat);
        assert(n * share == (n - 1) * share + share) by (nonlinear_arith);
    } else {
        assert(0 * share == 0) by (nonlinear_arith);
    }
}

/// Shares add up to the whole, but for what rounding down loses, under one
/// unit for each of them.
proof fn lemma_shares_fill(asks: Seq<int>, available: int)
    requires
        asks.len() >= 1,
        available >= 0,
    ensures
        ({
            let sum = total(distributed(asks, available), asks.len());
            sum <= available < sum + asks.len()
        }),
{
    let sum = total(asks, asks.len());
    let n = asks.len() as int;
    let t = total(distributed(asks, available), asks.len());
    if sum <= 0 {
        lemma_equal_shares(distributed(asks, available), available / n, asks.len());
        assert(n * (available / n) <= available < n * (available / n) + n) by (nonlinear_arith)
            requires
                n >= 1,
        ;
    } else {
        lemma_share_sum(asks, available, asks.len());
        assert(t <= available) by (nonlinear_arith)
            requires
                t * sum <= sum * available,
                sum > 0,
        ;
        assert(available < t + n) by (nonlinear_arith)
            requires
                sum * available - n * (sum - 1) <= t * sum,
                sum > 0,
                n >= 1,
        ;
    }
}

proof fn lemma_total_grows(a: Seq<int>, b: Seq<int>, n: nat)
    requires
        n <= a.len() == b.len(),
        forall|i: int| 0 <= i < a.len() ==> #[trigger] a[i] <= b[i],
    ensures
        total(a, n) <= total(b, n),
    decreases n,
{
    if n > 0 {
        lemma_total_grows(a, b, (n - 1) as nat);
    }
}

/// Columns that adjust to their content fill the width of the table: they fall
/// short of it only by what rounding down loses, under one unit for each
/// column, and they go beyond it only where the grid sets more for a column
/// than its share.
pub proof fn law_columns_fill_the_table(
    t: TableSpec,
    natural: Seq<Vec<i32>>,
    unit: u32,
    available: int,
)
    requires
        columns_of(t) >= 1,
        available >= 0,
    ensures
        ({
            let n = columns_of(t);
            let shares = distributed(all_asks(t, natural, unit, n), available);
            let columns = fitted(t, available, unit, natural);
            &&& columns.len() == n
            &&& available < total(columns, n) + n
            &&& (forall|i: int|
                0 <= i < n && i < t.grid@.len() ==> units(#[trigger] t.grid@[i], unit)
                    <= shares[i]) ==> total(columns, n) <= available
        }),
{
    let n = columns_of(t);
    let asks = all_asks(t, natural, unit, n);
    let shares = distributed(asks, available);
    let columns = fitted(t, available, unit, natural);
    lemma_shares_fill(asks, available);
    lemma_total_grows(shares, columns, n);
    if forall|i: int|
        0 <= i < n && i < t.grid@.len() ==> units(#[trigger] t.grid@[i], unit) <= shares[i] {
        lemma_total_grows(columns, shares, n);
    }
}

/// A column whose content asks for more is not narrower, unless the grid sets
/// more for the other one than this one gets.
pub proof fn law_wider_content_wider_column(
    t: TableSpec,
    natural: Seq<Vec<i32>>,
    unit: u32,
    available: int,
    i: int,
    j: int,
)
    requires
        0 <= i < columns_of(t),
        0 <= j < columns_of(t),
        column_asks(t, natural, unit, i as nat) <= column_asks(t, natural, unit, j as nat),
        available >= 0,
        i < t.grid@.len() ==> units(t.grid@[i], unit) <= fitted(t, available, unit, natural)[j],
    ensures
        fitted(t, available, unit, natural)[i] <= fitted(t, available, unit, natural)[j],
{
    let asks = all_asks(t, natural, unit, columns_of(t));
    let sum = total(asks, asks.len());
    let (a, b) = (asks[i], asks[j]);
    if sum > 0 {
        assert((a * available) / sum <= (b * available) / sum) by (nonlinear_arith)
            requires
                a <= b,
                available >= 0,
                sum > 0,
        ;
    }
}

/// A column never comes out narrower than the grid sets for it. It asks for no
/// less than that and no less than the least width.
pub proof fn law_grid_is_a_floor(
    t: TableSpec,
    natural: Seq<Vec<i32>>,
    unit: u32,
    available: int,
    col: nat,
)
    ensures
        col < t.grid@.len() ==> col < columns_of(t) && fitted(t, available, unit, natural)[col as int]
            >= units(t.grid@[col as int], unit),
        column_asks(t, natural, unit, col) >= MIN_COLUMN_PT * unit,
        col < t.grid@.len() ==> column_asks(t, natural, unit, col) >= units(
            t.grid@[col as int],
            unit,
        ),
{
    lemma_rows_ask_floor(t.rows@, natural, unit, col, t.rows@.len());
}

proof fn lemma_rows_ask_floor(
    rows: Seq<RowSpec>,
    natural: Seq<Vec<i32>>,
    unit: u32,
    col: nat,
    n: nat,
)
    ensures
        rows_ask(rows, natural, unit, col, n) >= MIN_COLUMN_PT * unit,
    decreases n,
{
    if n > 0 {
        lemma_rows_ask_floor(rows, natural, unit, col, (n - 1) as nat);
    }
}

proof fn lemma_tallest(cells: Seq<CellSpec>, content: Seq<i32>, unit: u32, n: nat, c: nat)
    requires
        c < n,
    ensures
        asked_height(cells[c as int], content[c as int], unit) <= cells_height(
            cells,
            content,
            unit,
            n,
        ),
    decreases n,
{
    if c + 1 < n {
        lemma_tallest(cells, content, unit, (n - 1) as nat, c);
    }
}

/// A row is tall enough for each of its cells.
pub proof fn law_row_holds_its_cells(row: RowSpec, content: Seq<i32>, unit: u32, c: nat)
    requires
        c < row.cells@.len(),
    ensures
        asked_height(row.cells@[c as int], content[c as int], unit) <= row_height(
            row,
            content,
            unit,
        ),
{
    lemma_tallest(row.cells@, content, unit, row.cells@.len(), c);
}

/// The first row from `k` on that does not continue a cell at `col`.
pub open spec fn merge_end(rows: Seq<RowSpec>, col: nat, k: int) -> int
    decreases rows.len() - k,
{
    if k < 0 || k >= rows.len() || !continues_at(rows[k].cells@, col, rows[k].cells@.len()) {
        k
    } else {
        merge_end(rows, col, k + 1)
    }
}

proof fn lemma_merged_is_span(rows: Seq<RowSpec>, heights: Seq<int>, col: nat, k: int)
    requires
        0 <= k <= rows.len() == heights.len(),
    ensures
        k <= merge_end(rows, col, k) <= rows.len(),
        merged_below(rows, heights, col, k) == total(heights, merge_end(rows, col, k) as nat)
            - total(heights, k as nat),
    decreases rows.len() - k,
{
    if k < rows.len() && continues_at(rows[k].cells@, col, rows[k].cells@.len()) {
        lemma_merged_is_span(rows, heights, col, k + 1);
        assert(total(heights, (k + 1) as nat) == total(heights, k as nat) + heights[k]);
    }
}

/// The top cell of a vertical merge reaches from the top of its row to the
/// bottom of the last row that continues it.
pub proof fn law_merged_cell_spans_its_rows(rows: Seq<RowSpec>, heights: Seq<int>, r: int, c: int)
    requires
        0 <= r < rows.len() == heights.len(),
        0 <= c < rows[r].cells@.len(),
        rows[r].cells@[c].v_merge == VMergeRole::Restart,
    ensures
        ({
            let end = merge_end(rows, column_start(rows[r].cells@, c as nat), r + 1);
            &&& r < end <= rows.len()
            &&& cell_height(rows, heights, r, c) == total(heights, end as nat) - total(
                heights,
                r as nat,
            )
        }),
{
    lemma_merged_is_span(rows, heights, column_start(rows[r].cells@, c as nat), r + 1);
    assert(total(heights, (r + 1) as nat) == total(heights, r as nat) + heights[r]);
}

/// Content that fits into its cell stays between the margins when it is moved
/// down, and content at the bottom ends at the lower margin.
pub proof fn law_shift_stays_inside(cell: CellSpec, height: int, content: i32, unit: u32)
    requires
        0 <= content,
        units(cell.margins.top, unit) + content + units(cell.margins.bottom, unit) <= height,
    ensures
        0 <= content_shift(cell, height, content, unit),
        units(cell.margins.top, unit) + content_shift(cell, height, content, unit) + content
            <= height - units(cell.margins.bottom, unit),
        cell.v_align == VerticalAlign::Bottom && cell.v_merge != VMergeRole::Continue ==> units(
            cell.margins.top,
            unit,
        ) + content_shift(cell, height, content, unit) + content == height - units(
            cell.margins.bottom,
            unit,
        ),
{
}

/// The places of blocks of the given heights, each below the one before.
pub open spec fn stack_tops(heights: Seq<i32>) -> Seq<int> {
    Seq::new(
        heights.len(),
        |i: int| total(heights.map_values(|h: i32| h as int), i as nat),
    )
}

/// The tops of the blocks of a cell and the height that they take together.
pub fn stack_blocks(heights: &Vec<i32>) -> (r: (Vec<i128>, i128))
    ensures
        lengths(r.0@) == stack_tops(heights@),
        r.1 == total(heights@.map_values(|h: i32| h as int), heights@.len()),
{
    let ghost hs = heights@.map_values(|h: i32| h as int);
    let mut tops: Vec<i128> = Vec::new();
    let mut y: i128 = 0;
    let mut i: usize = 0;
    while i < heights.len()
        invariant
            i <= heights@.len(),
            hs == heights@.map_values(|h: i32| h as int),
            y == total(hs, i as nat),
            -(i * 0x8000_0000) <= y <= i * 0x8000_0000,
            lengths(tops@) == stack_tops(heights@).take(i as int),
        decreases heights.len() - i,
    {
        let ghost before = tops@;
        tops.push(y);
        assert(lengths(tops@) =~= lengths(before).push(y as int));
        assert(hs[i as int] == heights@[i as int]);
        y += heights[i] as i128;
        i += 1;
        assert(lengths(tops@) =~= stack_tops(heights@).take(i as int));
    }
    assert(lengths(tops@) =~= stack_tops(heights@));
    (tops, y)
}

/// A row has a cell that starts at `col` and continues the cell above it.
pub open spec fn has_continuation(row: RowSpec, col: nat) -> bool {
    exists|d: int|
        0 <= d < row.cells@.len() && (#[trigger] row.cells@[d]).v_merge == VMergeRole::Continue
            && column_start(row.cells@, d as nat) == col
}

proof fn lemma_continuation(row: RowSpec, col: nat)
    ensures
        continues_at(row.cells@, col, row.cells@.len()) == has_continuation(row, col),
{
    let cells = row.cells@;
    if continues_at(cells, col, cells.len()) {
        lemma_continuation_found(cells, col, cells.len());
    }
    if has_continuation(row, col) {
        let d = choose|d: int|
            0 <= d < row.cells@.len() && (#[trigger] row.cells@[d]).v_merge == VMergeRole::Continue
                && column_start(row.cells@, d as nat) == col;
        lemma_continuation_seen(cells, col, cells.len(), d as nat);
    }
}

proof fn lemma_continuation_found(cells: Seq<CellSpec>, col: nat, n: nat)
    requires
        n <= cells.len(),
        continues_at(cells, col, n),
    ensures
        exists|d: int|
            0 <= d < n && (#[trigger] cells[d]).v_merge == VMergeRole::Continue && column_start(
                cells,
                d as nat,
            ) == col,
    decreases n,
{
    if column_start(cells, (n - 1) as nat) == col {
        assert(cells[n - 1].v_merge == VMergeRole::Continue);
    } else {
        lemma_continuation_found(cells, col, (n - 1) as nat);
    }
}

proof fn lemma_continuation_seen(cells: Seq<CellSpec>, col: nat, n: nat, d: nat)
    requires
        d < n <= cells.len(),
        cells[d as int].v_merge == VMergeRole::Continue,
        column_start(cells, d) == col,
    ensures
        continues_at(cells, col, n),
    decreases n,
{
    if d + 1 < n {
        lemma_starts_distinct(cells, d, (n - 1) as nat);
        lemma_continuation_seen(cells, col, (n - 1) as nat, d);
    }
}

/// In whatever column it stands, the top cell of a vertical merge is as high as
/// its row and the rows below it together, down to the last of an unbroken run
/// of rows that each have a cell starting at the same column and continuing the
/// one above.
pub proof fn law_merge_reaches_down_the_column(
    rows: Seq<RowSpec>,
    heights: Seq<int>,
    r: int,
    c: int,
    end: int,
)
    requires
        0 <= r < end <= rows.len() == heights.len(),
        0 <= c < rows[r].cells@.len(),
        rows[r].cells@[c].v_merge == VMergeRole::Restart,
        forall|k: int|
            r < k < end ==> has_continuation(
                #[trigger] rows[k],
                column_start(rows[r].cells@, c as nat),
            ),
        end < rows.len() ==> !has_continuation(
            rows[end],
            column_start(rows[r].cells@, c as nat),
        ),
    ensures
        cell_height(rows, heights, r, c) == total(heights, end as nat) - total(heights, r as nat),
{
    let col = column_start(rows[r].cells@, c as nat);
    lemma_merge_run(rows, heights, col, r + 1, end);
    assert(total(heights, (r + 1) as nat) == total(heights, r as nat) + heights[r]);
}

proof fn lemma_merge_run(rows: Seq<RowSpec>, heights: Seq<int>, col: nat, k: int, end: int)
    requires
        0 <= k <= end <= rows.len() == heights.len(),
        forall|j: int| k <= j < end ==> has_continuation(#[trigger] rows[j], col),
        end < rows.len() ==> !has_continuation(rows[end], col),
    ensures
        merged_below(rows, heights, col, k) == total(heights, end as nat) - total(
            heights,
            k as nat,
        ),
    decreases end - k,
{
    if k < rows.len() {
        lemma_continuation(rows[k], col);
    }
    if k < end {
        lemma_merge_run(rows, heights, col, k + 1, end);
        assert(total(heights, (k + 1) as nat) == total(heights, k as nat) + heights[k]);
    }
}

/// A cell that is not the top of a vertical merge is as high as its row.
pub proof fn law_plain_cell_is_as_high_as_its_row(
    rows: Seq<RowSpec>,
    heights: Seq<int>,
    r: int,
    c: int,
)
    requires
        0 <= r < rows.len() == heights.len(),
        0 <= c < rows[r].cells@.len(),
        rows[r].cells@[c].v_merge != VMergeRole::Restart,
    ensures
        cell_height(rows, heights, r, c) == heights[r],
{
}

/// Cells stand side by side: the first starts at column 0 and at the table's
/// left edge, and each next one where the one before it ends, in columns and on
/// the page. A cell that names no span covers one column.
pub proof fn law_cells_stand_side_by_side(
    columns: Seq<int>,
    cells: Seq<CellSpec>,
    c: nat,
    available: int,
)
    requires
        c < cells.len(),
    ensures
        column_start(cells, 0) == 0,
        cell_x(columns, cells, 0, available) == 0,
        column_start(cells, c + 1) == column_start(cells, c) + if cells[c as int].grid_span == 0 {
            1
        } else {
            cells[c as int].grid_span as int
        },
        cell_x(columns, cells, c + 1, available) == cell_x(columns, cells, c, available)
            + cell_width(columns, cells, c, available),
{
}

/// Rows stand one below the other: the first at the table's top, each next one
/// where the one before it ends, and the last ends with the table.
pub proof fn law_rows_stand_one_below_the_other(
    t: TableSpec,
    columns: Seq<int>,
    available: int,
    content: Seq<Vec<i32>>,
    unit: u32,
    r: int,
)
    requires
        0 <= r < t.rows@.len(),
    ensures
        ({
            let here = row_place(t, columns, available, content, unit, r);
            let below = total(row_heights(t, content, unit), (r + 1) as nat);
            &&& r == 0 ==> here.y == 0
            &&& here.y + here.height == below
            &&& r + 1 < t.rows@.len() ==> row_place(
                t,
                columns,
                available,
                content,
                unit,
                r + 1,
            ).y == below
            &&& here.cells.len() == t.rows@[r].cells@.len()
            &&& here.header == t.rows@[r].header
            &&& here.cant_split == t.rows@[r].cant_split
            &&& here.width >= cell_x(
                columns,
                t.rows@[r].cells@,
                t.rows@[r].cells@.len(),
                available,
            )
            &&& here.width >= table_width(columns, available)
        }),
{
}

/// A cell that covers columns of the table is as wide as they are together,
/// and at least a pixel.
pub proof fn law_cell_is_as_wide_as_its_columns(
    columns: Seq<int>,
    cells: Seq<CellSpec>,
    c: nat,
    available: int,
)
    requires
        c < cells.len(),
        column_start(cells, c + 1) <= columns.len(),
    ensures
        ({
            let across = total(columns, column_start(cells, c + 1)) - total(
                columns,
                column_start(cells, c),
            );
            let width = cell_width(columns, cells, c, available);
            &&& width >= 64
            &&& across >= 64 ==> width == across
            &&& across < 64 ==> width == 64
        }),
{
    lemma_column_start_bound(cells, c + 1);
}

/// The table is as wide as its columns together, and takes the room there is
/// where they have no width.
pub proof fn law_table_is_as_wide_as_its_columns(columns: Seq<int>, available: int)
    ensures
        total(columns, columns.len()) > 0 ==> table_width(columns, available) == total(
            columns,
            columns.len(),
        ),
        total(columns, columns.len()) <= 0 ==> table_width(columns, available) == available,
        columns.len() == 1 ==> total(columns, 1) == columns[0],
        columns.len() >= 2 ==> total(columns, 2) == columns[0] + columns[1],
{
    reveal_with_fuel(total, 3);
}

/// Fifteen twips are a pixel: a length in layout units is the greatest one that
/// is not longer than the length in twips, as far as it is a coordinate.
pub proof fn law_fifteen_twips_are_a_pixel(twips: i32, unit: u32)
    requires
        -0x8000_0000 * 15 <= twips * unit <= 0x7FFF_FFFF * 15,
    ensures
        15 * units(twips, unit) <= twips * unit < 15 * (units(twips, unit) + 1),
{
}

/// Each side of a cell's padding is the margin on that side.
pub proof fn law_padding_is_the_margin_of_its_side(
    t: TableSpec,
    columns: Seq<int>,
    available: int,
    content: Seq<Vec<i32>>,
    unit: u32,
    r: int,
    c: int,
)
    ensures
        ({
            let frame = cell_frame(t, columns, available, content, unit, r, c);
            let margins = t.rows@[r].cells@[c].margins;
            &&& frame.padding.top == units(margins.top, unit)
            &&& frame.padding.right == units(margins.right, unit)
            &&& frame.padding.bottom == units(margins.bottom, unit)
            &&& frame.padding.left == units(margins.left, unit)
            &&& frame.v_merge == t.rows@[r].cells@[c].v_merge
            &&& t.rows@[r].cells@[c].grid_span > 0 ==> frame.grid_span
                == t.rows@[r].cells@[c].grid_span
        }),
{
}

/// A row is no higher than its tallest cell, or the height that is set on it,
/// asks: its height is one of the heights asked, or nothing. A cell asks for its
/// content and the margins above and below, unless it continues the one above.
pub proof fn law_row_height_is_asked_for(row: RowSpec, content: Seq<i32>, unit: u32)
    requires
        content.len() == row.cells@.len(),
    ensures
        ({
            let height = row_height(row, content, unit);
            ||| height == 0
            ||| row.height matches RowHeight::AtLeast { twips } && height == units(twips, unit)
            ||| row.height matches RowHeight::Exact { twips } && height == units(twips, unit)
            ||| exists|c: int|
                0 <= c < row.cells@.len() && (#[trigger] row.cells@[c]).v_merge
                    != VMergeRole::Continue && height == content[c] + units(
                    row.cells@[c].margins.top,
                    unit,
                ) + units(row.cells@[c].margins.bottom, unit)
        }),
        row.height matches RowHeight::AtLeast { twips } ==> row_height(row, content, unit) >= units(
            twips,
            unit,
        ),
        row.height matches RowHeight::Exact { twips } ==> row_height(row, content, unit) >= units(
            twips,
            unit,
        ),
        forall|c: int|
            0 <= c < row.cells@.len() && (#[trigger] row.cells@[c]).v_merge != VMergeRole::Continue
                ==> row_height(row, content, unit) >= content[c] + units(
                row.cells@[c].margins.top,
                unit,
            ) + units(row.cells@[c].margins.bottom, unit),
{
    lemma_some_cell_asks(row.cells@, content, unit, row.cells@.len());
    assert forall|c: int|
        0 <= c < row.cells@.len() && (#[trigger] row.cells@[c]).v_merge
            != VMergeRole::Continue implies row_height(row, content, unit) >= content[c] + units(
        row.cells@[c].margins.top,
        unit,
    ) + units(row.cells@[c].margins.bottom, unit) by {
        law_row_holds_its_cells(row, content, unit, c as nat);
    }
}

proof fn lemma_some_cell_asks(cells: Seq<CellSpec>, content: Seq<i32>, unit: u32, n: nat)
    requires
        n <= cells.len() == content.len(),
    ensures
        cells_height(cells, content, unit, n) == 0 || exists|c: int|
            0 <= c < n && (#[trigger] cells[c]).v_merge != VMergeRole::Continue && cells_height(
                cells,
                content,
                unit,
                n,
            ) == content[c] + units(cells[c].margins.top, unit) + units(
                cells[c].margins.bottom,
                unit,
            ),
    decreases n,
{
    if n > 0 {
        lemma_some_cell_asks(cells, content, unit, (n - 1) as nat);
        assert(cells[n - 1].v_merge == VMergeRole::Continue || asked_height(
            cells[n - 1],
            content[n - 1],
            unit,
        ) == content[n - 1] + units(cells[n - 1].margins.top, unit) + units(
            cells[n - 1].margins.bottom,
            unit,
        ));
    }
}

/// Content that fits into its cell stands at the top margin, midway between
/// the margins or at the bottom margin, as the cell's alignment says; a cell that
/// continues another one moves nothing.
pub proof fn law_content_stands_as_aligned(cell: CellSpec, height: int, content: i32, unit: u32)
    requires
        0 <= content,
        units(cell.margins.top, unit) + content + units(cell.margins.bottom, unit) <= height,
        units(cell.margins.top, unit) + units(cell.margins.bottom, unit) >= 0,
    ensures
        ({
            let above = content_shift(cell, height, content, unit);
            let below = height - units(cell.margins.top, unit) - units(cell.margins.bottom, unit)
                - content - above;
            if cell.v_merge == VMergeRole::Continue {
                above == 0
            } else {
                match cell.v_align {
                    VerticalAlign::Top => above == 0,
                    VerticalAlign::Center => above <= below <= above + 1,
                    VerticalAlign::Bottom => below == 0,
                }
            }
        }),
{
}

/// A column asks for no less than any cell over it does. A cell asks each
/// column that it covers for an equal part of its natural width and its side
/// margins.
pub proof fn law_column_asks_for_its_widest_cell(
    t: TableSpec,
    natural: Seq<Vec<i32>>,
    unit: u32,
    r: int,
    c: int,
    col: nat,
)
    requires
        0 <= r < t.rows@.len(),
        0 <= c < t.rows@[r].cells@.len(),
        t.rows@[r].cells@[c].v_merge != VMergeRole::Continue,
        column_start(t.rows@[r].cells@, c as nat) <= col < column_start(
            t.rows@[r].cells@,
            (c + 1) as nat,
        ),
    ensures
        ({
            let cell = t.rows@[r].cells@[c];
            let needs = natural[r]@[c] + units(
                clamped(cell.margins.left + cell.margins.right),
                unit,
            );
            let spans = if cell.grid_span == 0 {
                1
            } else {
                cell.grid_span as int
            };
            column_asks(t, natural, unit, col) >= needs / spans
        }),
{
    let cells = t.rows@[r].cells@;
    lemma_cell_is_heard(cells, natural[r]@, unit, col, cells.len(), c as nat);
    lemma_row_is_heard(t.rows@, natural, unit, col, t.rows@.len(), r);
}

proof fn lemma_cell_is_heard(
    cells: Seq<CellSpec>,
    natural: Seq<i32>,
    unit: u32,
    col: nat,
    n: nat,
    c: nat,
)
    requires
        c < n,
        cells[c as int].v_merge != VMergeRole::Continue,
        column_start(cells, c) <= col < column_start(cells, c + 1),
    ensures
        row_asks(cells, natural, unit, col, n) >= share(cells[c as int], natural[c as int], unit),
    decreases n,
{
    if c + 1 < n {
        lemma_cell_is_heard(cells, natural, unit, col, (n - 1) as nat, c);
    }
}

proof fn lemma_row_is_heard(
    rows: Seq<RowSpec>,
    natural: Seq<Vec<i32>>,
    unit: u32,
    col: nat,
    n: nat,
    r: int,
)
    requires
        0 <= r < n,
    ensures
        rows_ask(rows, natural, unit, col, n) >= row_asks(
            rows[r].cells@,
            natural[r]@,
            unit,
            col,
            rows[r].cells@.len(),
        ),
    decreases n,
{
    if r + 1 < n {
        lemma_row_is_heard(rows, natural, unit, col, (n - 1) as nat, r);
    }
}

/// A table with a fixed grid has the grid's columns; one that adjusts has as
/// many as its grid or its widest row, whichever is more.
pub proof fn law_columns_of_a_table(
    t: TableSpec,
    available: i32,
    unit: u32,
    natural: Seq<Vec<i32>>,
    r: int,
)
    requires
        0 <= r < t.rows@.len(),
    ensures
        !t.autofit ==> columns_for(t, available, unit, natural).len() == t.grid@.len() && forall|
            i: int,
        |
            0 <= i < t.grid@.len() ==> columns_for(t, available, unit, natural)[i] == units(
                #[trigger] t.grid@[i],
                unit,
            ),
        t.autofit ==> columns_for(t, available, unit, natural).len() >= t.grid@.len(),
        t.autofit ==> columns_for(t, available, unit, natural).len() >= column_start(
            t.rows@[r].cells@,
            t.rows@[r].cells@.len(),
        ),
{
    lemma_widest_row(t.rows@, t.rows@.len(), r);
}

proof fn lemma_widest_row(rows: Seq<RowSpec>, n: nat, r: int)
    requires
        0 <= r < n,
    ensures
        widest_row(rows, n) >= column_start(rows[r].cells@, rows[r].cells@.len()),
    decreases n,
{
    if r + 1 < n {
        lemma_widest_row(rows, (n - 1) as nat, r);
    }
}

/// Blocks of a cell are stacked: the first at the top, each next one below the
/// one before it.
pub proof fn law_blocks_are_stacked(heights: Seq<i32>, i: int)
    requires
        0 <= i < heights.len(),
    ensures
        stack_tops(heights).len() == heights.len(),
        stack_tops(heights)[0] == 0,
        i + 1 < heights.len() ==> stack_tops(heights)[i + 1] == stack_tops(heights)[i] + heights[i],
{
}

/// What a cell asks of each column that it covers: an equal part of its natural
/// width and its side margins. A cell that continues the one above asks nothing.
pub open spec fn asks_of(cell: CellSpec, natural: i32, unit: u32, part: int) -> bool {
    &&& cell.v_merge != VMergeRole::Continue
    &&& part == (natural + units(clamped(cell.margins.left + cell.margins.right), unit))
        / if cell.grid_span == 0 {
        1
    } else {
        cell.grid_span as int
    }
}

/// A column asks for no more than its content and its grid do: what it asks is
/// the least width, the width that the grid sets, or what a cell over it asks.
pub proof fn law_column_asks_for_no_more(
    t: TableSpec,
    natural: Seq<Vec<i32>>,
    unit: u32,
    col: nat,
)
    ensures
        ({
            let asks = column_asks(t, natural, unit, col);
            ||| asks == 30 * unit
            ||| col < t.grid@.len() && asks == units(t.grid@[col as int], unit)
            ||| exists|r: int, c: int|
                0 <= r < t.rows@.len() && 0 <= c < t.rows@[r].cells@.len() && asks_of(
                    #[trigger] t.rows@[r].cells@[c],
                    natural[r]@[c],
                    unit,
                    asks,
                ) && column_start(t.rows@[r].cells@, c as nat) <= col < column_start(
                    t.rows@[r].cells@,
                    (c + 1) as nat,
                )
        }),
{
    lemma_some_row_asks(t.rows@, natural, unit, col, t.rows@.len());
}

proof fn lemma_some_row_asks(
    rows: Seq<RowSpec>,
    natural: Seq<Vec<i32>>,
    unit: u32,
    col: nat,
    n: nat,
)
    requires
        n <= rows.len(),
    ensures
        ({
            let asks = rows_ask(rows, natural, unit, col, n);
            ||| asks == 30 * unit
            ||| exists|r: int, c: int|
                0 <= r < n && 0 <= c < rows[r].cells@.len() && asks_of(
                    #[trigger] rows[r].cells@[c],
                    natural[r]@[c],
                    unit,
                    asks,
                ) && column_start(rows[r].cells@, c as nat) <= col < column_start(
                    rows[r].cells@,
                    (c + 1) as nat,
                )
        }),
    decreases n,
{
    if n > 0 {
        lemma_some_row_asks(rows, natural, unit, col, (n - 1) as nat);
        let cells = rows[n - 1].cells@;
        lemma_some_cell_asks_width(cells, natural[n - 1]@, unit, col, cells.len());
        if rows_ask(rows, natural, unit, col, n) != rows_ask(
            rows,
            natural,
            unit,
            col,
            (n - 1) as nat,
        ) {
            let asks = row_asks(cells, natural[n - 1]@, unit, col, cells.len());
            if asks != 30 * unit {
                let c = choose|c: int|
                    0 <= c < cells.len() && asks_of(
                        #[trigger] cells[c],
                        natural[n - 1]@[c],
                        unit,
                        asks,
                    ) && column_start(cells, c as nat) <= col < column_start(cells, (c + 1) as nat);
                assert(asks_of(rows[n - 1].cells@[c], natural[n - 1]@[c], unit, asks));
            }
        }
    }
}

proof fn lemma_some_cell_asks_width(
    cells: Seq<CellSpec>,
    natural: Seq<i32>,
    unit: u32,
    col: nat,
    n: nat,
)
    requires
        n <= cells.len(),
    ensures
        ({
            let asks = row_asks(cells, natural, unit, col, n);
            ||| asks == 30 * unit
            ||| exists|c: int|
                0 <= c < n && asks_of(#[trigger] cells[c], natural[c], unit, asks) && column_start(
                    cells,
                    c as nat,
                ) <= col < column_start(cells, (c + 1) as nat)
        }),
    decreases n,
{
    if n > 0 {
        lemma_some_cell_asks_width(cells, natural, unit, col, (n - 1) as nat);
        let asks = row_asks(cells, natural, unit, col, n);
        if asks != row_asks(cells, natural, unit, col, (n - 1) as nat) {
            assert(asks_of(cells[n - 1], natural[n - 1], unit, asks));
        }
    }
}

/// Where the grid sets no more, columns share the room in proportion to what
/// they ask: a column's part of the room and its part of all that is asked differ
/// by less than one unit.
pub proof fn law_shares_are_proportional(asks: Seq<int>, available: int, i: int)
    requires
        0 <= i < asks.len(),
        total(asks, asks.len()) > 0,
    ensures
        ({
            let sum = total(asks, asks.len());
            let part = distributed(asks, available)[i];
            part * sum <= asks[i] * available < (part + 1) * sum
        }),
{
    let sum = total(asks, asks.len());
    let whole = asks[i] * available;
    assert((whole / sum) * sum <= whole < (whole / sum + 1) * sum) by (nonlinear_arith)
        requires
            sum > 0,
    ;
}

/// A column of a table that adjusts is its share, or what the grid sets for it
/// where that is more.
pub proof fn law_columns_are_shares_or_grid(
    t: TableSpec,
    available: int,
    unit: u32,
    natural: Seq<Vec<i32>>,
    i: int,
)
    requires
        0 <= i < columns_of(t),
    ensures
        ({
            let share = distributed(all_asks(t, natural, unit, columns_of(t)), available)[i];
            let width = fitted(t, available, unit, natural)[i];
            &&& all_asks(t, natural, unit, columns_of(t))[i] == column_asks(
                t,
                natural,
                unit,
                i as nat,
            )
            &&& i >= t.grid@.len() ==> width == share
            &&& i < t.grid@.len() && units(t.grid@[i], unit) <= share ==> width == share
            &&& i < t.grid@.len() && units(t.grid@[i], unit) > share ==> width == units(
                t.grid@[i],
                unit,
            )
        }),
{
}

/// A table has as many columns as its grid or one of its rows, and no more.
pub proof fn law_no_column_too_many(t: TableSpec)
    ensures
        columns_of(t) == t.grid@.len() || exists|r: int|
            0 <= r < t.rows@.len() && columns_of(t) == column_start(
                (#[trigger] t.rows@[r]).cells@,
                t.rows@[r].cells@.len(),
            ),
        columns_of(t) >= t.grid@.len(),
{
    lemma_widest_is_a_row(t.rows@, t.rows@.len());
}

proof fn lemma_widest_is_a_row(rows: Seq<RowSpec>, n: nat)
    requires
        n <= rows.len(),
    ensures
        widest_row(rows, n) == 0 || exists|r: int|
            0 <= r < n && widest_row(rows, n) == column_start(
                (#[trigger] rows[r]).cells@,
                rows[r].cells@.len(),
            ),
    decreases n,
{
    if n > 0 {
        lemma_widest_is_a_row(rows, (n - 1) as nat);
        if widest_row(rows, n) != widest_row(rows, (n - 1) as nat) {
            assert(widest_row(rows, n) == column_start(rows[n - 1].cells@, rows[n - 1].cells@.len()));
        }
    }
}

/// Content gets what its cell has between the margins at its two sides, and
/// nothing where they leave nothing. Cells are measured at an equal share of the
/// room, and at thirty points at least.
pub proof fn law_room_for_content(
    columns: Seq<int>,
    cells: Seq<CellSpec>,
    c: nat,
    available: i32,
    unit: u32,
    n: nat,
)
    requires
        n > 0,
    ensures
        ({
            let between = cell_width(columns, cells, c, available as int) - units(
                cells[c as int].margins.left,
                unit,
            ) - units(cells[c as int].margins.right, unit);
            let width = content_width(columns, cells, c, available as int, unit);
            &&& between >= 0 ==> width == between
            &&& between < 0 ==> width == 0
        }),
        probe_width(available, n, unit) >= 30 * unit,
        probe_width(available, n, unit) >= available as int / n as int,
        probe_width(available, n, unit) == 30 * unit || probe_width(available, n, unit)
            == available as int / n as int,
{
}

} // verus!
