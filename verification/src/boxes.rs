//! Laid-out pages, and their flattening into line geometry.

use crate::common::{last_block, BlockPath, Direction, LogicalPos, PathStep};
use crate::document::{paths_view, VMergeRole};
use crate::geometry::{hit_test, hit_test_geom, CaretSlot, LineGeom, RunGeom};
use vstd::prelude::*;

verus! {

broadcast use vstd::seq_lib::group_seq_properties;

/// A placed glyph. `cluster` counts bytes from the start of its run; a
/// synthetic glyph stretches the line and is no caret stop.
#[derive(Clone, Copy, Debug, PartialEq, Eq, Structural)]
pub struct Glyph {
    pub cluster: u32,
    pub x_advance: i32,
    pub synthetic: bool,
}

/// A run of glyphs in one direction, in visual order.
#[derive(Debug, PartialEq, Eq)]
pub struct VisualRun {
    pub glyphs: Vec<Glyph>,
    pub direction: Direction,
    pub source_start: u32,
    pub source_end: u32,
}

/// A line, placed relative to its paragraph.
#[derive(Debug, PartialEq, Eq)]
pub struct LineBox {
    pub x: i32,
    pub y: i32,
    pub height: i32,
    pub runs: Vec<VisualRun>,
}

/// A paragraph, placed relative to its container.
#[derive(Debug, PartialEq, Eq)]
pub struct ParagraphBox {
    pub x: i32,
    pub y: i32,
    pub lines: Vec<LineBox>,
    /// The number of the paragraph in document order.
    pub source_id: u32,
}

/// A cell, placed relative to its row.
#[derive(Debug, PartialEq, Eq)]
pub struct CellBox {
    pub x: i32,
    pub y: i32,
    pub width: i32,
    pub v_merge: VMergeRole,
    pub content: Vec<LayoutBlock>,
}

/// A row, placed relative to its table.
#[derive(Debug, PartialEq, Eq)]
pub struct RowBox {
    pub x: i32,
    pub y: i32,
    pub cells: Vec<CellBox>,
}

/// A table, placed relative to its container.
#[derive(Debug, PartialEq, Eq)]
pub struct TableBox {
    pub x: i32,
    pub y: i32,
    pub rows: Vec<RowBox>,
}

/// A laid-out block.
#[derive(Debug, PartialEq, Eq)]
pub enum LayoutBlock {
    Paragraph(ParagraphBox),
    Table(TableBox),
}

/// A laid-out page.
#[derive(Debug, PartialEq, Eq)]
pub struct PageBox {
    pub width: i32,
    pub height: i32,
    pub margin_left: i32,
    pub margin_right: i32,
    pub margin_top: i32,
    pub blocks: Vec<LayoutBlock>,
}

/// What a run's geometry says.
pub ghost struct RunSlots {
    pub src_start: u32,
    pub src_end: u32,
    pub slots: Seq<CaretSlot>,
}

/// What a line's geometry says.
pub ghost struct LineShape {
    pub path: Seq<PathStep>,
    pub start_x: i32,
    pub hit_left: i32,
    pub hit_width: i32,
    pub y_top: i32,
    pub height: i32,
    pub start_byte: u32,
    pub end_byte: u32,
    pub slots: Seq<CaretSlot>,
    pub runs: Seq<RunSlots>,
}

impl View for RunGeom {
    type V = RunSlots;

    open spec fn view(&self) -> RunSlots {
        RunSlots { src_start: self.src_start, src_end: self.src_end, slots: self.slots@ }
    }
}

/// What a list of runs says.
pub open spec fn runs_shape(s: Seq<RunGeom>) -> Seq<RunSlots> {
    s.map_values(|r: RunGeom| r@)
}

impl View for LineGeom {
    type V = LineShape;

    open spec fn view(&self) -> LineShape {
        LineShape {
            path: self.path@,
            start_x: self.start_x,
            hit_left: self.hit_left,
            hit_width: self.hit_width,
            y_top: self.y_top,
            height: self.height,
            start_byte: self.start_byte,
            end_byte: self.end_byte,
            slots: self.slots@,
            runs: runs_shape(self.runs@),
        }
    }
}

/// What a list of lines says.
pub open spec fn lines_shape(s: Seq<LineGeom>) -> Seq<LineShape> {
    s.map_values(|l: LineGeom| l@)
}

/// `v`, or the nearest coordinate when it is out of range.
pub open spec fn clamped(v: int) -> i32 {
    if v < i32::MIN {
        i32::MIN
    } else if v > i32::MAX {
        i32::MAX
    } else {
        v as i32
    }
}

/// The nearest number that is a coordinate.
pub fn clamp32(v: i128) -> (r: i32)
    ensures
        r == clamped(v as int),
{
    if v < i32::MIN as i128 {
        i32::MIN
    } else if v > i32::MAX as i128 {
        i32::MAX
    } else {
        v as i32
    }
}

/// The sum of two coordinates.
pub open spec fn placed(a: i32, b: i32) -> i32 {
    clamped(a + b)
}

/// The sum of two coordinates, kept in range.
pub fn place(a: i32, b: i32) -> (r: i32)
    ensures
        r == placed(a, b),
{
    clamp32(a as i128 + b as i128)
}

/// How far the first `n` glyphs advance the pen.
pub open spec fn advance(glyphs: Seq<Glyph>, n: nat) -> int
    decreases n,
{
    if n == 0 {
        0
    } else {
        advance(glyphs, (n - 1) as nat) + glyphs[n - 1].x_advance
    }
}

/// Where run `k` of a line that starts at `x` begins.
pub open spec fn run_x(runs: Seq<VisualRun>, x: i32, k: nat) -> i32
    decreases k,
{
    if k == 0 {
        x
    } else {
        let glyphs = runs[k - 1].glyphs@;
        clamped(run_x(runs, x, (k - 1) as nat) + advance(glyphs, glyphs.len()))
    }
}

/// The slot of glyph `i` of a run that begins at `x`. The caret stands at the
/// glyph's left edge in a left-to-right run and at its right edge otherwise.
pub open spec fn glyph_slot(run: VisualRun, x: i32, i: int) -> CaretSlot {
    CaretSlot {
        x: clamped(
            x + advance(
                run.glyphs@,
                if run.direction == Direction::Ltr {
                    i as nat
                } else {
                    (i + 1) as nat
                },
            ),
        ),
        byte: (run.source_start + run.glyphs@[i].cluster) as u32,
    }
}

/// The slots of the first `n` glyphs of a run.
pub open spec fn glyph_slots(run: VisualRun, x: i32, n: nat) -> Seq<CaretSlot>
    decreases n,
{
    if n == 0 {
        Seq::empty()
    } else {
        let head = glyph_slots(run, x, (n - 1) as nat);
        if run.glyphs@[n - 1].synthetic {
            head
        } else {
            head.push(glyph_slot(run, x, n - 1))
        }
    }
}

/// The slots of a run that begins at `x`: one per glyph that is a caret stop,
/// and one for the end of the run's bytes at its far edge.
pub open spec fn run_slots(run: VisualRun, x: i32) -> RunSlots {
    let n = run.glyphs@.len();
    RunSlots {
        src_start: run.source_start,
        src_end: run.source_end,
        slots: glyph_slots(run, x, n).push(
            CaretSlot {
                x: if run.direction == Direction::Ltr {
                    clamped(x + advance(run.glyphs@, n))
                } else {
                    x
                },
                byte: run.source_end,
            },
        ),
    }
}

/// The byte offset of every glyph fits.
pub open spec fn run_fits(run: VisualRun) -> bool {
    forall|i: int|
        0 <= i < run.glyphs@.len() ==> run.source_start + (#[trigger] run.glyphs@[i]).cluster
            <= u32::MAX
}

/// The byte offset of every glyph of a line fits.
pub open spec fn line_fits(line: LineBox) -> bool {
    forall|k: int| 0 <= k < line.runs@.len() ==> run_fits(#[trigger] line.runs@[k])
}

/// The geometry of the runs of a line that starts at `x`.
pub open spec fn line_runs(line: LineBox, x: i32) -> Seq<RunSlots> {
    Seq::new(line.runs@.len(), |k: int| run_slots(line.runs@[k], run_x(line.runs@, x, k as nat)))
}

proof fn lemma_advance_bound(glyphs: Seq<Glyph>, n: nat)
    requires
        n <= glyphs.len(),
    ensures
        -0x8000_0000 * n <= advance(glyphs, n) <= 0x8000_0000 * n,
    decreases n,
{
    if n > 0 {
        lemma_advance_bound(glyphs, (n - 1) as nat);
    }
}

fn build_run(run: &VisualRun, x: i32) -> (r: (RunGeom, i32))
    requires
        run_fits(*run),
    ensures
        r.0@ == run_slots(*run, x),
        r.1 == clamped(x + advance(run.glyphs@, run.glyphs@.len())),
{
    let ltr: bool = run.direction == Direction::Ltr;
    let mut slots: Vec<CaretSlot> = Vec::new();
    let mut cum: i128 = 0;
    let mut i: usize = 0;
    while i < run.glyphs.len()
        invariant
            i <= run.glyphs@.len(),
            run_fits(*run),
            ltr == (run.direction == Direction::Ltr),
            cum == advance(run.glyphs@, i as nat),
            slots@ == glyph_slots(*run, x, i as nat),
        decreases run.glyphs.len() - i,
    {
        let g = run.glyphs[i];
        proof {
            lemma_advance_bound(run.glyphs@, i as nat);
        }
        let after: i128 = cum + g.x_advance as i128;
        if !g.synthetic {
            let edge: i128 = if ltr {
                cum
            } else {
                after
            };
            proof {
                lemma_advance_bound(run.glyphs@, (i + 1) as nat);
            }
            slots.push(CaretSlot { x: clamp32(x as i128 + edge), byte: run.source_start + g.cluster });
        }
        cum = after;
        i += 1;
    }
    proof {
        lemma_advance_bound(run.glyphs@, run.glyphs@.len());
    }
    let far: i32 = clamp32(x as i128 + cum);
    slots.push(
        CaretSlot {
            x: if ltr {
                far
            } else {
                x
            },
            byte: run.source_end,
        },
    );
    (RunGeom { src_start: run.source_start, src_end: run.source_end, slots }, far)
}

/// Flatten one line into the geometry of its runs. `line_abs_x` is the line's
/// absolute left edge.
pub fn build_line_run_geom(line: &LineBox, line_abs_x: i32) -> (r: Vec<RunGeom>)
    requires
        line_fits(*line),
    ensures
        runs_shape(r@) == line_runs(*line, line_abs_x),
{
    let mut out: Vec<RunGeom> = Vec::new();
    let mut x: i32 = line_abs_x;
    let mut k: usize = 0;
    assert(runs_shape(out@) =~= line_runs(*line, line_abs_x).take(0));
    while k < line.runs.len()
        invariant
            k <= line.runs@.len(),
            line_fits(*line),
            x == run_x(line.runs@, line_abs_x, k as nat),
            runs_shape(out@) == line_runs(*line, line_abs_x).take(k as int),
        decreases line.runs.len() - k,
    {
        let (run, far) = build_run(&line.runs[k], x);
        let ghost before = out@;
        out.push(run);
        assert(runs_shape(out@) =~= runs_shape(before).push(run@));
        x = far;
        k += 1;
        assert(runs_shape(out@) =~= line_runs(*line, line_abs_x).take(k as int));
    }
    assert(line_runs(*line, line_abs_x).take(k as int) =~= line_runs(*line, line_abs_x));
    out
}

/// The first byte of the first `n` runs; zero without runs.
pub open spec fn first_byte(runs: Seq<VisualRun>, n: nat) -> u32
    decreases n,
{
    if n == 0 {
        0
    } else if n == 1 {
        runs[0].source_start
    } else {
        let m = first_byte(runs, (n - 1) as nat);
        if runs[n - 1].source_start < m {
            runs[n - 1].source_start
        } else {
            m
        }
    }
}

/// The end byte of the first `n` runs; zero without runs.
pub open spec fn last_byte(runs: Seq<VisualRun>, n: nat) -> u32
    decreases n,
{
    if n == 0 {
        0
    } else {
        let m = last_byte(runs, (n - 1) as nat);
        if runs[n - 1].source_end > m {
            runs[n - 1].source_end
        } else {
            m
        }
    }
}

/// The slots of the first `n` runs, one after another.
pub open spec fn all_slots(runs: Seq<RunSlots>, n: nat) -> Seq<CaretSlot>
    decreases n,
{
    if n == 0 {
        Seq::empty()
    } else {
        all_slots(runs, (n - 1) as nat) + runs[n - 1].slots
    }
}

/// The geometry of a line of the paragraph at `path` whose origin is
/// `(px, py)`, with the hit target of its container.
pub open spec fn line_shape(
    line: LineBox,
    px: i32,
    py: i32,
    hit_left: i32,
    hit_width: i32,
    path: Seq<PathStep>,
) -> LineShape {
    let x = placed(px, line.x);
    let runs = line_runs(line, x);
    LineShape {
        path,
        start_x: x,
        hit_left,
        hit_width,
        y_top: placed(py, line.y),
        height: line.height,
        start_byte: first_byte(line.runs@, line.runs@.len()),
        end_byte: last_byte(line.runs@, line.runs@.len()),
        slots: all_slots(runs, runs.len()),
        runs,
    }
}

/// The byte offset of every glyph of a paragraph fits.
pub open spec fn para_fits(p: ParagraphBox) -> bool {
    forall|i: int| 0 <= i < p.lines@.len() ==> line_fits(#[trigger] p.lines@[i])
}

/// The geometry of the lines of a paragraph in a container at `(ox, oy)`.
pub open spec fn para_shape(
    p: ParagraphBox,
    ox: i32,
    oy: i32,
    hit_left: i32,
    hit_width: i32,
    path: Seq<PathStep>,
) -> Seq<LineShape> {
    Seq::new(
        p.lines@.len(),
        |i: int|
            line_shape(p.lines@[i], placed(ox, p.x), placed(oy, p.y), hit_left, hit_width, path),
    )
}

fn byte_span(runs: &Vec<VisualRun>) -> (r: (u32, u32))
    ensures
        r.0 == first_byte(runs@, runs@.len()),
        r.1 == last_byte(runs@, runs@.len()),
{
    let mut lo: u32 = 0;
    let mut hi: u32 = 0;
    let mut k: usize = 0;
    while k < runs.len()
        invariant
            k <= runs@.len(),
            lo == first_byte(runs@, k as nat),
            hi == last_byte(runs@, k as nat),
        decreases runs.len() - k,
    {
        if k == 0 || runs[k].source_start < lo {
            lo = runs[k].source_start;
        }
        if runs[k].source_end > hi {
            hi = runs[k].source_end;
        }
        k += 1;
    }
    (lo, hi)
}

fn flatten_slots(runs: &Vec<RunGeom>) -> (r: Vec<CaretSlot>)
    ensures
        r@ == all_slots(runs_shape(runs@), runs@.len()),
{
    let ghost shape = runs_shape(runs@);
    let mut out: Vec<CaretSlot> = Vec::new();
    let mut k: usize = 0;
    while k < runs.len()
        invariant
            k <= runs@.len(),
            shape == runs_shape(runs@),
            out@ == all_slots(shape, k as nat),
        decreases runs.len() - k,
    {
        let ghost before = out@;
        let mut i: usize = 0;
        assert(out@ =~= before + runs@[k as int].slots@.take(0));
        while i < runs[k].slots.len()
            invariant
                k < runs@.len(),
                i <= runs@[k as int].slots@.len(),
                out@ == before + runs@[k as int].slots@.take(i as int),
            decreases runs[k as int].slots.len() - i,
        {
            out.push(runs[k].slots[i]);
            i += 1;
            assert(out@ =~= before + runs@[k as int].slots@.take(i as int));
        }
        assert(runs@[k as int].slots@.take(i as int) =~= shape[k as int].slots);
        k += 1;
    }
    out
}

/// Append the geometry of a paragraph's lines, stamped with `path`. The
/// container's left edge and width are each line's hit target.
pub fn collect_paragraph_line_geom(
    para_box: &ParagraphBox,
    parent_origin_x: i32,
    parent_origin_y: i32,
    container_left: i32,
    container_width: i32,
    path: &BlockPath,
    out: &mut Vec<LineGeom>,
)
    requires
        para_fits(*para_box),
    ensures
        lines_shape(final(out)@) == lines_shape(old(out)@) + para_shape(
            *para_box,
            parent_origin_x,
            parent_origin_y,
            container_left,
            container_width,
            path@,
        ),
{
    let ghost before = lines_shape(out@);
    let ghost shape = para_shape(
        *para_box,
        parent_origin_x,
        parent_origin_y,
        container_left,
        container_width,
        path@,
    );
    let para_x: i32 = place(parent_origin_x, para_box.x);
    let para_y: i32 = place(parent_origin_y, para_box.y);
    let mut i: usize = 0;
    assert(lines_shape(out@) =~= before + shape.take(0));
    while i < para_box.lines.len()
        invariant
            i <= para_box.lines@.len(),
            para_fits(*para_box),
            para_x == placed(parent_origin_x, para_box.x),
            para_y == placed(parent_origin_y, para_box.y),
            shape == para_shape(
                *para_box,
                parent_origin_x,
                parent_origin_y,
                container_left,
                container_width,
                path@,
            ),
            lines_shape(out@) == before + shape.take(i as int),
        decreases para_box.lines.len() - i,
    {
        let line: &LineBox = &para_box.lines[i];
        let x: i32 = place(para_x, line.x);
        let (start_byte, end_byte) = byte_span(&line.runs);
        let runs = build_line_run_geom(line, x);
        let slots = flatten_slots(&runs);
        let ghost so_far = out@;
        let geom = LineGeom {
            path: path.clone(),
            start_x: x,
            hit_left: container_left,
            hit_width: container_width,
            y_top: place(para_y, line.y),
            height: line.height,
            start_byte,
            end_byte,
            slots,
            runs,
        };
        assert(geom@ == shape[i as int]);
        out.push(geom);
        assert(lines_shape(out@) =~= lines_shape(so_far).push(geom@));
        i += 1;
        assert(lines_shape(out@) =~= before + shape.take(i as int));
    }
    assert(shape.take(i as int) =~= shape);
}

/// The path of block `b` in cell `(r, c)` of the top-level table `t`.
pub open spec fn cell_path(t: u32, r: int, c: int, b: int) -> Seq<PathStep> {
    seq![
        PathStep::Block { idx: t },
        PathStep::Cell { row: r as u32, col: c as u32 },
        PathStep::Block { idx: b as u32 },
    ]
}

/// The geometry of the first `n` blocks of a cell. A nested table has none.
pub open spec fn cell_shape(cell: CellBox, x: i32, y: i32, t: u32, r: int, c: int, n: nat) -> Seq<
    LineShape,
>
    decreases n,
{
    if n == 0 {
        Seq::empty()
    } else {
        cell_shape(cell, x, y, t, r, c, (n - 1) as nat) + (match cell.content@[n - 1] {
            LayoutBlock::Paragraph(p) => para_shape(p, x, y, x, cell.width, cell_path(t, r, c, n - 1)),
            LayoutBlock::Table(_) => Seq::empty(),
        })
    }
}

/// The geometry of the first `n` cells of a row at `(x, y)`. Cells that
/// continue a merge have none.
pub open spec fn row_shape(row: RowBox, x: i32, y: i32, t: u32, r: int, n: nat) -> Seq<LineShape>
    decreases n,
{
    if n == 0 {
        Seq::empty()
    } else {
        let cell = row.cells@[n - 1];
        row_shape(row, x, y, t, r, (n - 1) as nat) + (if cell.v_merge == VMergeRole::Continue {
            Seq::empty()
        } else {
            cell_shape(
                cell,
                placed(x, cell.x),
                placed(y, cell.y),
                t,
                r,
                n - 1,
                cell.content@.len(),
            )
        })
    }
}

/// The geometry of the first `n` rows of a table at `(x, y)`.
pub open spec fn table_shape(table: TableBox, x: i32, y: i32, t: u32, n: nat) -> Seq<LineShape>
    decreases n,
{
    if n == 0 {
        Seq::empty()
    } else {
        let row = table.rows@[n - 1];
        table_shape(table, x, y, t, (n - 1) as nat) + row_shape(
            row,
            placed(x, row.x),
            placed(y, row.y),
            t,
            n - 1,
            row.cells@.len(),
        )
    }
}

/// The byte offset of every glyph in a cell's paragraphs fits.
pub open spec fn cell_fits(cell: CellBox) -> bool {
    forall|b: int|
        0 <= b < cell.content@.len() ==> (#[trigger] cell.content@[b] matches LayoutBlock::Paragraph(
            p,
        ) ==> para_fits(p))
}

/// The byte offset of every glyph in a table's cells fits.
pub open spec fn table_fits(table: TableBox) -> bool {
    forall|r: int, c: int|
        0 <= r < table.rows@.len() && 0 <= c < table.rows@[r].cells@.len() ==> cell_fits(
            #[trigger] table.rows@[r].cells@[c],
        )
}

fn collect_cell(cell: &CellBox, x: i32, y: i32, t: u32, r: usize, c: usize, out: &mut Vec<LineGeom>)
    requires
        cell_fits(*cell),
    ensures
        lines_shape(final(out)@) == lines_shape(old(out)@) + cell_shape(
            *cell,
            x,
            y,
            t,
            r as int,
            c as int,
            cell.content@.len(),
        ),
{
    let ghost before = lines_shape(out@);
    let mut b: usize = 0;
    assert(lines_shape(out@) =~= before + cell_shape(*cell, x, y, t, r as int, c as int, 0));
    while b < cell.content.len()
        invariant
            b <= cell.content@.len(),
            cell_fits(*cell),
            lines_shape(out@) == before + cell_shape(*cell, x, y, t, r as int, c as int, b as nat),
        decreases cell.content.len() - b,
    {
        let ghost so_far = lines_shape(out@);
        if let LayoutBlock::Paragraph(p) = &cell.content[b] {
            let path = BlockPath::top(t).child(
                PathStep::Cell { row: r as u32, col: c as u32 },
            ).child(PathStep::Block { idx: b as u32 });
            assert(path@ =~= cell_path(t, r as int, c as int, b as int));
            assert(cell.content@[b as int] == LayoutBlock::Paragraph(*p));
            collect_paragraph_line_geom(p, x, y, x, cell.width, &path, out);
        } else {
            assert(lines_shape(out@) =~= so_far + Seq::empty());
        }
        b += 1;
        assert(lines_shape(out@) =~= before + cell_shape(
            *cell,
            x,
            y,
            t,
            r as int,
            c as int,
            b as nat,
        ));
    }
}

/// Append the geometry of every paragraph in a table's cells.
pub fn collect_table_line_geom(
    table_box: &TableBox,
    table_block_idx: u32,
    table_origin_x: i32,
    table_origin_y: i32,
    out: &mut Vec<LineGeom>,
)
    requires
        table_fits(*table_box),
    ensures
        lines_shape(final(out)@) == lines_shape(old(out)@) + table_shape(
            *table_box,
            table_origin_x,
            table_origin_y,
            table_block_idx,
            table_box.rows@.len(),
        ),
{
    let ghost before = lines_shape(out@);
    let (x, y, t): (i32, i32, u32) = (table_origin_x, table_origin_y, table_block_idx);
    let mut r: usize = 0;
    assert(lines_shape(out@) =~= before + table_shape(*table_box, x, y, t, 0));
    while r < table_box.rows.len()
        invariant
            r <= table_box.rows@.len(),
            table_fits(*table_box),
            lines_shape(out@) == before + table_shape(*table_box, x, y, t, r as nat),
        decreases table_box.rows.len() - r,
    {
        let row: &RowBox = &table_box.rows[r];
        let row_x: i32 = place(x, row.x);
        let row_y: i32 = place(y, row.y);
        let ghost so_far = lines_shape(out@);
        let mut c: usize = 0;
        assert(lines_shape(out@) =~= so_far + row_shape(*row, row_x, row_y, t, r as int, 0));
        while c < row.cells.len()
            invariant
                r < table_box.rows@.len(),
                *row == table_box.rows@[r as int],
                c <= row.cells@.len(),
                table_fits(*table_box),
                lines_shape(out@) == so_far + row_shape(*row, row_x, row_y, t, r as int, c as nat),
            decreases row.cells.len() - c,
        {
            let cell: &CellBox = &row.cells[c];
            let ghost cells_so_far = lines_shape(out@);
            assert(cell_fits(table_box.rows@[r as int].cells@[c as int]));
            if cell.v_merge != VMergeRole::Continue {
                collect_cell(cell, place(row_x, cell.x), place(row_y, cell.y), t, r, c, out);
            } else {
                assert(lines_shape(out@) =~= cells_so_far + Seq::empty());
            }
            c += 1;
            assert(lines_shape(out@) =~= so_far + row_shape(
                *row,
                row_x,
                row_y,
                t,
                r as int,
                c as nat,
            ));
        }
        r += 1;
        assert(lines_shape(out@) =~= before + table_shape(*table_box, x, y, t, r as nat));
    }
}

/// The top of page `n` when pages stand `page_gap` apart.
pub open spec fn page_top(pages: Seq<PageBox>, page_gap: i32, n: nat) -> i32
    decreases n,
{
    if n == 0 {
        0
    } else {
        clamped(page_top(pages, page_gap, (n - 1) as nat) + pages[n - 1].height + page_gap)
    }
}

/// The geometry of the first `n` blocks of a page whose top is `top`. A block
/// without a path has none.
pub open spec fn page_shape(page: PageBox, top: i32, paths: Seq<Seq<PathStep>>, n: nat) -> Seq<
    LineShape,
>
    decreases n,
{
    if n == 0 {
        Seq::empty()
    } else {
        let x = page.margin_left;
        let y = placed(top, page.margin_top);
        let i = n - 1;
        page_shape(page, top, paths, (n - 1) as nat) + (if i < paths.len() {
            match page.blocks@[i] {
                LayoutBlock::Paragraph(p) => para_shape(
                    p,
                    x,
                    y,
                    x,
                    clamped(page.width - page.margin_left - page.margin_right),
                    paths[i],
                ),
                LayoutBlock::Table(t) => table_shape(
                    t,
                    placed(x, t.x),
                    placed(y, t.y),
                    match last_block(paths[i]) {
                        Some(idx) => idx,
                        None => 0,
                    },
                    t.rows@.len(),
                ),
            }
        } else {
            Seq::empty()
        })
    }
}

/// What a list of path lists says.
pub open spec fn page_paths_view(s: Seq<Vec<BlockPath>>, i: int) -> Seq<Seq<PathStep>> {
    if 0 <= i < s.len() {
        paths_view(s[i]@)
    } else {
        Seq::empty()
    }
}

/// The geometry of the first `n` pages.
pub open spec fn pages_shape(
    pages: Seq<PageBox>,
    page_paths: Seq<Vec<BlockPath>>,
    page_gap: i32,
    n: nat,
) -> Seq<LineShape>
    decreases n,
{
    if n == 0 {
        Seq::empty()
    } else {
        pages_shape(pages, page_paths, page_gap, (n - 1) as nat) + page_shape(
            pages[n - 1],
            page_top(pages, page_gap, (n - 1) as nat),
            page_paths_view(page_paths, n - 1),
            pages[n - 1].blocks@.len(),
        )
    }
}

/// The byte offset of every glyph of a page fits.
pub open spec fn page_fits(page: PageBox) -> bool {
    forall|i: int|
        0 <= i < page.blocks@.len() ==> match #[trigger] page.blocks@[i] {
            LayoutBlock::Paragraph(p) => para_fits(p),
            LayoutBlock::Table(t) => table_fits(t),
        }
}

fn collect_page(page: &PageBox, top: i32, paths: &Vec<BlockPath>, out: &mut Vec<LineGeom>)
    requires
        page_fits(*page),
    ensures
        lines_shape(final(out)@) == lines_shape(old(out)@) + page_shape(
            *page,
            top,
            paths_view(paths@),
            page.blocks@.len(),
        ),
{
    let ghost before = lines_shape(out@);
    let ghost pv = paths_view(paths@);
    let x: i32 = page.margin_left;
    let y: i32 = place(top, page.margin_top);
    let w: i32 = clamp32(
        page.width as i128 - page.margin_left as i128 - page.margin_right as i128,
    );
    let mut i: usize = 0;
    assert(lines_shape(out@) =~= before + page_shape(*page, top, pv, 0));
    while i < page.blocks.len()
        invariant
            i <= page.blocks@.len(),
            page_fits(*page),
            pv == paths_view(paths@),
            x == page.margin_left,
            y == placed(top, page.margin_top),
            w == clamped(page.width - page.margin_left - page.margin_right),
            lines_shape(out@) == before + page_shape(*page, top, pv, i as nat),
        decreases page.blocks.len() - i,
    {
        let ghost so_far = lines_shape(out@);
        if i < paths.len() {
            match &page.blocks[i] {
                LayoutBlock::Paragraph(p) => {
                    assert(page.blocks@[i as int] == LayoutBlock::Paragraph(*p));
                    collect_paragraph_line_geom(p, x, y, x, w, &paths[i], out);
                },
                LayoutBlock::Table(t) => {
                    assert(page.blocks@[i as int] == LayoutBlock::Table(*t));
                    let idx: u32 = match paths[i].last_block_index() {
                        Some(idx) => idx,
                        None => 0,
                    };
                    collect_table_line_geom(t, idx, place(x, t.x), place(y, t.y), out);
                },
            }
        } else {
            assert(lines_shape(out@) =~= so_far + Seq::empty());
        }
        i += 1;
        assert(lines_shape(out@) =~= before + page_shape(*page, top, pv, i as nat));
    }
}

/// Flatten laid-out pages into line geometry. `page_paths` gives the path of
/// each page's blocks, and pages stand `page_gap` apart.
pub fn document_geometry(
    pages: &Vec<PageBox>,
    page_paths: &Vec<Vec<BlockPath>>,
    page_gap: i32,
) -> (r: Vec<LineGeom>)
    requires
        forall|i: int| 0 <= i < pages@.len() ==> page_fits(#[trigger] pages@[i]),
    ensures
        lines_shape(r@) == pages_shape(pages@, page_paths@, page_gap, pages@.len()),
{
    let mut out: Vec<LineGeom> = Vec::new();
    let none: Vec<BlockPath> = Vec::new();
    let mut top: i32 = 0;
    let mut i: usize = 0;
    assert(lines_shape(out@) =~= pages_shape(pages@, page_paths@, page_gap, 0));
    while i < pages.len()
        invariant
            i <= pages@.len(),
            forall|i: int| 0 <= i < pages@.len() ==> page_fits(#[trigger] pages@[i]),
            none@.len() == 0,
            top == page_top(pages@, page_gap, i as nat),
            lines_shape(out@) == pages_shape(pages@, page_paths@, page_gap, i as nat),
        decreases pages.len() - i,
    {
        if i < page_paths.len() {
            collect_page(&pages[i], top, &page_paths[i], &mut out);
        } else {
            assert(paths_view(none@) =~= Seq::empty());
            collect_page(&pages[i], top, &none, &mut out);
        }
        top = clamp32(top as i128 + pages[i].height as i128 + page_gap as i128);
        i += 1;
    }
    out
}

/// The document-space y of a point on page `page_idx`: pages past the end
/// count as the last page's bottom.
pub fn page_offset(pages: &Vec<PageBox>, page_gap: i32, page_idx: u32) -> (r: i32)
    ensures
        r == page_top(
            pages@,
            page_gap,
            if page_idx < pages@.len() {
                page_idx as nat
            } else {
                pages@.len()
            },
        ),
{
    let mut top: i32 = 0;
    let mut i: usize = 0;
    while i < pages.len() && i < page_idx as usize
        invariant
            i <= pages@.len(),
            i <= page_idx,
            top == page_top(pages@, page_gap, i as nat),
        decreases pages.len() - i,
    {
        top = clamp32(top as i128 + pages[i].height as i128 + page_gap as i128);
        i += 1;
    }
    top
}

/// Whether the byte offset of every glyph of a line fits.
fn check_line_fits(line: &LineBox) -> (r: bool)
    ensures
        r == line_fits(*line),
{
    let mut k: usize = 0;
    while k < line.runs.len()
        invariant
            k <= line.runs@.len(),
            forall|j: int| 0 <= j < k ==> run_fits(#[trigger] line.runs@[j]),
        decreases line.runs.len() - k,
    {
        let run: &VisualRun = &line.runs[k];
        let mut i: usize = 0;
        while i < run.glyphs.len()
            invariant
                k < line.runs@.len(),
                *run == line.runs@[k as int],
                i <= run.glyphs@.len(),
                forall|j: int|
                    0 <= j < i ==> run.source_start + (#[trigger] run.glyphs@[j]).cluster
                        <= u32::MAX,
            decreases run.glyphs.len() - i,
        {
            if run.glyphs[i].cluster > u32::MAX - run.source_start {
                assert(!run_fits(line.runs@[k as int]));
                return false;
            }
            i += 1;
        }
        k += 1;
    }
    true
}

fn check_para_fits(p: &ParagraphBox) -> (r: bool)
    ensures
        r == para_fits(*p),
{
    let mut i: usize = 0;
    while i < p.lines.len()
        invariant
            i <= p.lines@.len(),
            forall|j: int| 0 <= j < i ==> line_fits(#[trigger] p.lines@[j]),
        decreases p.lines.len() - i,
    {
        if !check_line_fits(&p.lines[i]) {
            return false;
        }
        i += 1;
    }
    true
}

fn check_cell_fits(cell: &CellBox) -> (r: bool)
    ensures
        r == cell_fits(*cell),
{
    let mut b: usize = 0;
    while b < cell.content.len()
        invariant
            b <= cell.content@.len(),
            forall|j: int|
                0 <= j < b ==> (#[trigger] cell.content@[j] matches LayoutBlock::Paragraph(p)
                    ==> para_fits(p)),
        decreases cell.content.len() - b,
    {
        if let LayoutBlock::Paragraph(p) = &cell.content[b] {
            if !check_para_fits(p) {
                assert(cell.content@[b as int] == LayoutBlock::Paragraph(*p));
                return false;
            }
        }
        b += 1;
    }
    true
}

fn check_table_fits(table: &TableBox) -> (r: bool)
    ensures
        r == table_fits(*table),
{
    let mut r: usize = 0;
    while r < table.rows.len()
        invariant
            r <= table.rows@.len(),
            forall|i: int, c: int|
                0 <= i < r && 0 <= c < table.rows@[i].cells@.len() ==> cell_fits(
                    #[trigger] table.rows@[i].cells@[c],
                ),
        decreases table.rows.len() - r,
    {
        let row: &RowBox = &table.rows[r];
        let mut c: usize = 0;
        while c < row.cells.len()
            invariant
                r < table.rows@.len(),
                *row == table.rows@[r as int],
                c <= row.cells@.len(),
                forall|j: int| 0 <= j < c ==> cell_fits(#[trigger] table.rows@[r as int].cells@[j]),
            decreases row.cells.len() - c,
        {
            if !check_cell_fits(&row.cells[c]) {
                assert(!cell_fits(table.rows@[r as int].cells@[c as int]));
                return false;
            }
            c += 1;
        }
        r += 1;
    }
    true
}

/// Whether the byte offset of every glyph of a page fits.
pub fn check_page_fits(page: &PageBox) -> (r: bool)
    ensures
        r == page_fits(*page),
{
    let mut i: usize = 0;
    while i < page.blocks.len()
        invariant
            i <= page.blocks@.len(),
            forall|j: int|
                0 <= j < i ==> match #[trigger] page.blocks@[j] {
                    LayoutBlock::Paragraph(p) => para_fits(p),
                    LayoutBlock::Table(t) => table_fits(t),
                },
        decreases page.blocks.len() - i,
    {
        let fits: bool = match &page.blocks[i] {
            LayoutBlock::Paragraph(p) => {
                assert(page.blocks@[i as int] == LayoutBlock::Paragraph(*p));
                check_para_fits(p)
            },
            LayoutBlock::Table(t) => {
                assert(page.blocks@[i as int] == LayoutBlock::Table(*t));
                check_table_fits(t)
            },
        };
        if !fits {
            return false;
        }
        i += 1;
    }
    true
}

/// Where a click at `(x, y)` of page `page_idx` puts the caret.
pub fn hit_test_in_page(
    geom: &Vec<LineGeom>,
    pages: &Vec<PageBox>,
    page_gap: i32,
    page_idx: u32,
    x: i32,
    y: i32,
) -> (r: LogicalPos)
    ensures
        r@ == hit_test(
            geom@,
            x as int,
            placed(
                page_top(
                    pages@,
                    page_gap,
                    if page_idx < pages@.len() {
                        page_idx as nat
                    } else {
                        pages@.len()
                    },
                ),
                y,
            ) as int,
        ),
{
    let top: i32 = page_offset(pages, page_gap, page_idx);
    hit_test_geom(geom, x, place(top, y))
}

/// Coordinates add up, as far as the sum is a coordinate; a sum beyond the range
/// stays at its edge.
pub proof fn law_coordinates_add_up(a: i32, b: i32)
    ensures
        i32::MIN <= a + b <= i32::MAX ==> placed(a, b) == a + b,
        a + b > i32::MAX ==> placed(a, b) == i32::MAX,
        a + b < i32::MIN ==> placed(a, b) == i32::MIN,
{
}

/// The caret stops of a run from left to right stand at the left edges of its
/// glyphs, those of a run from right to left at the right edges: the stop of a
/// glyph and that of the next are apart by the advance of the glyph between them.
/// Each stands for the byte where the glyph's characters begin.
pub proof fn law_slots_stand_at_the_glyphs(run: VisualRun, x: i32, i: int)
    requires
        0 <= i < run.glyphs@.len(),
        run_fits(run),
        forall|n: nat|
            n <= run.glyphs@.len() ==> i32::MIN <= x + #[trigger] advance(run.glyphs@, n)
                <= i32::MAX,
    ensures
        advance(run.glyphs@, 0) == 0,
        glyph_slot(run, x, i).byte == run.source_start + run.glyphs@[i].cluster,
        run.direction == Direction::Ltr && i == 0 ==> glyph_slot(run, x, i).x == x,
        run.direction == Direction::Rtl && i == 0 ==> glyph_slot(run, x, i).x == x
            + run.glyphs@[0].x_advance,
        run.direction == Direction::Ltr && i + 1 < run.glyphs@.len() ==> glyph_slot(
            run,
            x,
            i + 1,
        ).x == glyph_slot(run, x, i).x + run.glyphs@[i].x_advance,
        run.direction == Direction::Rtl && i + 1 < run.glyphs@.len() ==> glyph_slot(
            run,
            x,
            i + 1,
        ).x == glyph_slot(run, x, i).x + run.glyphs@[i + 1].x_advance,
{
    let g = run.glyphs@;
    assert(advance(g, 1) == advance(g, 0) + g[0].x_advance);
    assert(advance(g, (i + 1) as nat) == advance(g, i as nat) + g[i].x_advance);
    if i + 1 < g.len() {
        assert(advance(g, (i + 2) as nat) == advance(g, (i + 1) as nat) + g[i + 1].x_advance);
        assert(x + advance(g, (i + 2) as nat) <= i32::MAX);
    }
    assert(x + advance(g, i as nat) <= i32::MAX);
    assert(x + advance(g, (i + 1) as nat) <= i32::MAX);
}

/// Every glyph that is a caret stop has its slot in its run, and the last slot
/// is the end of the run's bytes: at the right edge of a run from left to right,
/// at the left edge otherwise.
pub proof fn law_runs_hold_their_stops(run: VisualRun, x: i32, i: int)
    requires
        0 <= i < run.glyphs@.len(),
    ensures
        !run.glyphs@[i].synthetic ==> run_slots(run, x).slots.contains(glyph_slot(run, x, i)),
        ({
            let slots = run_slots(run, x).slots;
            let width = advance(run.glyphs@, run.glyphs@.len());
            &&& slots.len() >= 1 && slots.len() <= run.glyphs@.len() + 1
            &&& slots.last().byte == run.source_end
            &&& run.direction == Direction::Rtl ==> slots.last().x == x
            &&& run.direction == Direction::Ltr && i32::MIN <= x + width <= i32::MAX
                ==> slots.last().x == x + width
            &&& run_slots(run, x).src_start == run.source_start
            &&& run_slots(run, x).src_end == run.source_end
        }),
{
    lemma_glyph_has_a_slot(run, x, run.glyphs@.len(), i);
    let head = glyph_slots(run, x, run.glyphs@.len());
    let all = run_slots(run, x).slots;
    if !run.glyphs@[i].synthetic {
        let k = choose|k: int| 0 <= k < head.len() && head[k] == glyph_slot(run, x, i);
        assert(all[k] == head[k]);
    }
}

proof fn lemma_glyph_has_a_slot(run: VisualRun, x: i32, n: nat, i: int)
    requires
        0 <= i < n <= run.glyphs@.len(),
    ensures
        glyph_slots(run, x, n).len() <= n,
        !run.glyphs@[i].synthetic ==> glyph_slots(run, x, n).contains(glyph_slot(run, x, i)),
    decreases n,
{
    let head = glyph_slots(run, x, (n - 1) as nat);
    let all = glyph_slots(run, x, n);
    if n > 1 {
        lemma_glyph_has_a_slot(run, x, (n - 1) as nat, if i < n - 1 {
            i
        } else {
            0
        });
    }
    if !run.glyphs@[i].synthetic {
        if i < n - 1 {
            let k = choose|k: int| 0 <= k < head.len() && head[k] == glyph_slot(run, x, i);
            assert(all[k] == head[k]);
        } else {
            assert(all[head.len() as int] == glyph_slot(run, x, i));
        }
    }
}

/// The runs of a line stand side by side: the first at the line's start, each
/// next one where the advances of the one before it end.
pub proof fn law_runs_stand_side_by_side(runs: Seq<VisualRun>, x: i32, k: nat)
    requires
        k < runs.len(),
    ensures
        run_x(runs, x, 0) == x,
        ({
            let next = run_x(runs, x, k) + advance(
                runs[k as int].glyphs@,
                runs[k as int].glyphs@.len(),
            );
            i32::MIN <= next <= i32::MAX ==> run_x(runs, x, k + 1) == next
        }),
{
}

/// A line stands where its paragraph puts it, spans the bytes of all its runs
/// from the first to the last, and holds every slot of each run.
pub proof fn law_line_holds_its_runs(
    line: LineBox,
    px: i32,
    py: i32,
    hit_left: i32,
    hit_width: i32,
    path: Seq<PathStep>,
    k: int,
    m: int,
)
    requires
        0 <= k < line.runs@.len(),
        0 <= m < run_slots(
            line.runs@[k],
            run_x(line.runs@, placed(px, line.x), k as nat),
        ).slots.len(),
    ensures
        ({
            let shape = line_shape(line, px, py, hit_left, hit_width, path);
            let run = run_slots(line.runs@[k], run_x(line.runs@, placed(px, line.x), k as nat));
            &&& shape.path == path
            &&& shape.start_x == placed(px, line.x) && shape.y_top == placed(py, line.y)
            &&& shape.height == line.height
            &&& shape.hit_left == hit_left && shape.hit_width == hit_width
            &&& shape.start_byte <= line.runs@[k].source_start
            &&& line.runs@[k].source_end <= shape.end_byte
            &&& exists|j: int|
                0 <= j < line.runs@.len() && (#[trigger] line.runs@[j]).source_start
                    == shape.start_byte
            &&& shape.end_byte == 0 || exists|j: int|
                0 <= j < line.runs@.len() && (#[trigger] line.runs@[j]).source_end
                    == shape.end_byte
            &&& shape.runs.len() == line.runs@.len() && shape.runs[k] == run
            &&& shape.slots.contains(run.slots[m])
        }),
{
    let runs = line_runs(line, placed(px, line.x));
    lemma_byte_bounds(line.runs@, line.runs@.len(), k);
    lemma_slot_is_kept(runs, runs.len(), k, m);
}

proof fn lemma_byte_bounds(runs: Seq<VisualRun>, n: nat, k: int)
    requires
        0 <= k < n <= runs.len(),
    ensures
        first_byte(runs, n) <= runs[k].source_start,
        runs[k].source_end <= last_byte(runs, n),
        exists|j: int| 0 <= j < n && (#[trigger] runs[j]).source_start == first_byte(runs, n),
        last_byte(runs, n) == 0 || exists|j: int|
            0 <= j < n && (#[trigger] runs[j]).source_end == last_byte(runs, n),
    decreases n,
{
    if n > 1 {
        lemma_byte_bounds(runs, (n - 1) as nat, if k < n - 1 {
            k
        } else {
            0
        });
        assert(runs[n - 1].source_start == runs[n - 1].source_start);
    } else {
        assert(runs[0].source_start == first_byte(runs, n));
        assert(last_byte(runs, 0) == 0);
        assert(last_byte(runs, 1) == 0 || runs[0].source_end == last_byte(runs, 1));
    }
}

proof fn lemma_slot_is_kept(runs: Seq<RunSlots>, n: nat, k: int, m: int)
    requires
        0 <= k < n <= runs.len(),
        0 <= m < runs[k].slots.len(),
    ensures
        all_slots(runs, n).contains(runs[k].slots[m]),
    decreases n,
{
    let head = all_slots(runs, (n - 1) as nat);
    let all = all_slots(runs, n);
    if k < n - 1 {
        lemma_slot_is_kept(runs, (n - 1) as nat, k, m);
        let j = choose|j: int| 0 <= j < head.len() && head[j] == runs[k].slots[m];
        assert(all[j] == head[j]);
    } else {
        assert(all[head.len() + m] == runs[k].slots[m]);
    }
}

/// Every line of a paragraph that a page shows is listed: at the page's left
/// and top margins, under its own path, with the page's text width as its hit
/// target.
pub proof fn law_page_lists_its_paragraphs(
    page: PageBox,
    top: i32,
    paths: Seq<Seq<PathStep>>,
    n: nat,
    i: int,
    p: ParagraphBox,
    l: int,
)
    requires
        0 <= i < n <= page.blocks@.len(),
        i < paths.len(),
        page.blocks@[i] == LayoutBlock::Paragraph(p),
        0 <= l < p.lines@.len(),
    ensures
        page_shape(page, top, paths, n).contains(
            line_shape(
                p.lines@[l],
                placed(page.margin_left, p.x),
                placed(placed(top, page.margin_top), p.y),
                page.margin_left,
                clamped(page.width - page.margin_left - page.margin_right),
                paths[i],
            ),
        ),
    decreases n,
{
    let head = page_shape(page, top, paths, (n - 1) as nat);
    let all = page_shape(page, top, paths, n);
    let goal = line_shape(
        p.lines@[l],
        placed(page.margin_left, p.x),
        placed(placed(top, page.margin_top), p.y),
        page.margin_left,
        clamped(page.width - page.margin_left - page.margin_right),
        paths[i],
    );
    if i < n - 1 {
        law_page_lists_its_paragraphs(page, top, paths, (n - 1) as nat, i, p, l);
        let k = choose|k: int| 0 <= k < head.len() && head[k] == goal;
        assert(all[k] == head[k]);
    } else {
        assert(all[head.len() + l] == goal);
    }
}

/// Every line of a paragraph in a cell is listed, unless the cell continues the
/// one above: at the cell's corner, under the table's, the cell's and the
/// paragraph's indices, with the cell's width as its hit target.
pub proof fn law_table_lists_its_cells(
    table: TableBox,
    x: i32,
    y: i32,
    t: u32,
    n: nat,
    r: int,
    c: int,
    b: int,
    p: ParagraphBox,
    l: int,
)
    requires
        0 <= r < n <= table.rows@.len(),
        0 <= c < table.rows@[r].cells@.len(),
        table.rows@[r].cells@[c].v_merge != VMergeRole::Continue,
        0 <= b < table.rows@[r].cells@[c].content@.len(),
        table.rows@[r].cells@[c].content@[b] == LayoutBlock::Paragraph(p),
        0 <= l < p.lines@.len(),
    ensures
        ({
            let row = table.rows@[r];
            let cell = row.cells@[c];
            let cx = placed(placed(x, row.x), cell.x);
            let cy = placed(placed(y, row.y), cell.y);
            table_shape(table, x, y, t, n).contains(
                line_shape(
                    p.lines@[l],
                    placed(cx, p.x),
                    placed(cy, p.y),
                    cx,
                    cell.width,
                    seq![
                        PathStep::Block { idx: t },
                        PathStep::Cell { row: r as u32, col: c as u32 },
                        PathStep::Block { idx: b as u32 },
                    ],
                ),
            )
        }),
    decreases n,
{
    let row = table.rows@[r];
    let cell = row.cells@[c];
    let (rx, ry) = (placed(x, row.x), placed(y, row.y));
    let (cx, cy) = (placed(rx, cell.x), placed(ry, cell.y));
    let goal = line_shape(
        p.lines@[l],
        placed(cx, p.x),
        placed(cy, p.y),
        cx,
        cell.width,
        cell_path(t, r, c, b),
    );
    let head = table_shape(table, x, y, t, (n - 1) as nat);
    let all = table_shape(table, x, y, t, n);
    if r < n - 1 {
        law_table_lists_its_cells(table, x, y, t, (n - 1) as nat, r, c, b, p, l);
        let k = choose|k: int| 0 <= k < head.len() && head[k] == goal;
        assert(all[k] == head[k]);
    } else {
        let mine = row_shape(row, rx, ry, t, r, row.cells@.len());
        lemma_row_lists_its_cells(row, rx, ry, t, r, row.cells@.len(), c, b, p, l);
        let k = choose|k: int| 0 <= k < mine.len() && mine[k] == goal;
        assert(all[head.len() + k] == mine[k]);
    }
}

proof fn lemma_row_lists_its_cells(
    row: RowBox,
    x: i32,
    y: i32,
    t: u32,
    r: int,
    n: nat,
    c: int,
    b: int,
    p: ParagraphBox,
    l: int,
)
    requires
        0 <= c < n <= row.cells@.len(),
        row.cells@[c].v_merge != VMergeRole::Continue,
        0 <= b < row.cells@[c].content@.len(),
        row.cells@[c].content@[b] == LayoutBlock::Paragraph(p),
        0 <= l < p.lines@.len(),
    ensures
        row_shape(row, x, y, t, r, n).contains(
            line_shape(
                p.lines@[l],
                placed(placed(x, row.cells@[c].x), p.x),
                placed(placed(y, row.cells@[c].y), p.y),
                placed(x, row.cells@[c].x),
                row.cells@[c].width,
                cell_path(t, r, c, b),
            ),
        ),
    decreases n,
{
    let cell = row.cells@[c];
    let (cx, cy) = (placed(x, cell.x), placed(y, cell.y));
    let goal = line_shape(
        p.lines@[l],
        placed(cx, p.x),
        placed(cy, p.y),
        cx,
        cell.width,
        cell_path(t, r, c, b),
    );
    let head = row_shape(row, x, y, t, r, (n - 1) as nat);
    let all = row_shape(row, x, y, t, r, n);
    if c < n - 1 {
        lemma_row_lists_its_cells(row, x, y, t, r, (n - 1) as nat, c, b, p, l);
        let k = choose|k: int| 0 <= k < head.len() && head[k] == goal;
        assert(all[k] == head[k]);
    } else {
        let mine = cell_shape(cell, cx, cy, t, r, c, cell.content@.len());
        lemma_cell_lists_its_lines(cell, cx, cy, t, r, c, cell.content@.len(), b, p, l);
        let k = choose|k: int| 0 <= k < mine.len() && mine[k] == goal;
        assert(all[head.len() + k] == mine[k]);
    }
}

proof fn lemma_cell_lists_its_lines(
    cell: CellBox,
    x: i32,
    y: i32,
    t: u32,
    r: int,
    c: int,
    n: nat,
    b: int,
    p: ParagraphBox,
    l: int,
)
    requires
        0 <= b < n <= cell.content@.len(),
        cell.content@[b] == LayoutBlock::Paragraph(p),
        0 <= l < p.lines@.len(),
    ensures
        cell_shape(cell, x, y, t, r, c, n).contains(
            line_shape(
                p.lines@[l],
                placed(x, p.x),
                placed(y, p.y),
                x,
                cell.width,
                cell_path(t, r, c, b),
            ),
        ),
    decreases n,
{
    let goal = line_shape(
        p.lines@[l],
        placed(x, p.x),
        placed(y, p.y),
        x,
        cell.width,
        cell_path(t, r, c, b),
    );
    let head = cell_shape(cell, x, y, t, r, c, (n - 1) as nat);
    let all = cell_shape(cell, x, y, t, r, c, n);
    if b < n - 1 {
        lemma_cell_lists_its_lines(cell, x, y, t, r, c, (n - 1) as nat, b, p, l);
        let k = choose|k: int| 0 <= k < head.len() && head[k] == goal;
        assert(all[k] == head[k]);
    } else {
        assert(all[head.len() + l] == goal);
    }
}

/// Pages stand one below the other, a gap apart, and every line that a page
/// shows is listed among those of the document.
pub proof fn law_pages_follow_one_another(
    pages: Seq<PageBox>,
    page_paths: Seq<Vec<BlockPath>>,
    page_gap: i32,
    n: nat,
    k: int,
    m: int,
)
    requires
        0 <= k < n <= pages.len(),
        0 <= m < page_shape(
            pages[k],
            page_top(pages, page_gap, k as nat),
            page_paths_view(page_paths, k),
            pages[k].blocks@.len(),
        ).len(),
    ensures
        page_top(pages, page_gap, 0) == 0,
        ({
            let below = page_top(pages, page_gap, k as nat) + pages[k].height + page_gap;
            i32::MIN <= below <= i32::MAX ==> page_top(pages, page_gap, (k + 1) as nat) == below
        }),
        pages_shape(pages, page_paths, page_gap, n).contains(
            page_shape(
                pages[k],
                page_top(pages, page_gap, k as nat),
                page_paths_view(page_paths, k),
                pages[k].blocks@.len(),
            )[m],
        ),
    decreases n,
{
    let mine = page_shape(
        pages[k],
        page_top(pages, page_gap, k as nat),
        page_paths_view(page_paths, k),
        pages[k].blocks@.len(),
    );
    let head = pages_shape(pages, page_paths, page_gap, (n - 1) as nat);
    let all = pages_shape(pages, page_paths, page_gap, n);
    if k < n - 1 {
        law_pages_follow_one_another(pages, page_paths, page_gap, (n - 1) as nat, k, m);
        let j = choose|j: int| 0 <= j < head.len() && head[j] == mine[m];
        assert(all[j] == head[j]);
    } else {
        assert(all[head.len() + m] == mine[m]);
    }
}

} // verus!
