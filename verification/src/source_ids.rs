//! Numbering laid-out paragraphs: each gets the number of the paragraph of the
//! document that it shows, in document order.

use crate::boxes::{CellBox, LayoutBlock, ParagraphBox, RowBox, TableBox};
use crate::common::PathStep;
use crate::document::{
    block_paths, blocks_paths, cells_paths, rows_paths, Block, TableCell, TableRow,
    VMergeRole,
};
use vstd::prelude::*;

verus! {

/// The number of paragraphs that a block shows. Cells that continue a merge
/// show none.
pub open spec fn block_paras(b: LayoutBlock) -> nat
    decreases b, 0nat,
{
    match b {
        LayoutBlock::Paragraph(_) => 1,
        LayoutBlock::Table(t) => rows_paras(t.rows@, t.rows@.len()),
    }
}

/// The number of paragraphs that the first `n` blocks show.
pub open spec fn blocks_paras(blocks: Seq<LayoutBlock>, n: nat) -> nat
    decreases blocks, n,
{
    if n == 0 || n > blocks.len() {
        0
    } else {
        blocks_paras(blocks, (n - 1) as nat) + block_paras(blocks[n - 1])
    }
}

/// The number of paragraphs that the first `n` rows show.
pub open spec fn rows_paras(rows: Seq<RowBox>, n: nat) -> nat
    decreases rows, n,
{
    if n == 0 || n > rows.len() {
        0
    } else {
        rows_paras(rows, (n - 1) as nat) + cells_paras(rows[n - 1].cells@, rows[n - 1].cells@.len())
    }
}

/// The number of paragraphs that the first `n` cells show.
pub open spec fn cells_paras(cells: Seq<CellBox>, n: nat) -> nat
    decreases cells, n,
{
    if n == 0 || n > cells.len() {
        0
    } else {
        cells_paras(cells, (n - 1) as nat) + (if cells[n - 1].v_merge == VMergeRole::Continue {
            0
        } else {
            blocks_paras(cells[n - 1].content@, cells[n - 1].content@.len())
        })
    }
}

/// `b` is block `a` with its paragraphs numbered from `base` on.
pub open spec fn numbered(a: LayoutBlock, b: LayoutBlock, base: nat) -> bool
    decreases a, 0nat,
{
    match (a, b) {
        (LayoutBlock::Paragraph(p), LayoutBlock::Paragraph(q)) => q == (ParagraphBox {
            source_id: base as u32,
            ..p
        }),
        (LayoutBlock::Table(t), LayoutBlock::Table(u)) => u.x == t.x && u.y == t.y
            && numbered_rows(t.rows@, u.rows@, base),
        _ => false,
    }
}

/// Blocks with their paragraphs numbered from `base` on.
pub open spec fn numbered_blocks(a: Seq<LayoutBlock>, b: Seq<LayoutBlock>, base: nat) -> bool
    decreases a, 0nat,
{
    &&& a.len() == b.len()
    &&& forall|i: int|
        0 <= i < a.len() ==> numbered(#[trigger] a[i], b[i], base + blocks_paras(a, i as nat))
}

/// Rows with their paragraphs numbered from `base` on.
pub open spec fn numbered_rows(a: Seq<RowBox>, b: Seq<RowBox>, base: nat) -> bool
    decreases a, 0nat,
{
    &&& a.len() == b.len()
    &&& forall|i: int|
        0 <= i < a.len() ==> (#[trigger] a[i]).x == b[i].x && a[i].y == b[i].y && numbered_cells(
            a[i].cells@,
            b[i].cells@,
            base + rows_paras(a, i as nat),
        )
}

/// Cells with their paragraphs numbered from `base` on.
pub open spec fn numbered_cells(a: Seq<CellBox>, b: Seq<CellBox>, base: nat) -> bool
    decreases a, 0nat,
{
    &&& a.len() == b.len()
    &&& forall|i: int|
        0 <= i < a.len() ==> ({
            let (c, d) = (#[trigger] a[i], b[i]);
            if c.v_merge == VMergeRole::Continue {
                d == c
            } else {
                d == (CellBox { content: d.content, ..c }) && numbered_blocks(
                    c.content@,
                    d.content@,
                    base + cells_paras(a, i as nat),
                )
            }
        })
}

/// Number the paragraphs of a list of blocks from `next` on.
pub fn assign_source_ids_blocks(blocks: &mut Vec<LayoutBlock>, next: &mut u32)
    requires
        *old(next) + blocks_paras(old(blocks)@, old(blocks)@.len()) <= u32::MAX,
    ensures
        numbered_blocks(old(blocks)@, final(blocks)@, *old(next) as nat),
        *final(next) == *old(next) + blocks_paras(old(blocks)@, old(blocks)@.len()),
    decreases old(blocks)@, 1nat,
{
    let ghost a = blocks@;
    let ghost base = *next as nat;
    let mut i: usize = 0;
    while i < blocks.len()
        invariant
            i <= blocks@.len() == a.len(),
            base + blocks_paras(a, a.len()) <= u32::MAX,
            *next == base + blocks_paras(a, i as nat),
            forall|k: int|
                0 <= k < i ==> numbered(#[trigger] a[k], blocks@[k], base + blocks_paras(a, k as nat)),
            forall|k: int| i <= k < a.len() ==> blocks@[k] == #[trigger] a[k],
            a == old(blocks)@,
        decreases blocks.len() - i,
    {
        proof {
            lemma_blocks_grow(a, (i + 1) as nat, a.len());
            assert(decreases_to!(a => a[i as int]));
        }
        assert(blocks@[i as int] == a[i as int]);
        assign_source_ids_block(&mut blocks[i], next);
        i += 1;
    }
}

fn assign_source_ids_block(block: &mut LayoutBlock, next: &mut u32)
    requires
        *old(next) + block_paras(*old(block)) <= u32::MAX,
    ensures
        numbered(*old(block), *final(block), *old(next) as nat),
        *final(next) == *old(next) + block_paras(*old(block)),
    decreases *old(block), 1nat,
{
    match block {
        LayoutBlock::Paragraph(p) => {
            p.source_id = *next;
            *next = *next + 1;
        },
        LayoutBlock::Table(t) => {
            assert(decreases_to!(*old(block) => old(block)->Table_0));
            assign_source_ids_table(t, next);
        },
    }
}

/// Number the paragraphs of a table from `next` on.
pub fn assign_source_ids_table(table: &mut TableBox, next: &mut u32)
    requires
        *old(next) + rows_paras(old(table).rows@, old(table).rows@.len()) <= u32::MAX,
    ensures
        numbered(
            LayoutBlock::Table(*old(table)),
            LayoutBlock::Table(*final(table)),
            *old(next) as nat,
        ),
        *final(next) == *old(next) + rows_paras(old(table).rows@, old(table).rows@.len()),
    decreases *old(table), 0nat,
{
    let ghost a = table.rows@;
    let ghost base = *next as nat;
    let mut r: usize = 0;
    while r < table.rows.len()
        invariant
            r <= table.rows@.len() == a.len(),
            base + rows_paras(a, a.len()) <= u32::MAX,
            *next == base + rows_paras(a, r as nat),
            a == old(table).rows@,
            table.x == old(table).x,
            table.y == old(table).y,
            forall|k: int|
                0 <= k < r ==> (#[trigger] a[k]).x == table.rows@[k].x && a[k].y == table.rows@[k].y
                    && numbered_cells(
                    a[k].cells@,
                    table.rows@[k].cells@,
                    base + rows_paras(a, k as nat),
                ),
            forall|k: int| r <= k < a.len() ==> table.rows@[k] == #[trigger] a[k],
        decreases table.rows.len() - r,
    {
        proof {
            lemma_rows_grow(a, (r + 1) as nat, a.len());
            assert(decreases_to!(*old(table) => old(table).rows));
            assert(decreases_to!(old(table).rows => old(table).rows@));
            assert(decreases_to!(a => a[r as int]));
            assert(decreases_to!(a[r as int] => a[r as int].cells));
            assert(decreases_to!(a[r as int].cells => a[r as int].cells@));
        }
        assign_source_ids_cells(&mut table.rows[r].cells, next);
        r += 1;
    }
}

fn assign_source_ids_cells(cells: &mut Vec<CellBox>, next: &mut u32)
    requires
        *old(next) + cells_paras(old(cells)@, old(cells)@.len()) <= u32::MAX,
    ensures
        numbered_cells(old(cells)@, final(cells)@, *old(next) as nat),
        *final(next) == *old(next) + cells_paras(old(cells)@, old(cells)@.len()),
    decreases old(cells)@, 0nat,
{
    let ghost a = cells@;
    let ghost base = *next as nat;
    let mut c: usize = 0;
    while c < cells.len()
        invariant
            c <= cells@.len() == a.len(),
            base + cells_paras(a, a.len()) <= u32::MAX,
            *next == base + cells_paras(a, c as nat),
            a == old(cells)@,
            forall|k: int|
                0 <= k < c ==> ({
                    let (x, y) = (#[trigger] a[k], cells@[k]);
                    if x.v_merge == VMergeRole::Continue {
                        y == x
                    } else {
                        y == (CellBox { content: y.content, ..x }) && numbered_blocks(
                            x.content@,
                            y.content@,
                            base + cells_paras(a, k as nat),
                        )
                    }
                }),
            forall|k: int| c <= k < a.len() ==> cells@[k] == #[trigger] a[k],
        decreases cells.len() - c,
    {
        proof {
            lemma_cells_grow(a, (c + 1) as nat, a.len());
            assert(decreases_to!(a => a[c as int]));
            assert(decreases_to!(a[c as int] => a[c as int].content));
            assert(decreases_to!(a[c as int].content => a[c as int].content@));
        }
        if cells[c].v_merge != VMergeRole::Continue {
            assign_source_ids_blocks(&mut cells[c].content, next);
        }
        c += 1;
    }
}

/// The number after those that the paragraphs of a table take from `next` on, if
/// there are that many.
pub fn ids_after(table: &TableBox, next: u32) -> (r: Option<u32>)
    ensures
        r == within_ids(next + rows_paras(table.rows@, table.rows@.len())),
    decreases table, 0nat,
{
    let rows: &Vec<RowBox> = &table.rows;
    let mut at: u32 = next;
    let mut i: usize = 0;
    while i < rows.len()
        invariant
            i <= rows@.len(),
            rows == table.rows,
            at == next + rows_paras(rows@, i as nat),
        decreases rows.len() - i,
    {
        proof {
            lemma_rows_grow(rows@, (i + 1) as nat, rows@.len());
            assert(decreases_to!(table => table.rows));
            assert(decreases_to!(table.rows => table.rows@));
            assert(decreases_to!(rows@ => rows@[i as int]));
            assert(decreases_to!(rows@[i as int] => rows@[i as int].cells));
        }
        match cells_after(&rows[i].cells, at) {
            Some(n) => {
                at = n;
            },
            None => return None,
        }
        i += 1;
    }
    Some(at)
}

/// A number, where it is one that a paragraph can have or the next after those.
pub open spec fn within_ids(n: int) -> Option<u32> {
    if n <= u32::MAX {
        Some(n as u32)
    } else {
        None
    }
}

fn cells_after(cells: &Vec<CellBox>, next: u32) -> (r: Option<u32>)
    ensures
        r == within_ids(next + cells_paras(cells@, cells@.len())),
    decreases cells, 0nat,
{
    let mut at: u32 = next;
    let mut i: usize = 0;
    while i < cells.len()
        invariant
            i <= cells@.len(),
            at == next + cells_paras(cells@, i as nat),
        decreases cells.len() - i,
    {
        proof {
            lemma_cells_grow(cells@, (i + 1) as nat, cells@.len());
            assert(decreases_to!(cells => cells@));
            assert(decreases_to!(cells@ => cells@[i as int]));
            assert(decreases_to!(cells@[i as int] => cells@[i as int].content));
        }
        if cells[i].v_merge != VMergeRole::Continue {
            match blocks_after(&cells[i].content, at) {
                Some(n) => {
                    at = n;
                },
                None => return None,
            }
        }
        i += 1;
    }
    Some(at)
}

fn blocks_after(blocks: &Vec<LayoutBlock>, next: u32) -> (r: Option<u32>)
    ensures
        r == within_ids(next + blocks_paras(blocks@, blocks@.len())),
    decreases blocks, 0nat,
{
    let mut at: u32 = next;
    let mut i: usize = 0;
    while i < blocks.len()
        invariant
            i <= blocks@.len(),
            at == next + blocks_paras(blocks@, i as nat),
        decreases blocks.len() - i,
    {
        proof {
            lemma_blocks_grow(blocks@, (i + 1) as nat, blocks@.len());
            assert(decreases_to!(blocks => blocks@));
            assert(decreases_to!(blocks@ => blocks@[i as int]));
        }
        assert(blocks_paras(blocks@, (i + 1) as nat) == blocks_paras(blocks@, i as nat)
            + block_paras(blocks@[i as int]));
        match &blocks[i] {
            LayoutBlock::Paragraph(_) => {
                if at == u32::MAX {
                    return None;
                }
                at = at + 1;
            },
            LayoutBlock::Table(t) => {
                assert(decreases_to!(blocks@[i as int] => blocks@[i as int]->Table_0));
                match ids_after(t, at) {
                    Some(n) => {
                        at = n;
                    },
                    None => return None,
                }
            },
        }
        i += 1;
    }
    Some(at)
}

proof fn lemma_blocks_grow(s: Seq<LayoutBlock>, m: nat, n: nat)
    requires
        m <= n <= s.len(),
    ensures
        blocks_paras(s, m) <= blocks_paras(s, n),
    decreases n,
{
    if m < n {
        lemma_blocks_grow(s, m, (n - 1) as nat);
    }
}

proof fn lemma_rows_grow(s: Seq<RowBox>, m: nat, n: nat)
    requires
        m <= n <= s.len(),
    ensures
        rows_paras(s, m) <= rows_paras(s, n),
    decreases n,
{
    if m < n {
        lemma_rows_grow(s, m, (n - 1) as nat);
    }
}

proof fn lemma_cells_grow(s: Seq<CellBox>, m: nat, n: nat)
    requires
        m <= n <= s.len(),
    ensures
        cells_paras(s, m) <= cells_paras(s, n),
    decreases n,
{
    if m < n {
        lemma_cells_grow(s, m, (n - 1) as nat);
    }
}

/// A laid-out block has the shape of a block of the document.
pub open spec fn same_shape(b: Block, l: LayoutBlock) -> bool
    decreases b, 0nat,
{
    match (b, l) {
        (Block::Paragraph(_), LayoutBlock::Paragraph(_)) => true,
        (Block::Table(t), LayoutBlock::Table(u)) => same_rows(t.rows@, u.rows@),
        _ => false,
    }
}

/// Laid-out blocks have the shape of blocks of the document.
pub open spec fn same_blocks(b: Seq<Block>, l: Seq<LayoutBlock>) -> bool
    decreases b, 0nat,
{
    &&& b.len() == l.len()
    &&& forall|i: int| 0 <= i < b.len() ==> same_shape(#[trigger] b[i], l[i])
}

/// Laid-out rows have the shape of rows of the document.
pub open spec fn same_rows(b: Seq<TableRow>, l: Seq<RowBox>) -> bool
    decreases b, 0nat,
{
    &&& b.len() == l.len()
    &&& forall|i: int| 0 <= i < b.len() ==> same_cells((#[trigger] b[i]).cells@, l[i].cells@)
}

/// Laid-out cells have the shape of cells of the document.
pub open spec fn same_cells(b: Seq<TableCell>, l: Seq<CellBox>) -> bool
    decreases b, 0nat,
{
    &&& b.len() == l.len()
    &&& forall|i: int|
        0 <= i < b.len() ==> (#[trigger] b[i]).props.v_merge == l[i].v_merge && same_blocks(
            b[i].blocks@,
            l[i].content@,
        )
}

/// A layout with the shape of the document shows as many paragraphs as the walk
/// through the document lists, up to every block. So the number of a laid-out
/// paragraph is its place in the walk.
pub proof fn law_numbers_follow_the_walk(
    blocks: Seq<Block>,
    layout: Seq<LayoutBlock>,
    prefix: Seq<PathStep>,
    n: nat,
)
    requires
        same_blocks(blocks, layout),
        n <= blocks.len(),
    ensures
        blocks_paras(layout, n) == blocks_paths(blocks, prefix, n).len(),
    decreases blocks, 1nat, n,
{
    if n > 0 {
        law_numbers_follow_the_walk(blocks, layout, prefix, (n - 1) as nat);
        let b = blocks[n - 1];
        assert(same_shape(b, layout[n - 1]));
        assert(decreases_to!(blocks => blocks[n - 1]));
        lemma_block_count(
            b,
            layout[n - 1],
            prefix.push(PathStep::Block { idx: (n - 1) as u32 }),
        );
    }
}

proof fn lemma_block_count(b: Block, l: LayoutBlock, prefix: Seq<PathStep>)
    requires
        same_shape(b, l),
    ensures
        block_paras(l) == block_paths(b, prefix).len(),
    decreases b, 0nat, 0nat,
{
    match (b, l) {
        (Block::Table(t), LayoutBlock::Table(u)) => {
            assert(decreases_to!(b => b->Table_0));
            assert(decreases_to!(b->Table_0 => b->Table_0.rows));
            assert(decreases_to!(t.rows => t.rows@));
            lemma_rows_count(t.rows@, u.rows@, prefix, t.rows@.len());
        },
        _ => {},
    }
}

proof fn lemma_rows_count(b: Seq<TableRow>, l: Seq<RowBox>, prefix: Seq<PathStep>, n: nat)
    requires
        same_rows(b, l),
        n <= b.len(),
    ensures
        rows_paras(l, n) == rows_paths(b, prefix, n).len(),
    decreases b, 0nat, n,
{
    if n > 0 {
        lemma_rows_count(b, l, prefix, (n - 1) as nat);
        let row = b[n - 1];
        assert(same_cells(b[n - 1].cells@, l[n - 1].cells@));
        assert(decreases_to!(b => b[n - 1]));
        assert(decreases_to!(row => row.cells));
        assert(decreases_to!(row.cells => row.cells@));
        lemma_cells_count(
            row.cells@,
            l[n - 1].cells@,
            prefix,
            (n - 1) as u32,
            row.cells@.len(),
        );
    }
}

proof fn lemma_cells_count(
    b: Seq<TableCell>,
    l: Seq<CellBox>,
    prefix: Seq<PathStep>,
    row: u32,
    n: nat,
)
    requires
        same_cells(b, l),
        n <= b.len(),
    ensures
        cells_paras(l, n) == cells_paths(b, prefix, row, n).len(),
    decreases b, 0nat, n,
{
    if n > 0 {
        lemma_cells_count(b, l, prefix, row, (n - 1) as nat);
        let cell = b[n - 1];
        assert(cell.props.v_merge == l[n - 1].v_merge);
        assert(decreases_to!(b => b[n - 1]));
        assert(decreases_to!(cell => cell.blocks));
        assert(decreases_to!(cell.blocks => cell.blocks@));
        law_numbers_follow_the_walk(
            cell.blocks@,
            l[n - 1].content@,
            prefix.push(PathStep::Cell { row, col: (n - 1) as u32 }),
            cell.blocks@.len(),
        );
    }
}

} // verus!
