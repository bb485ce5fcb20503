//! The document-order walk: the list of paragraph paths, a paragraph's
//! neighbours, the paragraphs between two others, and their texts.

use crate::common::{
    alternates, is_prefix, law_order_flips, path_order, BlockPath, PathStep,
};
use crate::document::{
    block_paths, blocks_paths, cell_at, cells_paths, doc_paths, para_at, paths_view,
    rows_paths, Block, DocumentTree, Paragraph, TableCell, TableRow, VMergeRole,
};
use vstd::prelude::*;

verus! {

broadcast use vstd::seq_lib::group_seq_properties;

proof fn lemma_paths_push(s: Seq<BlockPath>, p: BlockPath)
    ensures
        paths_view(s.push(p)) == paths_view(s).push(p@),
{
    assert(paths_view(s.push(p)) =~= paths_view(s).push(p@));
}

/// Append the paths of the paragraphs in `block`, which stands at `prefix`.
pub fn walk_block(block: &Block, prefix: &mut Vec<PathStep>, out: &mut Vec<BlockPath>)
    ensures
        final(prefix)@ == old(prefix)@,
        paths_view(final(out)@) == paths_view(old(out)@) + block_paths(*block, old(prefix)@),
    decreases block, 0nat,
{
    let ghost p0 = prefix@;
    let ghost o0 = paths_view(out@);
    match block {
        Block::Paragraph(_) => {
            let path = BlockPath { steps: crate::common::clone_steps(prefix) };
            proof {
                lemma_paths_push(out@, path);
            }
            out.push(path);
            assert(paths_view(out@) =~= o0 + seq![p0]);
        },
        Block::Table(t) => {
            let mut r: usize = 0;
            assert(paths_view(out@) =~= o0 + rows_paths(t.rows@, p0, 0));
            while r < t.rows.len()
                invariant
                    *block == Block::Table(*t),
                    r <= t.rows@.len(),
                    prefix@ == p0,
                    paths_view(out@) == o0 + rows_paths(t.rows@, p0, r as nat),
                decreases t.rows.len() - r,
            {
                let row: &TableRow = &t.rows[r];
                let ghost o1 = paths_view(out@);
                let mut c: usize = 0;
                assert(paths_view(out@) =~= o1 + cells_paths(row.cells@, p0, r as u32, 0));
                while c < row.cells.len()
                    invariant
                        *block == Block::Table(*t),
                        r < t.rows@.len(),
                        *row == t.rows@[r as int],
                        c <= row.cells@.len(),
                        prefix@ == p0,
                        paths_view(out@) == o1 + cells_paths(row.cells@, p0, r as u32, c as nat),
                    decreases row.cells.len() - c,
                {
                    let cell: &TableCell = &row.cells[c];
                    let ghost o2 = paths_view(out@);
                    if cell.props.v_merge != VMergeRole::Continue {
                        prefix.push(PathStep::Cell { row: r as u32, col: c as u32 });
                        assert(decreases_to!(block => block->Table_0));
                        assert(decreases_to!(block->Table_0 => block->Table_0.rows));
                        assert(decreases_to!(t.rows => t.rows@));
                        assert(decreases_to!(t.rows@ => t.rows@[r as int].cells@));
                        assert(decreases_to!(row.cells@ => row.cells@[c as int].blocks));
                        collect_paragraph_paths_vec(&cell.blocks, prefix, out);
                        let _ = prefix.pop();
                        assert(prefix@ =~= p0);
                    } else {
                        assert(paths_view(out@) =~= o2 + Seq::empty());
                    }
                    c += 1;
                    assert(paths_view(out@) =~= o1 + cells_paths(row.cells@, p0, r as u32, c as nat));
                }
                r += 1;
                assert(paths_view(out@) =~= o0 + rows_paths(t.rows@, p0, r as nat));
            }
        },
    }
}

/// Append the paths of the paragraphs in `blocks`, whose container stands at
/// `prefix`.
pub fn collect_paragraph_paths_vec(
    blocks: &Vec<Block>,
    prefix: &mut Vec<PathStep>,
    out: &mut Vec<BlockPath>,
)
    ensures
        final(prefix)@ == old(prefix)@,
        paths_view(final(out)@) == paths_view(old(out)@) + blocks_paths(
            blocks@,
            old(prefix)@,
            blocks@.len(),
        ),
    decreases blocks, 1nat,
{
    let ghost p0 = prefix@;
    let ghost o0 = paths_view(out@);
    let mut i: usize = 0;
    assert(paths_view(out@) =~= o0 + blocks_paths(blocks@, p0, 0));
    while i < blocks.len()
        invariant
            i <= blocks@.len(),
            prefix@ == p0,
            paths_view(out@) == o0 + blocks_paths(blocks@, p0, i as nat),
        decreases blocks.len() - i,
    {
        prefix.push(PathStep::Block { idx: i as u32 });
        assert(decreases_to!(blocks => blocks@[i as int]));
        walk_block(&blocks[i], prefix, out);
        let _ = prefix.pop();
        assert(prefix@ =~= p0);
        i += 1;
        assert(paths_view(out@) =~= o0 + blocks_paths(blocks@, p0, i as nat));
    }
}

/// The path of every paragraph in document order: top-level paragraphs, and
/// those in table cells.
pub fn doc_paragraph_paths(doc: &DocumentTree) -> (r: Vec<BlockPath>)
    ensures
        paths_view(r@) == doc_paths(doc.blocks@),
{
    let mut out: Vec<BlockPath> = Vec::new();
    let mut prefix: Vec<PathStep> = Vec::new();
    collect_paragraph_paths_vec(&doc.blocks, &mut prefix, &mut out);
    assert(paths_view(out@) =~= doc_paths(doc.blocks@));
    out
}

/// The index of the first occurrence of a path in a list.
pub open spec fn path_index(paths: Seq<Seq<PathStep>>, p: Seq<PathStep>) -> Option<int>
    decreases paths.len(),
{
    if paths.len() == 0 {
        None
    } else {
        match path_index(paths.drop_last(), p) {
            Some(i) => Some(i),
            None => if paths.last() == p {
                Some(paths.len() - 1)
            } else {
                None
            },
        }
    }
}

proof fn lemma_path_index(paths: Seq<Seq<PathStep>>, p: Seq<PathStep>)
    ensures
        match path_index(paths, p) {
            Some(i) => 0 <= i < paths.len() && paths[i] == p && forall|j: int|
                0 <= j < i ==> paths[j] != p,
            None => forall|j: int| 0 <= j < paths.len() ==> paths[j] != p,
        },
    decreases paths.len(),
{
    if paths.len() > 0 {
        lemma_path_index(paths.drop_last(), p);
        assert forall|j: int| 0 <= j < paths.len() - 1 implies paths[j] == paths.drop_last()[j] by {}
    }
}

proof fn lemma_path_index_is(paths: Seq<Seq<PathStep>>, p: Seq<PathStep>, i: int)
    requires
        0 <= i < paths.len(),
        paths[i] == p,
        forall|j: int| 0 <= j < i ==> paths[j] != p,
    ensures
        path_index(paths, p) == Some(i),
{
    lemma_path_index(paths, p);
}

/// The index of the first occurrence of `path` in `paths`.
pub fn position_of(paths: &Vec<BlockPath>, path: &BlockPath) -> (r: Option<usize>)
    ensures
        match r {
            Some(i) => path_index(paths_view(paths@), path@) == Some(i as int) && i < paths@.len(),
            None => path_index(paths_view(paths@), path@) is None,
        },
{
    let ghost all = paths_view(paths@);
    let mut i: usize = 0;
    while i < paths.len()
        invariant
            i <= paths@.len(),
            all == paths_view(paths@),
            forall|j: int| 0 <= j < i ==> all[j] != path@,
        decreases paths.len() - i,
    {
        if paths[i].same(path) {
            proof {
                lemma_path_index_is(all, path@, i as int);
            }
            return Some(i);
        }
        i += 1;
    }
    proof {
        lemma_path_index(all, path@);
    }
    None
}

/// The path next to `path` in the document-order walk.
pub open spec fn neighbor_path(blocks: Seq<Block>, path: Seq<PathStep>, forward: bool) -> Option<
    Seq<PathStep>,
> {
    let paths = doc_paths(blocks);
    match path_index(paths, path) {
        Some(i) => {
            let j = if forward {
                i + 1
            } else {
                i - 1
            };
            if 0 <= j < paths.len() {
                Some(paths[j])
            } else {
                None
            }
        },
        None => None,
    }
}

/// The paragraph next to `path` in the document-order walk: the following one
/// when `forward`, else the one before. `None` at the document's edge.
pub fn doc_paragraph_neighbor<'a>(doc: &'a DocumentTree, path: &BlockPath, forward: bool) -> (r:
    Option<(BlockPath, &'a Paragraph)>)
    ensures
        match r {
            Some((q, p)) => neighbor_path(doc.blocks@, path@, forward) == Some(q@) && para_at(
                doc.blocks@,
                q@,
            ) == Some(*p),
            None => match neighbor_path(doc.blocks@, path@, forward) {
                Some(q) => para_at(doc.blocks@, q) is None,
                None => true,
            },
        },
{
    let paths = doc_paragraph_paths(doc);
    let pos: usize = match position_of(&paths, path) {
        Some(i) => i,
        None => {
            return None;
        },
    };
    let target: usize = if forward {
        if pos >= paths.len() - 1 {
            return None;
        }
        pos + 1
    } else {
        if pos == 0 {
            return None;
        }
        pos - 1
    };
    let candidate = paths[target].clone();
    match doc.paragraph_at_path(&candidate) {
        Some(p) => Some((candidate, p)),
        None => None,
    }
}

/// The paths strictly between two paths of the document-order walk.
pub open spec fn paths_between(
    blocks: Seq<Block>,
    start: Seq<PathStep>,
    end: Seq<PathStep>,
) -> Seq<Seq<PathStep>> {
    let paths = doc_paths(blocks);
    match (path_index(paths, start), path_index(paths, end)) {
        (Some(i), Some(j)) => if i + 1 < j {
            paths.subrange(i + 1, j)
        } else {
            Seq::empty()
        },
        _ => Seq::empty(),
    }
}

/// The paths of the paragraphs strictly between two others.
pub fn doc_paragraph_paths_between(
    doc: &DocumentTree,
    start_path: &BlockPath,
    end_path: &BlockPath,
) -> (r: Vec<BlockPath>)
    ensures
        paths_view(r@) == paths_between(doc.blocks@, start_path@, end_path@),
{
    let all = doc_paragraph_paths(doc);
    let mut out: Vec<BlockPath> = Vec::new();
    assert(paths_view(out@) =~= Seq::empty());
    let si: usize = match position_of(&all, start_path) {
        Some(i) => i,
        None => {
            return out;
        },
    };
    let ei: usize = match position_of(&all, end_path) {
        Some(i) => i,
        None => {
            return out;
        },
    };
    if ei <= si || ei - si == 1 {
        return out;
    }
    let mut k: usize = si + 1;
    let ghost paths = doc_paths(doc.blocks@);
    assert(paths_view(out@) =~= paths.subrange(si as int + 1, k as int));
    while k < ei
        invariant
            si + 1 <= k <= ei < all@.len(),
            paths == paths_view(all@),
            paths_view(out@) == paths.subrange(si as int + 1, k as int),
        decreases ei - k,
    {
        let p = all[k].clone();
        proof {
            lemma_paths_push(out@, p);
        }
        out.push(p);
        k += 1;
        assert(paths_view(out@) =~= paths.subrange(si as int + 1, k as int));
    }
    out
}

/// The number of blocks in the cell that the first two steps of
/// `cell_prefix` address.
pub fn cell_block_count(doc: &DocumentTree, cell_prefix: &BlockPath) -> (r: Option<usize>)
    ensures
        r == cell_blocks(doc.blocks@, cell_prefix@),
{
    if cell_prefix.steps.len() < 2 {
        return None;
    }
    match (cell_prefix.steps[0], cell_prefix.steps[1]) {
        (PathStep::Block { idx }, PathStep::Cell { row, col }) => {
            let i: usize = idx as usize;
            if i >= doc.blocks.len() {
                return None;
            }
            match &doc.blocks[i] {
                Block::Table(t) => match t.cell(row, col) {
                    Some(c) => Some(c.blocks.len()),
                    None => None,
                },
                Block::Paragraph(_) => None,
            }
        },
        _ => None,
    }
}

/// The number of blocks in the cell that the first two steps of a path
/// address.
pub open spec fn cell_blocks(blocks: Seq<Block>, prefix: Seq<PathStep>) -> Option<usize> {
    if prefix.len() < 2 {
        None
    } else {
        match (prefix[0], prefix[1]) {
            (PathStep::Block { idx }, PathStep::Cell { row, col }) => if idx < blocks.len() {
                match blocks[idx as int] {
                    Block::Table(t) => match cell_at(t, row as int, col as int) {
                        Some(c) => Some(c.blocks@.len() as usize),
                        None => None,
                    },
                    Block::Paragraph(_) => None,
                }
            } else {
                None
            },
            _ => None,
        }
    }
}

/// Every count of blocks, rows and cells fits a path step.
pub open spec fn blocks_fit(blocks: Seq<Block>) -> bool
    decreases blocks,
{
    &&& blocks.len() <= u32::MAX
    &&& forall|i: int| 0 <= i < blocks.len() ==> block_fits(#[trigger] blocks[i])
}

/// Every count of rows, cells and blocks inside a block fits a path step.
pub open spec fn block_fits(b: Block) -> bool
    decreases b,
{
    match b {
        Block::Paragraph(_) => true,
        Block::Table(t) => {
            &&& t.rows@.len() <= u32::MAX
            &&& forall|r: int| 0 <= r < t.rows@.len() ==> row_fits(#[trigger] t.rows@[r])
        },
    }
}

/// Every count of cells and blocks inside a row fits a path step.
pub open spec fn row_fits(row: TableRow) -> bool
    decreases row,
{
    &&& row.cells@.len() <= u32::MAX
    &&& forall|c: int|
        0 <= c < row.cells@.len() ==> blocks_fit((#[trigger] row.cells@[c]).blocks@)
}

/// Each path comes before all that follow it.
pub open spec fn strictly_sorted(s: Seq<Seq<PathStep>>) -> bool {
    forall|i: int, j: int|
        0 <= i < j < s.len() ==> path_order(#[trigger] s[i], #[trigger] s[j]) < 0
}

/// `q` leads through one of the first `n` blocks of a container at `prefix`
/// to a paragraph.
pub open spec fn through_blocks(
    blocks: Seq<Block>,
    prefix: Seq<PathStep>,
    n: nat,
    q: Seq<PathStep>,
) -> bool {
    &&& q.len() > prefix.len()
    &&& is_prefix(prefix, q)
    &&& q[prefix.len() as int] matches PathStep::Block { idx } && idx < n
    &&& para_at(blocks, q.skip(prefix.len() as int)) is Some
    &&& alternates(q.skip(prefix.len() as int))
}

/// `q` leads through one of the cells of rows before `r`, or of the first `c`
/// cells of row `r`, of a table at `prefix` to a paragraph.
pub open spec fn through_cells(
    rows: Seq<TableRow>,
    prefix: Seq<PathStep>,
    r: int,
    c: int,
    q: Seq<PathStep>,
) -> bool {
    &&& q.len() > prefix.len() + 1
    &&& is_prefix(prefix, q)
    &&& q[prefix.len() as int] matches PathStep::Cell { row, col } && (row < r || (row == r && col
        < c)) && row < rows.len() && col < rows[row as int].cells@.len() && para_at(
        rows[row as int].cells@[col as int].blocks@,
        q.skip(prefix.len() as int + 1),
    ) is Some
    &&& alternates(q.skip(prefix.len() as int + 1))
}

proof fn lemma_prefix_push(prefix: Seq<PathStep>, step: PathStep, q: Seq<PathStep>)
    requires
        is_prefix(prefix.push(step), q),
    ensures
        is_prefix(prefix, q),
        q.len() > prefix.len(),
        q[prefix.len() as int] == step,
{
    let k = prefix.len() as int;
    assert(q.take(k + 1)[k] == step);
    assert(prefix =~= q.take(k)) by {
        assert forall|i: int| 0 <= i < k implies prefix[i] == q[i] by {
            assert(prefix.push(step)[i] == q.take(k + 1)[i]);
        }
    }
}

/// The paths of a list of blocks lead to its paragraphs, in document order.
proof fn lemma_blocks_paths(blocks: Seq<Block>, prefix: Seq<PathStep>, n: nat)
    requires
        blocks_fit(blocks),
        n <= blocks.len(),
    ensures
        forall|i: int|
            0 <= i < blocks_paths(blocks, prefix, n).len() ==> through_blocks(
                blocks,
                prefix,
                n,
                #[trigger] blocks_paths(blocks, prefix, n)[i],
            ),
        strictly_sorted(blocks_paths(blocks, prefix, n)),
    decreases blocks, n,
{
    if n > 0 {
        let m = (n - 1) as nat;
        let step = PathStep::Block { idx: m as u32 };
        let b = blocks[m as int];
        let head = blocks_paths(blocks, prefix, m);
        let tail = block_paths(b, prefix.push(step));
        let all = blocks_paths(blocks, prefix, n);
        assert(all == head + tail);
        lemma_blocks_paths(blocks, prefix, m);
        assert(block_fits(b));
        lemma_block_paths(blocks, m as int, prefix);
        assert forall|i: int| 0 <= i < all.len() implies through_blocks(
            blocks,
            prefix,
            n,
            #[trigger] all[i],
        ) by {
            if i < head.len() {
                assert(all[i] == head[i]);
                assert(through_blocks(blocks, prefix, m, head[i]));
            } else {
                assert(all[i] == tail[i - head.len()]);
            }
        }
        assert forall|i: int, j: int| 0 <= i < j < all.len() implies path_order(
            #[trigger] all[i],
            #[trigger] all[j],
        ) < 0 by {
            if j < head.len() {
                assert(all[i] == head[i] && all[j] == head[j]);
            } else if i >= head.len() {
                assert(all[i] == tail[i - head.len()] && all[j] == tail[j - head.len()]);
            } else {
                let (p, q) = (all[i], all[j]);
                assert(p == head[i] && q == tail[j - head.len()]);
                assert(through_blocks(blocks, prefix, m, p));
                assert(through_blocks(blocks, prefix, n, q));
                let d = prefix.len() as int;
                lemma_prefix_push(prefix, step, q);
                lemma_agree(prefix, p, q);
                crate::common::lemma_order_diverges(p, q, d);
            }
        }
    }
}

proof fn lemma_agree(prefix: Seq<PathStep>, p: Seq<PathStep>, q: Seq<PathStep>)
    requires
        is_prefix(prefix, p),
        is_prefix(prefix, q),
    ensures
        forall|j: int| 0 <= j < prefix.len() ==> p[j] == q[j],
{
    assert forall|j: int| 0 <= j < prefix.len() implies p[j] == q[j] by {
        assert(p.take(prefix.len() as int)[j] == prefix[j]);
        assert(q.take(prefix.len() as int)[j] == prefix[j]);
    }
}

/// The paths of block `m` of a list lead to its paragraphs, in document
/// order.
#[verifier::rlimit(50)]
#[verifier::spinoff_prover]
proof fn lemma_block_paths(blocks: Seq<Block>, m: int, prefix: Seq<PathStep>)
    requires
        0 <= m < blocks.len() <= u32::MAX,
        block_fits(blocks[m]),
    ensures
        ({
            let at = prefix.push(PathStep::Block { idx: m as u32 });
            let s = block_paths(blocks[m], at);
            &&& strictly_sorted(s)
            &&& forall|i: int|
                0 <= i < s.len() ==> is_prefix(at, #[trigger] s[i]) && through_blocks(
                    blocks,
                    prefix,
                    (m + 1) as nat,
                    s[i],
                )
        }),
    decreases blocks, 0nat,
{
    let step = PathStep::Block { idx: m as u32 };
    let at = prefix.push(step);
    let s = block_paths(blocks[m], at);
    let d = prefix.len() as int;
    match blocks[m] {
        Block::Paragraph(_) => {
            assert(s =~= seq![at]);
            assert(at.take(d + 1) =~= at);
            lemma_prefix_push(prefix, step, at);
            assert(at.skip(d) =~= seq![step]);
        },
        Block::Table(t) => {
            assert(decreases_to!(blocks => blocks[m]));
            assert(decreases_to!(blocks[m] => blocks[m]->Table_0));
            assert(decreases_to!(t.rows => t.rows@));
            lemma_rows_paths(t.rows@, at, t.rows@.len());
            assert forall|i: int| 0 <= i < s.len() implies is_prefix(at, #[trigger] s[i])
                && through_blocks(blocks, prefix, (m + 1) as nat, s[i]) by {
                let q = s[i];
                assert(through_cells(t.rows@, at, t.rows@.len() as int, 0, q));
                lemma_prefix_push(prefix, step, q);
                let rest = q.skip(d);
                assert(rest[0] == step);
                assert(rest[1] == q[d + 1]);
                assert(rest.skip(2) =~= q.skip(at.len() as int + 1));
                let inner = q.skip(at.len() as int + 1);
                assert forall|k: int| 0 <= k < rest.len() implies (#[trigger] rest[k] is Block <==> k
                    % 2 == 0) by {
                    if k >= 2 {
                        assert(rest[k] == inner[k - 2]);
                    }
                }
            }
        },
    }
}

/// The paths of the first `n` rows lead to paragraphs, in document order.
proof fn lemma_rows_paths(rows: Seq<TableRow>, prefix: Seq<PathStep>, n: nat)
    requires
        n <= rows.len() <= u32::MAX,
        forall|r: int| 0 <= r < rows.len() ==> row_fits(#[trigger] rows[r]),
    ensures
        forall|i: int|
            0 <= i < rows_paths(rows, prefix, n).len() ==> through_cells(
                rows,
                prefix,
                n as int,
                0,
                #[trigger] rows_paths(rows, prefix, n)[i],
            ),
        strictly_sorted(rows_paths(rows, prefix, n)),
    decreases rows, n,
{
    if n > 0 {
        let m = (n - 1) as nat;
        let head = rows_paths(rows, prefix, m);
        let tail = cells_paths(rows[m as int].cells@, prefix, m as u32, rows[m as int].cells@.len());
        let all = rows_paths(rows, prefix, n);
        assert(all == head + tail);
        lemma_rows_paths(rows, prefix, m);
        assert(row_fits(rows[m as int]));
        lemma_cells_paths(rows, prefix, m as int, rows[m as int].cells@.len());
        assert forall|i: int| 0 <= i < all.len() implies through_cells(
            rows,
            prefix,
            n as int,
            0,
            #[trigger] all[i],
        ) by {
            if i < head.len() {
                assert(all[i] == head[i]);
                assert(through_cells(rows, prefix, m as int, 0, head[i]));
            } else {
                assert(all[i] == tail[i - head.len()]);
                assert(is_prefix(prefix, tail[i - head.len()]));
            }
        }
        assert forall|i: int, j: int| 0 <= i < j < all.len() implies path_order(
            #[trigger] all[i],
            #[trigger] all[j],
        ) < 0 by {
            if j < head.len() {
                assert(all[i] == head[i] && all[j] == head[j]);
            } else if i >= head.len() {
                assert(all[i] == tail[i - head.len()] && all[j] == tail[j - head.len()]);
            } else {
                let (p, q) = (all[i], all[j]);
                assert(p == head[i] && q == tail[j - head.len()]);
                assert(through_cells(rows, prefix, m as int, 0, p));
                assert(is_prefix(prefix, q));
                lemma_agree(prefix, p, q);
                crate::common::lemma_order_diverges(p, q, prefix.len() as int);
            }
        }
    }
}

/// The paths of the first `n` cells of row `r` lead to paragraphs, in
/// document order.
proof fn lemma_cells_paths(rows: Seq<TableRow>, prefix: Seq<PathStep>, r: int, n: nat)
    requires
        0 <= r < rows.len() <= u32::MAX,
        row_fits(rows[r]),
        n <= rows[r].cells@.len(),
    ensures
        ({
            let s = cells_paths(rows[r].cells@, prefix, r as u32, n);
            &&& strictly_sorted(s)
            &&& forall|i: int|
                0 <= i < s.len() ==> is_prefix(prefix, #[trigger] s[i]) && through_cells(
                    rows,
                    prefix,
                    r,
                    n as int,
                    s[i],
                ) && (s[i][prefix.len() as int] matches PathStep::Cell { row, .. } && row == r)
        }),
    decreases rows[r], n,
{
    if n > 0 {
        let m = (n - 1) as nat;
        let cells = rows[r].cells@;
        let cell = cells[m as int];
        let step = PathStep::Cell { row: r as u32, col: m as u32 };
        let at = prefix.push(step);
        let head = cells_paths(cells, prefix, r as u32, m);
        let all = cells_paths(cells, prefix, r as u32, n);
        lemma_cells_paths(rows, prefix, r, m);
        let d = prefix.len() as int;
        if cell.props.v_merge == VMergeRole::Continue {
            assert(all =~= head);
            assert forall|i: int| 0 <= i < all.len() implies is_prefix(prefix, #[trigger] all[i])
                && through_cells(rows, prefix, r, n as int, all[i]) && (all[i][d] matches PathStep::Cell { row, .. }
                && row == r) by {
                assert(all[i] == head[i]);
            }
        } else {
            let tail = blocks_paths(cell.blocks@, at, cell.blocks@.len());
            assert(all == head + tail);
            assert(blocks_fit(cell.blocks@));
            assert(decreases_to!(rows[r].cells@ => rows[r].cells@[m as int].blocks@));
            lemma_blocks_paths(cell.blocks@, at, cell.blocks@.len());
            assert forall|k: int| 0 <= k < tail.len() implies through_cells(
                rows,
                prefix,
                r,
                n as int,
                #[trigger] tail[k],
            ) && is_prefix(prefix, tail[k]) && tail[k][d] == step by {
                assert(through_blocks(cell.blocks@, at, cell.blocks@.len(), tail[k]));
                lemma_prefix_push(prefix, step, tail[k]);
            }
            assert forall|i: int| 0 <= i < all.len() implies is_prefix(prefix, #[trigger] all[i])
                && through_cells(rows, prefix, r, n as int, all[i]) && (all[i][d] matches PathStep::Cell { row, .. }
                && row == r) by {
                if i < head.len() {
                    assert(all[i] == head[i]);
                } else {
                    assert(all[i] == tail[i - head.len()]);
                }
            }
            assert forall|i: int, j: int| 0 <= i < j < all.len() implies path_order(
                #[trigger] all[i],
                #[trigger] all[j],
            ) < 0 by {
                if j < head.len() {
                    assert(all[i] == head[i] && all[j] == head[j]);
                } else if i >= head.len() {
                    assert(all[i] == tail[i - head.len()] && all[j] == tail[j - head.len()]);
                } else {
                    let (p, q) = (all[i], all[j]);
                    assert(p == head[i] && q == tail[j - head.len()]);
                    lemma_agree(prefix, p, q);
                    crate::common::lemma_order_diverges(p, q, d);
                }
            }
        }
    }
}

/// The walk lists the paragraph paths in strictly increasing document order,
/// and each of them leads to a paragraph.
pub proof fn law_walk_in_document_order(blocks: Seq<Block>)
    requires
        blocks_fit(blocks),
    ensures
        strictly_sorted(doc_paths(blocks)),
        forall|i: int|
            0 <= i < doc_paths(blocks).len() ==> para_at(
                blocks,
                #[trigger] doc_paths(blocks)[i],
            ) is Some && alternates(doc_paths(blocks)[i]),
{
    lemma_blocks_paths(blocks, Seq::empty(), blocks.len());
    assert forall|i: int| 0 <= i < doc_paths(blocks).len() implies para_at(
        blocks,
        #[trigger] doc_paths(blocks)[i],
    ) is Some && alternates(doc_paths(blocks)[i]) by {
        let q = doc_paths(blocks)[i];
        assert(through_blocks(blocks, Seq::empty(), blocks.len(), q));
        assert(q.skip(0) =~= q);
    }
}

/// No path is listed twice.
pub proof fn law_walk_without_repeats(blocks: Seq<Block>, i: int, j: int)
    requires
        blocks_fit(blocks),
        0 <= i < j < doc_paths(blocks).len(),
    ensures
        doc_paths(blocks)[i] != doc_paths(blocks)[j],
{
    law_walk_in_document_order(blocks);
    crate::common::law_order_reflexive(doc_paths(blocks)[i]);
}

/// Stepping to a neighbour and back again returns to the same paragraph.
pub proof fn law_neighbor_round_trip(blocks: Seq<Block>, path: Seq<PathStep>, forward: bool)
    requires
        blocks_fit(blocks),
        neighbor_path(blocks, path, forward) is Some,
    ensures
        neighbor_path(blocks, neighbor_path(blocks, path, forward)->0, !forward) == Some(path),
{
    let paths = doc_paths(blocks);
    lemma_path_index(paths, path);
    let i = path_index(paths, path)->0;
    let j = if forward {
        i + 1
    } else {
        i - 1
    };
    assert forall|k: int| 0 <= k < j implies paths[k] != paths[j] by {
        law_walk_without_repeats(blocks, k, j);
    }
    lemma_path_index_is(paths, paths[j], j);
}

/// A paragraph's following neighbour comes after it in document order, and
/// its preceding neighbour before it.
pub proof fn law_neighbor_order(blocks: Seq<Block>, path: Seq<PathStep>, forward: bool)
    requires
        blocks_fit(blocks),
        neighbor_path(blocks, path, forward) is Some,
    ensures
        forward ==> path_order(path, neighbor_path(blocks, path, forward)->0) < 0,
        !forward ==> path_order(path, neighbor_path(blocks, path, forward)->0) > 0,
        para_at(blocks, neighbor_path(blocks, path, forward)->0) is Some,
{
    let paths = doc_paths(blocks);
    law_walk_in_document_order(blocks);
    lemma_path_index(paths, path);
    let i = path_index(paths, path)->0;
    law_order_flips(path, neighbor_path(blocks, path, forward)->0);
    if forward {
        assert(path_order(paths[i], paths[i + 1]) < 0);
    } else {
        assert(path_order(paths[i - 1], paths[i]) < 0);
    }
}

/// The path leads to a paragraph, through no cell that continues a merge.
pub open spec fn reachable(blocks: Seq<Block>, path: Seq<PathStep>) -> bool
    decreases path.len(),
{
    if path.len() == 0 {
        false
    } else {
        match path[0] {
            PathStep::Block { idx } => idx < blocks.len() && (match blocks[idx as int] {
                Block::Paragraph(_) => path.len() == 1,
                Block::Table(t) => path.len() > 2 && (match path[1] {
                    PathStep::Cell { row, col } => row < t.rows@.len() && col
                        < t.rows@[row as int].cells@.len() && t.rows@[row as int].cells@[col as int].props.v_merge
                        != VMergeRole::Continue && reachable(
                        t.rows@[row as int].cells@[col as int].blocks@,
                        path.skip(2),
                    ),
                    PathStep::Block { .. } => false,
                }),
            }),
            PathStep::Cell { .. } => false,
        }
    }
}

proof fn lemma_contains_left(a: Seq<Seq<PathStep>>, b: Seq<Seq<PathStep>>, x: Seq<PathStep>)
    requires
        a.contains(x),
    ensures
        (a + b).contains(x),
{
    let i = choose|i: int| 0 <= i < a.len() && a[i] == x;
    assert((a + b)[i] == x);
}

proof fn lemma_contains_right(a: Seq<Seq<PathStep>>, b: Seq<Seq<PathStep>>, x: Seq<PathStep>)
    requires
        b.contains(x),
    ensures
        (a + b).contains(x),
{
    let i = choose|i: int| 0 <= i < b.len() && b[i] == x;
    assert((a + b)[a.len() + i] == x);
}

proof fn lemma_walk_reaches(blocks: Seq<Block>, prefix: Seq<PathStep>, path: Seq<PathStep>, n: nat)
    requires
        blocks_fit(blocks),
        reachable(blocks, path),
        path[0]->idx < n <= blocks.len(),
    ensures
        blocks_paths(blocks, prefix, n).contains(prefix + path),
    decreases path.len(), 2nat, n,
{
    let idx = path[0]->idx;
    let head = blocks_paths(blocks, prefix, (n - 1) as nat);
    let inner = prefix.push(PathStep::Block { idx: (n - 1) as u32 });
    let tail = block_paths(blocks[n - 1], inner);
    if idx < n - 1 {
        lemma_walk_reaches(blocks, prefix, path, (n - 1) as nat);
        lemma_contains_left(head, tail, prefix + path);
    } else {
        assert(block_fits(blocks[idx as int]));
        match blocks[idx as int] {
            Block::Paragraph(_) => {
                assert(prefix + path =~= inner);
                assert(tail[0] == inner);
                assert(tail.contains(prefix + path));
            },
            Block::Table(t) => {
                lemma_rows_reach(t.rows@, inner, path, t.rows@.len());
                assert(inner + path.skip(1) =~= prefix + path);
            },
        }
        lemma_contains_right(head, tail, prefix + path);
    }
}

proof fn lemma_rows_reach(rows: Seq<TableRow>, prefix: Seq<PathStep>, path: Seq<PathStep>, n: nat)
    requires
        rows.len() <= u32::MAX,
        forall|r: int| 0 <= r < rows.len() ==> row_fits(#[trigger] rows[r]),
        path.len() > 2,
        path[1] is Cell,
        path[1]->row < n <= rows.len(),
        path[1]->col < rows[path[1]->row as int].cells@.len(),
        rows[path[1]->row as int].cells@[path[1]->col as int].props.v_merge != VMergeRole::Continue,
        reachable(
            rows[path[1]->row as int].cells@[path[1]->col as int].blocks@,
            path.skip(2),
        ),
    ensures
        rows_paths(rows, prefix, n).contains(prefix + path.skip(1)),
    decreases path.len(), 1nat, n,
{
    let row = path[1]->row;
    let head = rows_paths(rows, prefix, (n - 1) as nat);
    let cells = rows[n - 1].cells@;
    let tail = cells_paths(cells, prefix, (n - 1) as u32, cells.len());
    if row < n - 1 {
        lemma_rows_reach(rows, prefix, path, (n - 1) as nat);
        lemma_contains_left(head, tail, prefix + path.skip(1));
    } else {
        assert(row_fits(rows[row as int]));
        lemma_cells_reach(cells, prefix, path, cells.len());
        lemma_contains_right(head, tail, prefix + path.skip(1));
    }
}

proof fn lemma_cells_reach(cells: Seq<TableCell>, prefix: Seq<PathStep>, path: Seq<PathStep>, n: nat)
    requires
        cells.len() <= u32::MAX,
        forall|c: int| 0 <= c < cells.len() ==> blocks_fit((#[trigger] cells[c]).blocks@),
        path.len() > 2,
        path[1] is Cell,
        path[1]->col < n <= cells.len(),
        cells[path[1]->col as int].props.v_merge != VMergeRole::Continue,
        reachable(cells[path[1]->col as int].blocks@, path.skip(2)),
    ensures
        cells_paths(cells, prefix, path[1]->row, n).contains(prefix + path.skip(1)),
    decreases path.len(), 0nat, n,
{
    let (row, col) = (path[1]->row, path[1]->col);
    let head = cells_paths(cells, prefix, row, (n - 1) as nat);
    if col < n - 1 {
        lemma_cells_reach(cells, prefix, path, (n - 1) as nat);
        let all = cells_paths(cells, prefix, row, n);
        let tail = all.skip(head.len() as int);
        assert(all =~= head + tail);
        lemma_contains_left(head, tail, prefix + path.skip(1));
    } else {
        let blocks = cells[col as int].blocks@;
        let inner = prefix.push(PathStep::Cell { row, col });
        let tail = blocks_paths(blocks, inner, blocks.len());
        assert(blocks_fit(cells[col as int].blocks@));
        lemma_walk_reaches(blocks, inner, path.skip(2), blocks.len());
        assert(inner + path.skip(2) =~= prefix + path.skip(1));
        lemma_contains_right(head, tail, prefix + path.skip(1));
    }
}

/// The walk leaves out no paragraph: every path that leads to one, through no
/// cell that continues a merge, is listed.
pub proof fn law_walk_is_complete(blocks: Seq<Block>, path: Seq<PathStep>)
    requires
        blocks_fit(blocks),
        reachable(blocks, path),
    ensures
        doc_paths(blocks).contains(path),
{
    lemma_walk_reaches(blocks, Seq::empty(), path, blocks.len());
    assert(Seq::<PathStep>::empty() + path =~= path);
}

/// The text of each paragraph, in document order.
pub open spec fn doc_texts(blocks: Seq<Block>) -> Seq<Seq<char>> {
    doc_paths(blocks).map_values(
        |p: Seq<PathStep>|
            match para_at(blocks, p) {
                Some(para) => para.text@,
                None => Seq::empty(),
            },
    )
}

/// The text of each paragraph, in document order. A paragraph's number is its
/// place in this list.
pub fn paragraph_texts(doc: &DocumentTree) -> (r: Vec<String>)
    ensures
        r@.map_values(|s: String| s@) == doc_texts(doc.blocks@),
{
    let paths = doc_paragraph_paths(doc);
    let ghost goal = doc_texts(doc.blocks@);
    let mut out: Vec<String> = Vec::new();
    let mut i: usize = 0;
    assert(paths_view(paths@).len() == paths@.len());
    while i < paths.len()
        invariant
            i <= paths@.len() == goal.len(),
            paths_view(paths@) == doc_paths(doc.blocks@),
            goal == doc_texts(doc.blocks@),
            out@.len() == i,
            forall|k: int| 0 <= k < i ==> (#[trigger] out@[k])@ == goal[k],
        decreases paths.len() - i,
    {
        assert(paths_view(paths@)[i as int] == paths@[i as int]@);
        let text: String = match doc.paragraph_at_path(&paths[i]) {
            Some(p) => p.text.clone(),
            None => String::new(),
        };
        assert(text@ == goal[i as int]);
        out.push(text);
        i += 1;
    }
    assert(out@.map_values(|s: String| s@) =~= goal);
    out
}

/// A paragraph's neighbour is the very next one: no listed paragraph lies
/// between the two, and where there is no neighbour the paragraph is the last, or
/// the first, that is listed.
pub proof fn law_neighbor_skips_none(
    blocks: Seq<Block>,
    path: Seq<PathStep>,
    forward: bool,
    q: Seq<PathStep>,
)
    requires
        blocks_fit(blocks),
        doc_paths(blocks).contains(path),
        doc_paths(blocks).contains(q),
    ensures
        forward && path_order(path, q) < 0 ==> (neighbor_path(blocks, path, forward) matches Some(
            n,
        ) && path_order(n, q) <= 0),
        !forward && path_order(path, q) > 0 ==> (neighbor_path(blocks, path, forward) matches Some(
            n,
        ) && path_order(n, q) >= 0),
{
    let paths = doc_paths(blocks);
    law_walk_in_document_order(blocks);
    let i = choose|i: int| 0 <= i < paths.len() && paths[i] == path;
    let j = choose|j: int| 0 <= j < paths.len() && paths[j] == q;
    assert forall|k: int| 0 <= k < i implies paths[k] != paths[i] by {
        law_walk_without_repeats(blocks, k, i);
    }
    lemma_path_index_is(paths, path, i);
    crate::common::law_order_reflexive(path);
    crate::common::law_order_reflexive(q);
    if i < j {
        assert(path_order(paths[i], paths[j]) < 0);
        if i + 1 < j {
            assert(path_order(paths[i + 1], paths[j]) < 0);
        }
    } else if j < i {
        assert(path_order(paths[j], paths[i]) < 0);
        crate::common::law_order_flips(path, q);
        if j < i - 1 {
            assert(path_order(paths[j], paths[i - 1]) < 0);
            crate::common::law_order_flips(paths[i - 1], q);
        }
    }
}

/// What lies between two paragraphs is exactly the listed paragraphs that come
/// after the first and before the second.
pub proof fn law_between_holds_what_lies_between(
    blocks: Seq<Block>,
    start: Seq<PathStep>,
    end: Seq<PathStep>,
    q: Seq<PathStep>,
)
    requires
        blocks_fit(blocks),
        doc_paths(blocks).contains(start),
        doc_paths(blocks).contains(end),
        doc_paths(blocks).contains(q),
    ensures
        paths_between(blocks, start, end).contains(q) <==> path_order(start, q) < 0 && path_order(
            q,
            end,
        ) < 0,
{
    let paths = doc_paths(blocks);
    law_walk_in_document_order(blocks);
    let i = choose|i: int| 0 <= i < paths.len() && paths[i] == start;
    let j = choose|j: int| 0 <= j < paths.len() && paths[j] == end;
    let k = choose|k: int| 0 <= k < paths.len() && paths[k] == q;
    assert forall|m: int| 0 <= m < i implies paths[m] != paths[i] by {
        law_walk_without_repeats(blocks, m, i);
    }
    assert forall|m: int| 0 <= m < j implies paths[m] != paths[j] by {
        law_walk_without_repeats(blocks, m, j);
    }
    lemma_path_index_is(paths, start, i);
    lemma_path_index_is(paths, end, j);
    crate::common::law_order_reflexive(q);
    crate::common::law_order_flips(start, q);
    crate::common::law_order_flips(q, end);
    let between = paths_between(blocks, start, end);
    if i < k {
        assert(path_order(paths[i], paths[k]) < 0);
    } else if k < i {
        assert(path_order(paths[k], paths[i]) < 0);
    }
    if k < j {
        assert(path_order(paths[k], paths[j]) < 0);
    } else if j < k {
        assert(path_order(paths[j], paths[k]) < 0);
    }
    if i < k < j {
        assert(between[k - i - 1] == q);
    }
    if between.contains(q) {
        let m = choose|m: int| 0 <= m < between.len() && between[m] == q;
        assert(paths[i + 1 + m] == q);
        let w = i + 1 + m;
        assert(path_order(paths[i], paths[w]) < 0);
        assert(path_order(paths[w], paths[j]) < 0);
    }
}

/// The texts of a document are those of its paragraphs, in the same order.
pub proof fn law_texts_follow_the_walk(blocks: Seq<Block>, i: int)
    requires
        0 <= i < doc_paths(blocks).len(),
    ensures
        doc_texts(blocks).len() == doc_paths(blocks).len(),
        para_at(blocks, doc_paths(blocks)[i]) matches Some(p) ==> doc_texts(blocks)[i] == p.text@,
{
}

} // verus!
