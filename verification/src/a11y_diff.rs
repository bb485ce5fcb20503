//! Changes of the accessibility mirror: comparing two trees, the patches that
//! turn one into the other, and the delta after each command.

use crate::a11y::{
    blocks_nodes, blocks_ok, build_note, find_story, lemma_nodes_push, note_region, push_blocks,
    stories_ok, story_of, Context, Mirror, NoteMarker, NoteStory, StoryPart,
};
use crate::common::Direction;
use crate::document::{Block, NoteKind};
use crate::event::{
    cell_view, cells_view, node_view, nodes_view, opt_chars, rows_view, runs_view, A11yCell,
    A11yNode, A11yNote, A11yNoteRef, A11yObjectRef, A11yParagraph, A11yPatch, A11yRow, A11yRun,
    A11yStory, A11yTable, A11yTextBox, A11yTree, NodeTree,
};
use crate::text::chars_of;
use vstd::prelude::*;

verus! {

broadcast use vstd::seq_lib::group_seq_properties;

/// What a patch says.
pub ghost enum PatchTree {
    Replace { nodes: Seq<NodeTree> },
    Update { index: u32, node: NodeTree },
    Insert { index: u32, node: NodeTree },
    Remove { index: u32 },
}

/// What a patch says.
pub open spec fn patch_view(p: A11yPatch) -> PatchTree {
    match p {
        A11yPatch::Replace { tree } => PatchTree::Replace { nodes: nodes_view(tree.nodes@) },
        A11yPatch::Update { index, node } => PatchTree::Update { index, node: node_view(node) },
        A11yPatch::Insert { index, node } => PatchTree::Insert { index, node: node_view(node) },
        A11yPatch::Remove { index } => PatchTree::Remove { index },
    }
}

/// What a list of patches says.
pub open spec fn patches_view(s: Seq<A11yPatch>) -> Seq<PatchTree> {
    s.map_values(|p: A11yPatch| patch_view(p))
}

/// A tree after one patch.
pub open spec fn patched(tree: Seq<NodeTree>, p: PatchTree) -> Seq<NodeTree> {
    match p {
        PatchTree::Replace { nodes } => nodes,
        PatchTree::Update { index, node } => tree.update(index as int, node),
        PatchTree::Insert { index, node } => tree.insert(index as int, node),
        PatchTree::Remove { index } => tree.remove(index as int),
    }
}

/// A patch fits a tree: it names an existing node, or a place for a new one.
pub open spec fn fits(tree: Seq<NodeTree>, p: PatchTree) -> bool {
    match p {
        PatchTree::Replace { .. } => true,
        PatchTree::Update { index, .. } => index < tree.len(),
        PatchTree::Insert { index, .. } => index <= tree.len(),
        PatchTree::Remove { index } => index < tree.len(),
    }
}

/// A tree after all patches, applied in order.
pub open spec fn patched_all(tree: Seq<NodeTree>, ps: Seq<PatchTree>) -> Seq<NodeTree>
    decreases ps.len(),
{
    if ps.len() == 0 {
        tree
    } else {
        patched(patched_all(tree, ps.drop_last()), ps.last())
    }
}

/// Each patch fits the tree that the ones before it leave.
pub open spec fn fits_all(tree: Seq<NodeTree>, ps: Seq<PatchTree>) -> bool
    decreases ps.len(),
{
    if ps.len() == 0 {
        true
    } else {
        fits_all(tree, ps.drop_last()) && fits(patched_all(tree, ps.drop_last()), ps.last())
    }
}

fn same_opt(a: &Option<String>, b: &Option<String>) -> (r: bool)
    ensures
        r == (opt_chars(*a) == opt_chars(*b)),
{
    match (a, b) {
        (Some(x), Some(y)) => *x == *y,
        (None, None) => true,
        _ => false,
    }
}

fn same_note_ref(a: &Option<A11yNoteRef>, b: &Option<A11yNoteRef>) -> (r: bool)
    ensures
        r == ((match *a {
            Some(n) => Some((n.kind, n.id@)),
            None => None,
        }) == (match *b {
            Some(n) => Some((n.kind, n.id@)),
            None => None,
        })),
{
    match (a, b) {
        (Some(x), Some(y)) => x.kind == y.kind && x.id == y.id,
        (None, None) => true,
        _ => false,
    }
}

fn same_object(a: &Option<A11yObjectRef>, b: &Option<A11yObjectRef>) -> (r: bool)
    ensures
        r == ((match *a {
            Some(o) => Some((o.kind, o.id@, opt_chars(o.alt))),
            None => None,
        }) == (match *b {
            Some(o) => Some((o.kind, o.id@, opt_chars(o.alt))),
            None => None,
        })),
{
    match (a, b) {
        (Some(x), Some(y)) => x.kind == y.kind && x.id == y.id && same_opt(&x.alt, &y.alt),
        (None, None) => true,
        _ => false,
    }
}

fn same_run(a: &A11yRun, b: &A11yRun) -> (r: bool)
    ensures
        r == (a@ == b@),
{
    a.text == b.text && a.bold == b.bold && a.italic == b.italic && a.underline == b.underline
        && same_note_ref(&a.note_ref, &b.note_ref) && same_object(&a.object, &b.object)
}

fn same_runs(a: &Vec<A11yRun>, b: &Vec<A11yRun>) -> (r: bool)
    ensures
        r == (runs_view(a@) == runs_view(b@)),
{
    if a.len() != b.len() {
        assert(runs_view(a@).len() != runs_view(b@).len());
        return false;
    }
    let mut i: usize = 0;
    while i < a.len()
        invariant
            i <= a@.len() == b@.len(),
            forall|j: int| 0 <= j < i ==> runs_view(a@)[j] == runs_view(b@)[j],
        decreases a.len() - i,
    {
        if !same_run(&a[i], &b[i]) {
            assert(runs_view(a@)[i as int] != runs_view(b@)[i as int]);
            return false;
        }
        i += 1;
    }
    assert(runs_view(a@) =~= runs_view(b@));
    true
}

/// Whether two lists of regions say the same.
pub fn same_nodes(a: &Vec<A11yNode>, b: &Vec<A11yNode>) -> (r: bool)
    ensures
        r == (nodes_view(a@) == nodes_view(b@)),
    decreases a, 1nat,
{
    if a.len() != b.len() {
        assert(nodes_view(a@).len() != nodes_view(b@).len());
        return false;
    }
    let mut i: usize = 0;
    while i < a.len()
        invariant
            i <= a@.len() == b@.len(),
            forall|j: int| 0 <= j < i ==> nodes_view(a@)[j] == nodes_view(b@)[j],
        decreases a.len() - i,
    {
        assert(decreases_to!(a => a@[i as int]));
        if !same_node(&a[i], &b[i]) {
            assert(nodes_view(a@)[i as int] != nodes_view(b@)[i as int]);
            return false;
        }
        i += 1;
    }
    assert(nodes_view(a@) =~= nodes_view(b@));
    true
}

fn same_cells(a: &Vec<A11yCell>, b: &Vec<A11yCell>) -> (r: bool)
    ensures
        r == (cells_view(a@) == cells_view(b@)),
    decreases a, 1nat,
{
    if a.len() != b.len() {
        assert(cells_view(a@).len() != cells_view(b@).len());
        return false;
    }
    let mut i: usize = 0;
    while i < a.len()
        invariant
            i <= a@.len() == b@.len(),
            forall|j: int| 0 <= j < i ==> cells_view(a@)[j] == cells_view(b@)[j],
        decreases a.len() - i,
    {
        let (x, y): (&A11yCell, &A11yCell) = (&a[i], &b[i]);
        assert(decreases_to!(a => a@[i as int]));
        assert(decreases_to!(a@[i as int] => a@[i as int].nodes));
        let same: bool = x.row == y.row && x.col == y.col && x.row_span == y.row_span && x.col_span
            == y.col_span && same_nodes(&x.nodes, &y.nodes);
        assert(same == (cell_view(*x) == cell_view(*y)));
        if !same {
            assert(cells_view(a@)[i as int] != cells_view(b@)[i as int]);
            return false;
        }
        i += 1;
    }
    assert(cells_view(a@) =~= cells_view(b@));
    true
}

fn same_rows(a: &Vec<A11yRow>, b: &Vec<A11yRow>) -> (r: bool)
    ensures
        r == (rows_view(a@) == rows_view(b@)),
    decreases a, 1nat,
{
    if a.len() != b.len() {
        assert(rows_view(a@).len() != rows_view(b@).len());
        return false;
    }
    let mut i: usize = 0;
    while i < a.len()
        invariant
            i <= a@.len() == b@.len(),
            forall|j: int| 0 <= j < i ==> rows_view(a@)[j] == rows_view(b@)[j],
        decreases a.len() - i,
    {
        assert(decreases_to!(a => a@[i as int]));
        assert(decreases_to!(a@[i as int] => a@[i as int].cells));
        if !same_cells(&a[i].cells, &b[i].cells) {
            assert(rows_view(a@)[i as int] != rows_view(b@)[i as int]);
            return false;
        }
        i += 1;
    }
    assert(rows_view(a@) =~= rows_view(b@));
    true
}

/// Whether two regions say the same.
pub fn same_node(a: &A11yNode, b: &A11yNode) -> (r: bool)
    ensures
        r == (node_view(*a) == node_view(*b)),
    decreases a, 0nat,
{
    match (a, b) {
        (A11yNode::Paragraph(x), A11yNode::Paragraph(y)) => x.direction == y.direction
            && x.resolved_direction == y.resolved_direction && same_runs(&x.runs, &y.runs),
        (A11yNode::Table(x), A11yNode::Table(y)) => {
            assert(decreases_to!(a => a->Table_0));
            assert(decreases_to!(a->Table_0 => a->Table_0.rows));
            x.block_index == y.block_index && same_rows(&x.rows, &y.rows)
        },
        (A11yNode::Story(x), A11yNode::Story(y)) => {
            assert(decreases_to!(a => a->Story_0));
            assert(decreases_to!(a->Story_0 => a->Story_0.nodes));
            x.header == y.header && x.rid == y.rid && same_nodes(&x.nodes, &y.nodes)
        },
        (A11yNode::TextBox(x), A11yNode::TextBox(y)) => {
            assert(decreases_to!(a => a->TextBox_0));
            assert(decreases_to!(a->TextBox_0 => a->TextBox_0.nodes));
            x.id == y.id && same_opt(&x.name, &y.name) && same_opt(&x.description, &y.description)
                && same_nodes(&x.nodes, &y.nodes)
        },
        (A11yNode::Note(x), A11yNode::Note(y)) => {
            assert(decreases_to!(a => a->Note_0));
            assert(decreases_to!(a->Note_0 => a->Note_0.nodes));
            x.note_kind == y.note_kind && x.id == y.id && x.note_id == y.note_id && x.marker
                == y.marker && same_nodes(&x.nodes, &y.nodes)
        },
        _ => false,
    }
}

fn copy_opt(s: &Option<String>) -> (r: Option<String>)
    ensures
        opt_chars(r) == opt_chars(*s),
{
    match s {
        Some(x) => Some(x.clone()),
        None => None,
    }
}

impl Clone for A11yRun {
    fn clone(&self) -> (r: Self)
        ensures
            r@ == self@,
    {
        A11yRun {
            text: self.text.clone(),
            bold: self.bold,
            italic: self.italic,
            underline: self.underline,
            note_ref: match &self.note_ref {
                Some(n) => Some(A11yNoteRef { kind: n.kind, id: n.id.clone() }),
                None => None,
            },
            object: match &self.object {
                Some(o) => Some(
                    A11yObjectRef { kind: o.kind, id: o.id.clone(), alt: copy_opt(&o.alt) },
                ),
                None => None,
            },
        }
    }
}

fn copy_runs(a: &Vec<A11yRun>) -> (r: Vec<A11yRun>)
    ensures
        runs_view(r@) == runs_view(a@),
{
    let mut out: Vec<A11yRun> = Vec::new();
    let mut i: usize = 0;
    while i < a.len()
        invariant
            i <= a@.len(),
            out@.len() == i,
            forall|j: int| 0 <= j < i ==> runs_view(out@)[j] == runs_view(a@)[j],
        decreases a.len() - i,
    {
        out.push(a[i].clone());
        i += 1;
    }
    assert(runs_view(out@) =~= runs_view(a@));
    out
}

/// A copy of a list of regions.
pub fn copy_nodes(a: &Vec<A11yNode>) -> (r: Vec<A11yNode>)
    ensures
        nodes_view(r@) == nodes_view(a@),
    decreases a, 1nat,
{
    let mut out: Vec<A11yNode> = Vec::new();
    let mut i: usize = 0;
    while i < a.len()
        invariant
            i <= a@.len(),
            out@.len() == i,
            forall|j: int| 0 <= j < i ==> nodes_view(out@)[j] == nodes_view(a@)[j],
        decreases a.len() - i,
    {
        assert(decreases_to!(a => a@[i as int]));
        let n = copy_node(&a[i]);
        let ghost before = out@;
        out.push(n);
        assert(forall|j: int| 0 <= j < i ==> nodes_view(out@)[j] == nodes_view(before)[j]);
        assert(nodes_view(out@)[i as int] == node_view(n));
        i += 1;
    }
    assert(nodes_view(out@) =~= nodes_view(a@));
    out
}

fn copy_cells(a: &Vec<A11yCell>) -> (r: Vec<A11yCell>)
    ensures
        cells_view(r@) == cells_view(a@),
    decreases a, 1nat,
{
    let mut out: Vec<A11yCell> = Vec::new();
    let mut i: usize = 0;
    while i < a.len()
        invariant
            i <= a@.len(),
            out@.len() == i,
            forall|j: int| 0 <= j < i ==> cells_view(out@)[j] == cells_view(a@)[j],
        decreases a.len() - i,
    {
        let x: &A11yCell = &a[i];
        assert(decreases_to!(a => a@[i as int]));
        assert(decreases_to!(a@[i as int] => a@[i as int].nodes));
        let c = A11yCell {
            row: x.row,
            col: x.col,
            row_span: x.row_span,
            col_span: x.col_span,
            nodes: copy_nodes(&x.nodes),
        };
        let ghost before = out@;
        out.push(c);
        assert(forall|j: int| 0 <= j < i ==> cells_view(out@)[j] == cells_view(before)[j]);
        assert(cells_view(out@)[i as int] == cell_view(c));
        assert(cell_view(c) == cell_view(*x));
        i += 1;
    }
    assert(cells_view(out@) =~= cells_view(a@));
    out
}

fn copy_rows(a: &Vec<A11yRow>) -> (r: Vec<A11yRow>)
    ensures
        rows_view(r@) == rows_view(a@),
    decreases a, 1nat,
{
    let mut out: Vec<A11yRow> = Vec::new();
    let mut i: usize = 0;
    while i < a.len()
        invariant
            i <= a@.len(),
            out@.len() == i,
            forall|j: int| 0 <= j < i ==> rows_view(out@)[j] == rows_view(a@)[j],
        decreases a.len() - i,
    {
        assert(decreases_to!(a => a@[i as int]));
        assert(decreases_to!(a@[i as int] => a@[i as int].cells));
        let row = A11yRow { cells: copy_cells(&a[i].cells) };
        let ghost before = out@;
        out.push(row);
        assert(forall|j: int| 0 <= j < i ==> rows_view(out@)[j] == rows_view(before)[j]);
        assert(rows_view(out@)[i as int] == cells_view(row.cells@));
        i += 1;
    }
    assert(rows_view(out@) =~= rows_view(a@));
    out
}

/// A copy of a region.
pub fn copy_node(a: &A11yNode) -> (r: A11yNode)
    ensures
        node_view(r) == node_view(*a),
    decreases a, 0nat,
{
    match a {
        A11yNode::Paragraph(x) => A11yNode::Paragraph(
            A11yParagraph {
                direction: x.direction,
                resolved_direction: x.resolved_direction,
                runs: copy_runs(&x.runs),
            },
        ),
        A11yNode::Table(x) => {
            assert(decreases_to!(a => a->Table_0));
            assert(decreases_to!(a->Table_0 => a->Table_0.rows));
            A11yNode::Table(A11yTable { block_index: x.block_index, rows: copy_rows(&x.rows) })
        },
        A11yNode::Story(x) => {
            assert(decreases_to!(a => a->Story_0));
            assert(decreases_to!(a->Story_0 => a->Story_0.nodes));
            A11yNode::Story(
                A11yStory { header: x.header, rid: x.rid.clone(), nodes: copy_nodes(&x.nodes) },
            )
        },
        A11yNode::TextBox(x) => {
            assert(decreases_to!(a => a->TextBox_0));
            assert(decreases_to!(a->TextBox_0 => a->TextBox_0.nodes));
            A11yNode::TextBox(
                A11yTextBox {
                    id: x.id.clone(),
                    name: copy_opt(&x.name),
                    description: copy_opt(&x.description),
                    nodes: copy_nodes(&x.nodes),
                },
            )
        },
        A11yNode::Note(x) => {
            assert(decreases_to!(a => a->Note_0));
            assert(decreases_to!(a->Note_0 => a->Note_0.nodes));
            A11yNode::Note(
                A11yNote {
                    note_kind: x.note_kind,
                    id: x.id.clone(),
                    note_id: x.note_id,
                    marker: x.marker.clone(),
                    nodes: copy_nodes(&x.nodes),
                },
            )
        },
    }
}

/// The number of equal nodes at the front, at most `max`.
pub open spec fn common_front(a: Seq<NodeTree>, b: Seq<NodeTree>, max: nat) -> nat
    decreases max,
{
    if max == 0 || a.len() == 0 || b.len() == 0 || a[0] != b[0] {
        0
    } else {
        1 + common_front(a.drop_first(), b.drop_first(), (max - 1) as nat)
    }
}

/// The number of equal nodes at the back, at most `max`.
pub open spec fn common_back(a: Seq<NodeTree>, b: Seq<NodeTree>, max: nat) -> nat
    decreases max,
{
    if max == 0 || a.len() == 0 || b.len() == 0 || a.last() != b.last() {
        0
    } else {
        1 + common_back(a.drop_last(), b.drop_last(), (max - 1) as nat)
    }
}

/// Updates for those of the positions from `pre` to `pre + k` at which the
/// nodes differ.
pub open spec fn updates(prev: Seq<NodeTree>, next: Seq<NodeTree>, pre: nat, k: nat) -> Seq<PatchTree>
    decreases k,
{
    if k == 0 {
        Seq::empty()
    } else {
        let i = pre + k - 1;
        let head = updates(prev, next, pre, (k - 1) as nat);
        if prev[i] != next[i] {
            head.push(PatchTree::Update { index: i as u32, node: next[i] })
        } else {
            head
        }
    }
}

/// Insertions of the nodes from `from` to `to`, in order.
pub open spec fn insertions(next: Seq<NodeTree>, from: nat, to: nat) -> Seq<PatchTree> {
    Seq::new(
        (to - from) as nat,
        |j: int| PatchTree::Insert { index: (from + j) as u32, node: next[from + j] },
    )
}

/// `count` removals at one place.
pub open spec fn removals(at: nat, count: nat) -> Seq<PatchTree> {
    Seq::new(count, |j: int| PatchTree::Remove { index: at as u32 })
}

pub open spec fn smaller(a: nat, b: nat) -> nat {
    if a <= b {
        a
    } else {
        b
    }
}

/// The patches from one tree to another: equal nodes at the front and at the
/// back are left alone; in the middle, updates where both trees have a node
/// and it differs, then insertions or removals for the rest.
pub open spec fn diff(prev: Seq<NodeTree>, next: Seq<NodeTree>) -> Seq<PatchTree> {
    let max = smaller(prev.len(), next.len());
    let pre = common_front(prev, next, max);
    let suf = common_back(prev, next, (max - pre) as nat);
    let old_len = (prev.len() - suf - pre) as nat;
    let new_len = (next.len() - suf - pre) as nat;
    let overlap = smaller(old_len, new_len);
    updates(prev, next, pre, overlap) + (if new_len > overlap {
        insertions(next, pre + overlap, pre + new_len)
    } else {
        removals(pre + overlap, (old_len - overlap) as nat)
    })
}

proof fn lemma_common_front(a: Seq<NodeTree>, b: Seq<NodeTree>, max: nat)
    requires
        max <= a.len(),
        max <= b.len(),
    ensures
        common_front(a, b, max) <= max,
        forall|i: int| 0 <= i < common_front(a, b, max) ==> a[i] == b[i],
        common_front(a, b, max) < max ==> a[common_front(a, b, max) as int] != b[common_front(
            a,
            b,
            max,
        ) as int],
    decreases max,
{
    if max > 0 && a[0] == b[0] {
        let (a1, b1) = (a.drop_first(), b.drop_first());
        lemma_common_front(a1, b1, (max - 1) as nat);
        assert forall|i: int| 0 <= i < common_front(a, b, max) implies a[i] == b[i] by {
            if i > 0 {
                assert(a1[i - 1] == b1[i - 1]);
            }
        }
    }
}

proof fn lemma_common_front_is(a: Seq<NodeTree>, b: Seq<NodeTree>, max: nat, k: nat)
    requires
        max <= a.len(),
        max <= b.len(),
        k <= max,
        forall|i: int| 0 <= i < k ==> a[i] == b[i],
        k < max ==> a[k as int] != b[k as int],
    ensures
        common_front(a, b, max) == k,
{
    lemma_common_front(a, b, max);
    let m = common_front(a, b, max);
    if m < k {
        assert(a[m as int] == b[m as int]);
    }
}

/// The last `k` nodes of two trees are equal, pair by pair.
#[verifier::opaque]
pub open spec fn same_back(a: Seq<NodeTree>, b: Seq<NodeTree>, k: nat) -> bool {
    forall|i: int, j: int|
        a.len() - k <= i < a.len() && j - b.len() == i - a.len() ==> #[trigger] a[i]
            == #[trigger] b[j]
}

proof fn lemma_same_back_grows(a: Seq<NodeTree>, b: Seq<NodeTree>, k: nat)
    requires
        same_back(a, b, k),
        k < a.len(),
        k < b.len(),
        a[a.len() - 1 - k] == b[b.len() - 1 - k],
    ensures
        same_back(a, b, k + 1),
{
    reveal(same_back);
}

proof fn lemma_common_back(a: Seq<NodeTree>, b: Seq<NodeTree>, max: nat)
    requires
        max <= a.len(),
        max <= b.len(),
    ensures
        common_back(a, b, max) <= max,
        same_back(a, b, common_back(a, b, max)),
        common_back(a, b, max) < max ==> a[a.len() - 1 - common_back(a, b, max)] != b[b.len() - 1
            - common_back(a, b, max)],
    decreases max,
{
    reveal(same_back);
    if max > 0 && a.last() == b.last() {
        let (a1, b1) = (a.drop_last(), b.drop_last());
        lemma_common_back(a1, b1, (max - 1) as nat);
        assert forall|i: int, j: int|
            a.len() - common_back(a, b, max) <= i < a.len() && j - b.len() == i
                - a.len() implies #[trigger] a[i] == #[trigger] b[j] by {
            if i < a.len() - 1 {
                assert(a1[i] == b1[j]);
            }
        }
    }
}

proof fn lemma_common_back_is(a: Seq<NodeTree>, b: Seq<NodeTree>, max: nat, k: nat)
    requires
        max <= a.len(),
        max <= b.len(),
        k <= max,
        same_back(a, b, k),
        k < max ==> a[a.len() - 1 - k] != b[b.len() - 1 - k],
    ensures
        common_back(a, b, max) == k,
{
    reveal(same_back);
    lemma_common_back(a, b, max);
    let m = common_back(a, b, max);
    if m < k {
        assert(a[a.len() - 1 - m] == b[b.len() - 1 - m]);
    }
    if k < m {
        assert(a[a.len() - 1 - k] == b[b.len() - 1 - k]);
    }
}

proof fn lemma_patches_push(s: Seq<A11yPatch>, p: A11yPatch)
    ensures
        patches_view(s.push(p)) == patches_view(s).push(patch_view(p)),
{
    assert(patches_view(s.push(p)) =~= patches_view(s).push(patch_view(p)));
}

/// The patches that turn `prev` into `next`.
#[verifier::rlimit(50)]
pub fn diff_a11y(prev: &Vec<A11yNode>, next: &Vec<A11yNode>) -> (r: Vec<A11yPatch>)
    ensures
        patches_view(r@) == diff(nodes_view(prev@), nodes_view(next@)),
{
    let ghost a = nodes_view(prev@);
    let ghost b = nodes_view(next@);
    let max: usize = if prev.len() <= next.len() {
        prev.len()
    } else {
        next.len()
    };
    let mut pre: usize = 0;
    while pre < max && same_node(&prev[pre], &next[pre])
        invariant
            pre <= max <= prev@.len(),
            max <= next@.len(),
            a == nodes_view(prev@),
            b == nodes_view(next@),
            forall|i: int| 0 <= i < pre ==> a[i] == b[i],
        decreases max - pre,
    {
        pre += 1;
    }
    proof {
        lemma_common_front_is(a, b, max as nat, pre as nat);
    }
    let mut suf: usize = 0;
    assert(same_back(a, b, 0)) by {
        reveal(same_back);
    }
    while suf < max - pre && same_node(
        &prev[prev.len() - 1 - suf],
        &next[next.len() - 1 - suf],
    )
        invariant
            pre <= max <= prev@.len(),
            max <= next@.len(),
            suf <= max - pre,
            a == nodes_view(prev@),
            b == nodes_view(next@),
            same_back(a, b, suf as nat),
        decreases max - pre - suf,
    {
        proof {
            lemma_same_back_grows(a, b, suf as nat);
        }
        suf += 1;
    }
    proof {
        lemma_common_back_is(a, b, (max - pre) as nat, suf as nat);
    }
    let old_len: usize = prev.len() - suf - pre;
    let new_len: usize = next.len() - suf - pre;
    let overlap: usize = if old_len <= new_len {
        old_len
    } else {
        new_len
    };
    let mut patches: Vec<A11yPatch> = Vec::new();
    let mut k: usize = 0;
    assert(patches_view(patches@) =~= updates(a, b, pre as nat, 0));
    while k < overlap
        invariant
            k <= overlap,
            pre + overlap <= prev@.len(),
            pre + overlap <= next@.len(),
            prev@.len() <= usize::MAX,
            a == nodes_view(prev@),
            b == nodes_view(next@),
            patches_view(patches@) == updates(a, b, pre as nat, k as nat),
        decreases overlap - k,
    {
        let i: usize = pre + k;
        if !same_node(&prev[i], &next[i]) {
            let p = A11yPatch::Update { index: i as u32, node: copy_node(&next[i]) };
            proof {
                lemma_patches_push(patches@, p);
            }
            patches.push(p);
        }
        k += 1;
    }
    let ghost ups = patches_view(patches@);
    if new_len > overlap {
        let mut j: usize = pre + overlap;
        let end: usize = pre + new_len;
        let ghost ins = insertions(b, (pre + overlap) as nat, end as nat);
        assert(patches_view(patches@) =~= ups + ins.take(0));
        while j < end
            invariant
                pre + overlap <= j <= end <= next@.len(),
                b == nodes_view(next@),
                ins == insertions(b, (pre + overlap) as nat, end as nat),
                patches_view(patches@) == ups + ins.take(j - (pre + overlap)),
            decreases end - j,
        {
            let p = A11yPatch::Insert { index: j as u32, node: copy_node(&next[j]) };
            proof {
                lemma_patches_push(patches@, p);
                assert(patch_view(p) == ins[j - (pre + overlap)]);
            }
            patches.push(p);
            j += 1;
            assert(patches_view(patches@) =~= ups + ins.take(j - (pre + overlap)));
        }
        assert(ins.take(end - (pre + overlap)) =~= ins);
    } else {
        let at: usize = pre + overlap;
        let count: usize = old_len - overlap;
        let ghost rem = removals(at as nat, count as nat);
        let mut j: usize = 0;
        assert(patches_view(patches@) =~= ups + rem.take(0));
        while j < count
            invariant
                j <= count,
                rem == removals(at as nat, count as nat),
                patches_view(patches@) == ups + rem.take(j as int),
            decreases count - j,
        {
            let p = A11yPatch::Remove { index: at as u32 };
            proof {
                lemma_patches_push(patches@, p);
                assert(patch_view(p) == rem[j as int]);
            }
            patches.push(p);
            j += 1;
            assert(patches_view(patches@) =~= ups + rem.take(j as int));
        }
        assert(rem.take(count as int) =~= rem);
    }
    patches
}

/// Patching with one list after another is patching with both.
proof fn lemma_patched_concat(tree: Seq<NodeTree>, a: Seq<PatchTree>, b: Seq<PatchTree>)
    ensures
        patched_all(tree, a + b) == patched_all(patched_all(tree, a), b),
        fits_all(tree, a + b) == (fits_all(tree, a) && fits_all(patched_all(tree, a), b)),
    decreases b.len(),
{
    if b.len() == 0 {
        assert(a + b =~= a);
    } else {
        assert((a + b).drop_last() =~= a + b.drop_last());
        lemma_patched_concat(tree, a, b.drop_last());
    }
}

/// What the updates do.
proof fn lemma_updates(prev: Seq<NodeTree>, next: Seq<NodeTree>, pre: nat, k: nat)
    requires
        pre + k <= prev.len(),
        pre + k <= next.len(),
        prev.len() <= u32::MAX,
    ensures
        patched_all(prev, updates(prev, next, pre, k)) =~= prev.take(pre as int) + next.subrange(
            pre as int,
            (pre + k) as int,
        ) + prev.skip((pre + k) as int),
        fits_all(prev, updates(prev, next, pre, k)),
        forall|i: int|
            0 <= i < updates(prev, next, pre, k).len() ==> (#[trigger] updates(
                prev,
                next,
                pre,
                k,
            )[i]) is Update,
    decreases k,
{
    if k > 0 {
        let k1 = (k - 1) as nat;
        lemma_updates(prev, next, pre, k1);
        let i = pre + k - 1;
        let head = updates(prev, next, pre, k1);
        let mid = prev.take(pre as int) + next.subrange(pre as int, (pre + k1) as int) + prev.skip(
            (pre + k1) as int,
        );
        let goal = prev.take(pre as int) + next.subrange(pre as int, (pre + k) as int) + prev.skip(
            (pre + k) as int,
        );
        if prev[i] != next[i] {
            let u = updates(prev, next, pre, k);
            assert(u.drop_last() =~= head);
            assert(mid.update(i, next[i]) =~= goal);
        } else {
            assert(mid =~= goal);
        }
    }
}

/// What the insertions do.
proof fn lemma_insertions(tree: Seq<NodeTree>, next: Seq<NodeTree>, from: nat, to: nat)
    requires
        from <= to <= next.len(),
        from <= tree.len(),
        next.len() <= u32::MAX,
    ensures
        patched_all(tree, insertions(next, from, to)) =~= tree.take(from as int) + next.subrange(
            from as int,
            to as int,
        ) + tree.skip(from as int),
        fits_all(tree, insertions(next, from, to)),
    decreases to - from,
{
    if from < to {
        let t1 = (to - 1) as nat;
        lemma_insertions(tree, next, from, t1);
        assert(insertions(next, from, to).drop_last() =~= insertions(next, from, t1));
        let mid = tree.take(from as int) + next.subrange(from as int, t1 as int) + tree.skip(
            from as int,
        );
        assert(mid.insert(t1 as int, next[t1 as int]) =~= tree.take(from as int) + next.subrange(
            from as int,
            to as int,
        ) + tree.skip(from as int));
    } else {
        assert(insertions(next, from, to) =~= Seq::<PatchTree>::empty());
    }
}

/// What the removals do.
proof fn lemma_removals(tree: Seq<NodeTree>, at: nat, count: nat)
    requires
        at + count <= tree.len(),
        tree.len() <= u32::MAX,
    ensures
        patched_all(tree, removals(at, count)) =~= tree.take(at as int) + tree.skip((at + count) as int),
        fits_all(tree, removals(at, count)),
    decreases count,
{
    if count > 0 {
        let c1 = (count - 1) as nat;
        lemma_removals(tree, at, c1);
        assert(removals(at, count).drop_last() =~= removals(at, c1));
        let mid = tree.take(at as int) + tree.skip((at + c1) as int);
        assert(mid.remove(at as int) =~= tree.take(at as int) + tree.skip((at + count) as int));
    } else {
        assert(removals(at, count) =~= Seq::<PatchTree>::empty());
    }
}

/// Applying the patches of a diff, in order, to the tree before gives the tree
/// after, and each patch names a place that exists when its turn comes.
#[verifier::rlimit(50)]
pub proof fn law_diff_replays(prev: Seq<NodeTree>, next: Seq<NodeTree>)
    requires
        prev.len() <= u32::MAX,
        next.len() <= u32::MAX,
    ensures
        patched_all(prev, diff(prev, next)) == next,
        fits_all(prev, diff(prev, next)),
{
    let max = smaller(prev.len(), next.len());
    let pre = common_front(prev, next, max);
    lemma_common_front(prev, next, max);
    let rest = (max - pre) as nat;
    let suf = common_back(prev, next, rest);
    lemma_common_back(prev, next, rest);
    let old_len = (prev.len() - suf - pre) as nat;
    let new_len = (next.len() - suf - pre) as nat;
    let overlap = smaller(old_len, new_len);
    let ups = updates(prev, next, pre, overlap);
    lemma_updates(prev, next, pre, overlap);
    let mid = patched_all(prev, ups);
    let at = pre + overlap;
    if new_len > overlap {
        let more = insertions(next, at, pre + new_len);
        lemma_insertions(mid, next, at, pre + new_len);
        lemma_patched_concat(prev, ups, more);
        lemma_front_and_back(prev, next, pre, suf, overlap);
    } else {
        let count = (old_len - overlap) as nat;
        let fewer = removals(at, count);
        lemma_removals(mid, at, count);
        lemma_patched_concat(prev, ups, fewer);
        lemma_front_and_back(prev, next, pre, suf, overlap);
    }
}

/// A tree is its front as updated, what is inserted, and the back it shares.
proof fn lemma_front_and_back(
    prev: Seq<NodeTree>,
    next: Seq<NodeTree>,
    pre: nat,
    suf: nat,
    overlap: nat,
)
    requires
        pre + overlap + suf <= prev.len(),
        pre + overlap + suf <= next.len(),
        overlap == smaller((prev.len() - suf - pre) as nat, (next.len() - suf - pre) as nat),
        forall|i: int| 0 <= i < pre ==> prev[i] == next[i],
        same_back(prev, next, suf),
    ensures
        ({
            let at = pre + overlap;
            let mid = prev.take(pre as int) + next.subrange(pre as int, at as int) + prev.skip(
                at as int,
            );
            &&& next.len() - suf > at ==> mid.take(at as int) + next.subrange(
                at as int,
                next.len() - suf,
            ) + mid.skip(at as int) == next
            &&& next.len() - suf <= at ==> mid.take(at as int) + mid.skip(prev.len() - suf) == next
        }),
{
    reveal(same_back);
    let at = pre + overlap;
    let mid = prev.take(pre as int) + next.subrange(pre as int, at as int) + prev.skip(at as int);
    assert forall|j: int| next.len() - suf <= j < next.len() implies #[trigger] next[j] == mid[j
        - next.len() + prev.len()] by {
        assert(prev[j - next.len() + prev.len()] == next[j]);
    }
    if next.len() - suf > at {
        assert(mid.take(at as int) + next.subrange(at as int, next.len() - suf) + mid.skip(at as int)
            =~= next);
    } else {
        assert(mid.take(at as int) + mid.skip(prev.len() - suf) =~= next);
    }
}

/// A diff is empty exactly when the trees are equal.
pub proof fn law_diff_empty_iff_equal(prev: Seq<NodeTree>, next: Seq<NodeTree>)
    requires
        prev.len() <= u32::MAX,
        next.len() <= u32::MAX,
    ensures
        diff(prev, next).len() == 0 <==> prev == next,
{
    if prev == next {
        lemma_common_front_is(prev, next, prev.len(), prev.len());
        assert(diff(prev, next) =~= Seq::empty());
    }
    if diff(prev, next).len() == 0 {
        law_diff_replays(prev, next);
    }
}

/// A diff starts with its updates. What follows is either insertions at rising
/// places or removals at one place, never both: the number of nodes added is
/// the number inserted, the number of nodes gone the number removed.
#[verifier::rlimit(50)]
#[verifier::spinoff_prover]
pub proof fn law_diff_shape(prev: Seq<NodeTree>, next: Seq<NodeTree>)
    requires
        prev.len() <= u32::MAX,
        next.len() <= u32::MAX,
    ensures
        ({
            let d = diff(prev, next);
            let growth = if next.len() >= prev.len() {
                next.len() - prev.len()
            } else {
                prev.len() - next.len()
            };
            let u = d.len() - growth;
            &&& 0 <= u
            &&& forall|i: int| 0 <= i < u ==> (#[trigger] d[i]) is Update
            &&& forall|i: int|
                u <= i < d.len() ==> if next.len() >= prev.len() {
                    (#[trigger] d[i]) is Insert
                } else {
                    d[i] is Remove
                }
            &&& forall|i: int, j: int|
                u <= i < j < d.len() && next.len() >= prev.len() ==> (#[trigger] d[i])->Insert_index
                    < (#[trigger] d[j])->Insert_index
            &&& forall|i: int, j: int|
                u <= i < j < d.len() && next.len() < prev.len() ==> (#[trigger] d[i])->Remove_index
                    == (#[trigger] d[j])->Remove_index
        }),
{
    let max = smaller(prev.len(), next.len());
    let pre = common_front(prev, next, max);
    lemma_common_front(prev, next, max);
    let suf = common_back(prev, next, (max - pre) as nat);
    lemma_common_back(prev, next, (max - pre) as nat);
    let old_len = (prev.len() - suf - pre) as nat;
    let new_len = (next.len() - suf - pre) as nat;
    let overlap = smaller(old_len, new_len);
    lemma_updates(prev, next, pre, overlap);
    let ups = updates(prev, next, pre, overlap);
    let d = diff(prev, next);
    assert(forall|i: int| 0 <= i < ups.len() ==> d[i] == ups[i]);
}

/// When a single node changed, the diff is a single update of that node.
pub proof fn law_one_change_one_update(prev: Seq<NodeTree>, next: Seq<NodeTree>, k: int)
    requires
        prev.len() == next.len(),
        0 <= k < prev.len(),
        prev[k] != next[k],
        forall|i: int| 0 <= i < prev.len() && i != k ==> prev[i] == #[trigger] next[i],
    ensures
        diff(prev, next) == seq![PatchTree::Update { index: k as u32, node: next[k] }],
{
    let max = prev.len();
    lemma_common_front_is(prev, next, max, k as nat);
    let rest = (max - k) as nat;
    let suf = (max - k - 1) as nat;
    assert(same_back(prev, next, suf)) by {
        reveal(same_back);
    }
    lemma_common_back_is(prev, next, rest, suf);
    assert(updates(prev, next, k as nat, 0) =~= Seq::empty());
    assert(updates(prev, next, k as nat, 1) =~= seq![
        PatchTree::Update { index: k as u32, node: next[k] },
    ]);
    assert(removals((k + 1) as nat, 0) =~= Seq::empty());
    assert(diff(prev, next) =~= updates(prev, next, k as nat, 1));
}

/// A node that both trees have in the same place gives no patch there, and
/// none of the nodes at the equal front and back is named by an update.
pub proof fn law_diff_updates_only_changes(prev: Seq<NodeTree>, next: Seq<NodeTree>, i: int)
    requires
        prev.len() <= u32::MAX,
        next.len() <= u32::MAX,
        0 <= i < diff(prev, next).len(),
        diff(prev, next)[i] is Update,
    ensures
        ({
            let at = diff(prev, next)[i]->Update_index;
            &&& at < prev.len()
            &&& at < next.len()
            &&& prev[at as int] != next[at as int]
            &&& diff(prev, next)[i]->Update_node == next[at as int]
        }),
{
    let max = smaller(prev.len(), next.len());
    let pre = common_front(prev, next, max);
    lemma_common_front(prev, next, max);
    let suf = common_back(prev, next, (max - pre) as nat);
    lemma_common_back(prev, next, (max - pre) as nat);
    let old_len = (prev.len() - suf - pre) as nat;
    let new_len = (next.len() - suf - pre) as nat;
    let overlap = smaller(old_len, new_len);
    let ups = updates(prev, next, pre, overlap);
    lemma_updates_change(prev, next, pre, overlap);
    if i < ups.len() {
        assert(diff(prev, next)[i] == ups[i]);
    }
}

proof fn lemma_updates_change(prev: Seq<NodeTree>, next: Seq<NodeTree>, pre: nat, k: nat)
    requires
        pre + k <= prev.len() <= u32::MAX,
        pre + k <= next.len(),
    ensures
        forall|i: int|
            0 <= i < updates(prev, next, pre, k).len() ==> ({
                let p = #[trigger] updates(prev, next, pre, k)[i];
                &&& p is Update
                &&& p->Update_index < pre + k
                &&& prev[p->Update_index as int] != next[p->Update_index as int]
                &&& p->Update_node == next[p->Update_index as int]
            }),
    decreases k,
{
    if k > 0 {
        lemma_updates_change(prev, next, pre, (k - 1) as nat);
    }
}

/// The patches that a step of the session sends.
pub open spec fn delta(prev: Option<Seq<NodeTree>>, next: Seq<NodeTree>) -> Seq<PatchTree> {
    match prev {
        Some(tree) => diff(tree, next),
        None => seq![PatchTree::Replace { nodes: next }],
    }
}

/// What the session remembers of the mirror it sent last.
pub open spec fn sent_view(sent: Option<Vec<A11yNode>>) -> Option<Seq<NodeTree>> {
    match sent {
        Some(nodes) => Some(nodes_view(nodes@)),
        None => None,
    }
}

/// The patches for a new tree, which becomes the tree sent last. The first
/// delta of a session replaces the whole mirror.
pub fn build_a11y_delta(sent: &mut Option<Vec<A11yNode>>, next: Vec<A11yNode>) -> (r: Vec<
    A11yPatch,
>)
    ensures
        patches_view(r@) == delta(sent_view(*old(sent)), nodes_view(next@)),
        sent_view(*final(sent)) == Some(nodes_view(next@)),
{
    let patches = match sent {
        Some(prev) => diff_a11y(prev, &next),
        None => {
            let p = A11yPatch::Replace { tree: A11yTree { nodes: copy_nodes(&next) } };
            let mut v: Vec<A11yPatch> = Vec::new();
            proof {
                lemma_patches_push(v@, p);
                assert(patches_view(v@) =~= Seq::<PatchTree>::empty());
                assert(Seq::<PatchTree>::empty().push(patch_view(p)) =~= seq![patch_view(p)]);
            }
            v.push(p);
            v
        },
    };
    *sent = Some(next);
    patches
}

/// A reader that applies each delta to its copy of the tree sent last always
/// holds the current tree, whether or not it had one before.
pub proof fn law_delta_replays(prev: Option<Seq<NodeTree>>, held: Seq<NodeTree>, next: Seq<NodeTree>)
    requires
        prev is Some ==> prev->0 == held,
        held.len() <= u32::MAX,
        next.len() <= u32::MAX,
    ensures
        patched_all(held, delta(prev, next)) == next,
        fits_all(held, delta(prev, next)),
{
    match prev {
        Some(tree) => {
            assert(tree == held);
            law_diff_replays(held, next);
        },
        None => {
            let d = delta(prev, next);
            assert(d.drop_last() =~= Seq::<PatchTree>::empty());
            assert(fits_all(held, d.drop_last()));
        },
    }
}

/// The nodes of the first `n` headers and footers, and the footnotes placed so
/// far.
pub open spec fn story_nodes(parts: Seq<StoryPart>, cx: Context, n: nat, placed: Seq<u32>) -> (
    Seq<NodeTree>,
    Seq<u32>,
)
    decreases n,
{
    if n == 0 || n > parts.len() {
        (Seq::empty(), placed)
    } else {
        let (head, pl) = story_nodes(parts, cx, (n - 1) as nat, placed);
        let part = parts[n - 1];
        let (nodes, pl2) = blocks_nodes(part.blocks@, cx, part.blocks@.len(), pl);
        (head.push(NodeTree::Story { header: part.header, rid: part.rid@, nodes }), pl2)
    }
}

/// One text sorts before another, character by character.
pub open spec fn text_before(a: Seq<char>, b: Seq<char>) -> bool
    decreases b.len(),
{
    if b.len() == 0 {
        false
    } else if a.len() == 0 {
        true
    } else if a[0] != b[0] {
        a[0] < b[0]
    } else {
        text_before(a.drop_first(), b.drop_first())
    }
}

/// One part belongs behind another: footers behind headers, and among each the
/// parts in order of their names.
pub open spec fn part_behind(x: StoryPart, y: StoryPart) -> bool {
    if x.header != y.header {
        !x.header
    } else {
        text_before(y.rid@, x.rid@)
    }
}

/// No part stands before one that it belongs behind.
pub open spec fn parts_in_order(parts: Seq<StoryPart>) -> bool {
    forall|i: int, j: int|
        0 <= i < j < parts.len() ==> !part_behind(#[trigger] parts[i], #[trigger] parts[j])
}

fn check_text_before(a: &str, b: &str) -> (r: bool)
    ensures
        r == text_before(a@, b@),
{
    let x = chars_of(a);
    let y = chars_of(b);
    let mut i: usize = 0;
    assert(x@.skip(0) =~= a@);
    assert(y@.skip(0) =~= b@);
    while i < x.len() && i < y.len()
        invariant
            i <= x@.len(),
            i <= y@.len(),
            text_before(a@, b@) == text_before(x@.skip(i as int), y@.skip(i as int)),
        decreases x.len() - i,
    {
        let ghost (s, t) = (x@.skip(i as int), y@.skip(i as int));
        assert(s[0] == x@[i as int] && t[0] == y@[i as int]);
        if x[i] != y[i] {
            return x[i] < y[i];
        }
        assert(s.drop_first() =~= x@.skip(i + 1));
        assert(t.drop_first() =~= y@.skip(i + 1));
        i += 1;
    }
    i < y.len()
}

fn check_part_behind(x: &StoryPart, y: &StoryPart) -> (r: bool)
    ensures
        r == part_behind(*x, *y),
{
    if x.header != y.header {
        !x.header
    } else {
        check_text_before(y.rid.as_str(), x.rid.as_str())
    }
}

proof fn lemma_text_before_one_way(a: Seq<char>, b: Seq<char>)
    requires
        text_before(a, b),
    ensures
        !text_before(b, a),
    decreases b.len(),
{
    if a.len() > 0 && a[0] == b[0] {
        lemma_text_before_one_way(a.drop_first(), b.drop_first());
    }
}

proof fn lemma_text_before_chains(a: Seq<char>, b: Seq<char>, c: Seq<char>)
    requires
        text_before(a, b),
        text_before(b, c),
    ensures
        text_before(a, c),
    decreases b.len(),
{
    if a.len() > 0 && a[0] == b[0] && b[0] == c[0] {
        lemma_text_before_chains(a.drop_first(), b.drop_first(), c.drop_first());
    }
}

/// Put headers before footers, and each of them in order of their names.
pub fn order_parts(parts: Vec<StoryPart>) -> (r: Vec<StoryPart>)
    ensures
        r@.to_multiset() == parts@.to_multiset(),
        parts_in_order(r@),
{
    broadcast use vstd::seq_lib::group_to_multiset_ensures;

    let ghost all = parts@;
    let mut left = parts;
    let mut out: Vec<StoryPart> = Vec::new();
    assert(out@.to_multiset() =~= vstd::multiset::Multiset::<StoryPart>::empty());
    while left.len() > 0
        invariant
            left@.to_multiset().add(out@.to_multiset()) == all.to_multiset(),
            parts_in_order(out@),
        decreases left.len(),
    {
        let ghost (l0, o0) = (left@, out@);
        let part = match left.pop() {
            Some(p) => p,
            None => {
                return out;
            },
        };
        assert(l0 =~= left@.push(part));
        let mut k: usize = 0;
        while k < out.len() && !check_part_behind(&out[k], &part)
            invariant
                k <= out@.len(),
                out@ == o0,
                forall|i: int| 0 <= i < k ==> !part_behind(#[trigger] out@[i], part),
            decreases out.len() - k,
        {
            k += 1;
        }
        assert(k < o0.len() ==> part_behind(o0[k as int], part));
        out.insert(k, part);
        proof {
            vstd::seq_lib::to_multiset_insert(o0, k as int, part);
            assert(left@.to_multiset().add(out@.to_multiset()) =~= l0.to_multiset().add(
                o0.to_multiset(),
            ));
            lemma_inserted_in_order(o0, k as int, part);
        }
    }
    assert(left@ =~= Seq::<StoryPart>::empty());
    assert(left@.to_multiset().add(out@.to_multiset()) =~= out@.to_multiset());
    out
}

proof fn lemma_inserted_in_order(s: Seq<StoryPart>, k: int, part: StoryPart)
    requires
        parts_in_order(s),
        0 <= k <= s.len(),
        forall|i: int| 0 <= i < k ==> !part_behind(#[trigger] s[i], part),
        k < s.len() ==> part_behind(s[k], part),
    ensures
        parts_in_order(s.insert(k, part)),
{
    let r = s.insert(k, part);
    assert forall|i: int, j: int| 0 <= i < j < r.len() implies !part_behind(
        #[trigger] r[i],
        #[trigger] r[j],
    ) by {
        let x = if j < k { s[j] } else { s[j - 1] };
        if j < k {
            assert(r[i] == s[i] && r[j] == s[j]);
        } else if j == k {
            assert(r[i] == s[i] && r[j] == part);
        } else if i < k {
            assert(r[i] == s[i] && r[j] == s[j - 1]);
        } else if i > k {
            assert(r[i] == s[i - 1] && r[j] == s[j - 1]);
        } else {
            assert(r[i] == part && r[j] == s[j - 1]);
            if part_behind(part, x) {
                if j - 1 == k {
                    lemma_behind_one_way(s[k], part);
                } else {
                    lemma_behind_chains(s[k], part, x);
                    assert(!part_behind(s[k], s[j - 1]));
                }
            }
        }
    }
}

proof fn lemma_behind_one_way(x: StoryPart, y: StoryPart)
    requires
        part_behind(x, y),
    ensures
        !part_behind(y, x),
{
    if x.header == y.header {
        lemma_text_before_one_way(y.rid@, x.rid@);
    }
}

proof fn lemma_behind_chains(x: StoryPart, y: StoryPart, z: StoryPart)
    requires
        part_behind(x, y),
        part_behind(y, z),
    ensures
        part_behind(x, z),
{
    if x.header == y.header && y.header == z.header {
        lemma_text_before_chains(z.rid@, y.rid@, x.rid@);
    }
}

/// Sorting parts that have their own names leaves no choice: two lists in order
/// that hold the same parts are the same.
pub proof fn law_order_of_parts_is_fixed(a: Seq<StoryPart>, b: Seq<StoryPart>)
    requires
        parts_in_order(a),
        parts_in_order(b),
        a.to_multiset() == b.to_multiset(),
        forall|i: int, j: int|
            0 <= i < j < a.len() ==> (#[trigger] a[i]).header != (#[trigger] a[j]).header
                || a[i].rid@ != a[j].rid@,
    ensures
        a == b,
    decreases a.len(),
{
    broadcast use vstd::seq_lib::group_to_multiset_ensures;

    assert(a.len() == a.to_multiset().len() == b.len());
    if a.len() == 0 {
        assert(a =~= b);
    } else {
        let x = a.last();
        let y = b.last();
        assert(a.contains(x) && b.contains(y));
        assert(b.to_multiset().count(x) > 0 && a.to_multiset().count(y) > 0);
        assert(b.contains(x) && a.contains(y));
        let i = choose|i: int| 0 <= i < b.len() && b[i] == x;
        let j = choose|j: int| 0 <= j < a.len() && a[j] == y;
        if j < a.len() - 1 {
            assert(!part_behind(a[j], a[a.len() - 1]));
            if i < b.len() - 1 {
                assert(!part_behind(b[i], b[b.len() - 1]));
            }
            lemma_parts_compare(x, y);
        }
        assert(x == y);
        assert(a =~= a.drop_last().push(x));
        assert(b =~= b.drop_last().push(x));
        assert(a.drop_last() =~= a.remove(a.len() - 1));
        assert(b.drop_last() =~= b.remove(b.len() - 1));
        law_order_of_parts_is_fixed(a.drop_last(), b.drop_last());
    }
}

proof fn lemma_parts_compare(x: StoryPart, y: StoryPart)
    requires
        x.header != y.header || x.rid@ != y.rid@,
    ensures
        part_behind(x, y) || part_behind(y, x),
{
    if x.header == y.header {
        lemma_texts_compare(x.rid@, y.rid@);
    }
}

proof fn lemma_texts_compare(a: Seq<char>, b: Seq<char>)
    requires
        a != b,
    ensures
        text_before(a, b) || text_before(b, a),
    decreases a.len(),
{
    if a.len() > 0 && b.len() > 0 && a[0] == b[0] {
        if a.drop_first() == b.drop_first() {
            assert(a =~= seq![a[0]] + a.drop_first());
            assert(b =~= seq![b[0]] + b.drop_first());
        }
        lemma_texts_compare(a.drop_first(), b.drop_first());
    } else if a.len() == 0 && b.len() == 0 {
        assert(a =~= b);
    }
}

/// The regions of the endnotes among the first `n` markers that have a text.
pub open spec fn endnote_nodes(cx: Context, n: nat) -> Seq<NodeTree>
    decreases n,
{
    if n == 0 || n > cx.markers.len() {
        Seq::empty()
    } else {
        let head = endnote_nodes(cx, (n - 1) as nat);
        let m = cx.markers[n - 1];
        match story_of(cx.stories, m.kind, m.id) {
            Some(story) if m.kind == NoteKind::Endnote => head.push(note_region(story, cx)),
            _ => head,
        }
    }
}

/// The whole mirror: the body, then the headers and footers, then the
/// endnotes in the order of their markers.
pub open spec fn mirror_nodes(body: Seq<Block>, parts: Seq<StoryPart>, cx: Context) -> Seq<NodeTree> {
    let (nodes, placed) = blocks_nodes(body, cx, body.len(), Seq::empty());
    nodes + story_nodes(parts, cx, parts.len(), placed).0 + endnote_nodes(cx, cx.markers.len())
}

/// Build the whole mirror.
pub fn build_a11y_nodes(
    body: &Vec<Block>,
    parts: &Vec<StoryPart>,
    dir: Direction,
    markers: &Vec<NoteMarker>,
    stories: &Vec<NoteStory>,
) -> (r: Vec<A11yNode>)
    requires
        blocks_ok(body@),
        stories_ok(stories@),
        forall|i: int| 0 <= i < parts@.len() ==> blocks_ok((#[trigger] parts@[i]).blocks@),
    ensures
        nodes_view(r@) == mirror_nodes(
            body@,
            parts@,
            (Context {
                dir,
                markers: markers@,
                stories: stories@,
                own: Seq::empty(),
                notes: true,
            }),
        ),
{
    let own = String::new();
    let cx = Mirror { dir, markers, stories, own: &own, notes: true };
    assert(own@ =~= Seq::empty());
    let mut out: Vec<A11yNode> = Vec::new();
    let mut placed: Vec<u32> = Vec::new();
    assert(nodes_view(out@) =~= Seq::empty());
    push_blocks(body, &cx, &mut placed, &mut out);
    let ghost front = nodes_view(out@);
    let ghost p0 = placed@;
    assert(front =~= blocks_nodes(body@, cx@, body@.len(), Seq::empty()).0);
    let mut n: usize = 0;
    assert(nodes_view(out@) =~= front + story_nodes(parts@, cx@, 0, p0).0);
    while n < parts.len()
        invariant
            n <= parts@.len(),
            stories_ok(cx.stories@),
            forall|i: int| 0 <= i < parts@.len() ==> blocks_ok((#[trigger] parts@[i]).blocks@),
            nodes_view(out@) == front + story_nodes(parts@, cx@, n as nat, p0).0,
            placed@ == story_nodes(parts@, cx@, n as nat, p0).1,
        decreases parts.len() - n,
    {
        let part: &StoryPart = &parts[n];
        assert(blocks_ok(parts@[n as int].blocks@));
        let mut nodes: Vec<A11yNode> = Vec::new();
        assert(nodes_view(nodes@) =~= Seq::empty());
        push_blocks(&part.blocks, &cx, &mut placed, &mut nodes);
        let node = A11yNode::Story(
            A11yStory { header: part.header, rid: part.rid.clone(), nodes },
        );
        proof {
            lemma_nodes_push(out@, node);
        }
        out.push(node);
        n += 1;
        assert(nodes_view(out@) =~= front + story_nodes(parts@, cx@, n as nat, p0).0);
    }
    let ghost front2 = nodes_view(out@);
    let mut k: usize = 0;
    assert(nodes_view(out@) =~= front2 + endnote_nodes(cx@, 0));
    while k < markers.len()
        invariant
            k <= markers@.len(),
            markers@ == cx@.markers,
            stories@ == cx@.stories,
            cx.notes,
            stories_ok(stories@),
            nodes_view(out@) == front2 + endnote_nodes(cx@, k as nat),
        decreases markers.len() - k,
    {
        let m: &NoteMarker = &markers[k];
        if m.kind == NoteKind::Endnote {
            if let Some(story) = find_story(stories, m.kind, m.id) {
                let node = build_note(story, &cx);
                proof {
                    lemma_nodes_push(out@, node);
                }
                out.push(node);
            }
        }
        k += 1;
        assert(nodes_view(out@) =~= front2 + endnote_nodes(cx@, k as nat));
    }
    out
}

/// The mirror begins with the body, and every header and footer follows as a
/// region that says which it is.
pub proof fn law_mirror_holds_every_part(
    body: Seq<Block>,
    parts: Seq<StoryPart>,
    cx: Context,
    i: int,
)
    requires
        0 <= i < parts.len(),
    ensures
        ({
            let all = mirror_nodes(body, parts, cx);
            let nodes = blocks_nodes(body, cx, body.len(), Seq::empty()).0;
            &&& all.len() >= nodes.len() + parts.len()
            &&& all.take(nodes.len() as int) == nodes
            &&& all[nodes.len() + i] matches NodeTree::Story { header, rid, .. } && header
                == parts[i].header && rid == parts[i].rid@
        }),
{
    let (nodes, placed) = blocks_nodes(body, cx, body.len(), Seq::empty());
    let stories = story_nodes(parts, cx, parts.len(), placed).0;
    let all = mirror_nodes(body, parts, cx);
    lemma_story_of_each_part(parts, cx, parts.len(), placed, i);
    assert(all.take(nodes.len() as int) =~= nodes);
    assert(all[nodes.len() + i] == stories[i]);
}

proof fn lemma_story_of_each_part(
    parts: Seq<StoryPart>,
    cx: Context,
    n: nat,
    placed: Seq<u32>,
    i: int,
)
    requires
        0 <= i < n <= parts.len(),
    ensures
        story_nodes(parts, cx, n, placed).0.len() == n,
        story_nodes(parts, cx, n, placed).0[i] matches NodeTree::Story { header, rid, .. } && header
            == parts[i].header && rid == parts[i].rid@,
    decreases n,
{
    if n > 1 {
        lemma_story_of_each_part(parts, cx, (n - 1) as nat, placed, if i < n - 1 {
            i
        } else {
            0
        });
    } else {
        assert(story_nodes(parts, cx, 0, placed).0.len() == 0);
    }
}

/// Every endnote with a marker and a text has its region in the mirror, under
/// its own number and marker.
pub proof fn law_mirror_holds_every_endnote(
    body: Seq<Block>,
    parts: Seq<StoryPart>,
    cx: Context,
    i: int,
    story: NoteStory,
)
    requires
        0 <= i < cx.markers.len(),
        cx.markers[i].kind == NoteKind::Endnote,
        story_of(cx.stories, NoteKind::Endnote, cx.markers[i].id) == Some(story),
        story.kind == NoteKind::Endnote,
        story.id == cx.markers[i].id,
    ensures
        ({
            let all = mirror_nodes(body, parts, cx);
            exists|k: int|
                0 <= k < all.len() && (#[trigger] all[k]) is Note && all[k]->Note_kind
                    == crate::event::A11yNoteKind::Endnote && all[k]->note_id == cx.markers[i].id
                    && all[k]->marker == crate::a11y::marker_of(
                    cx.markers,
                    NoteKind::Endnote,
                    cx.markers[i].id,
                )
        }),
{
    lemma_endnote_listed(cx, cx.markers.len(), i, story);
    let (nodes, placed) = blocks_nodes(body, cx, body.len(), Seq::empty());
    let stories = story_nodes(parts, cx, parts.len(), placed).0;
    let ends = endnote_nodes(cx, cx.markers.len());
    let all = mirror_nodes(body, parts, cx);
    let k = choose|k: int| 0 <= k < ends.len() && ends[k] == note_region(story, cx);
    assert(all[nodes.len() + stories.len() + k] == ends[k]);
}

proof fn lemma_endnote_listed(cx: Context, n: nat, i: int, story: NoteStory)
    requires
        0 <= i < n <= cx.markers.len(),
        cx.markers[i].kind == NoteKind::Endnote,
        story_of(cx.stories, NoteKind::Endnote, cx.markers[i].id) == Some(story),
    ensures
        endnote_nodes(cx, n).contains(note_region(story, cx)),
    decreases n,
{
    let head = endnote_nodes(cx, (n - 1) as nat);
    let all = endnote_nodes(cx, n);
    if i < n - 1 {
        lemma_endnote_listed(cx, (n - 1) as nat, i, story);
        let k = choose|k: int| 0 <= k < head.len() && head[k] == note_region(story, cx);
        assert(all[k] == head[k]);
    } else {
        assert(all[head.len() as int] == note_region(story, cx));
    }
}

} // verus!
