//! Types shared by commands, events and the editing core: document
//! addresses, selections, colours and the small vocabulary enums.

use core::cmp::Ordering;
use vstd::prelude::*;

verus! {

/// One step of a [`BlockPath`].
#[derive(Clone, Copy, Debug, PartialEq, Eq, Structural)]
pub enum PathStep {
    /// Index into the current list of blocks.
    Block { idx: u32 },
    /// Step from a table block into one of its cells.
    Cell { row: u32, col: u32 },
}

/// Address of a block inside the document. Walks from the root list of
/// blocks; the final step names a block or, as a `Cell` step, a table cell.
#[derive(Debug, PartialEq, Eq)]
pub struct BlockPath {
    pub steps: Vec<PathStep>,
}

impl View for BlockPath {
    type V = Seq<PathStep>;

    open spec fn view(&self) -> Seq<PathStep> {
        self.steps@
    }
}

impl Clone for BlockPath {
    fn clone(&self) -> (r: Self)
        ensures
            r@ == self@,
    {
        BlockPath { steps: clone_steps(&self.steps) }
    }
}

impl Default for BlockPath {
    fn default() -> (r: Self)
        ensures
            r@ == Seq::<PathStep>::empty(),
    {
        BlockPath { steps: Vec::new() }
    }
}

/// A copy of a list of path steps.
pub fn clone_steps(steps: &Vec<PathStep>) -> (r: Vec<PathStep>)
    ensures
        r@ == steps@,
{
    let mut out: Vec<PathStep> = Vec::new();
    let mut i: usize = 0;
    while i < steps.len()
        invariant
            i <= steps.len(),
            out@ == steps@.take(i as int),
        decreases steps.len() - i,
    {
        out.push(steps[i]);
        assert(steps@.take(i as int + 1) == steps@.take(i as int).push(steps@[i as int]));
        i += 1;
    }
    assert(steps@.take(steps@.len() as int) == steps@);
    out
}

/// How two steps at the same depth compare: negative, zero or positive.
/// Blocks compare by index, cells by row and then column; a block and a cell
/// compare the block index with the cell's row.
pub open spec fn step_order(a: PathStep, b: PathStep) -> int {
    match (a, b) {
        (PathStep::Block { idx: x }, PathStep::Block { idx: y }) => x - y,
        (PathStep::Cell { row: r1, col: c1 }, PathStep::Cell { row: r2, col: c2 }) => if r1 != r2 {
            r1 - r2
        } else {
            c1 - c2
        },
        (PathStep::Block { idx: x }, PathStep::Cell { row: y, .. }) => x - y,
        (PathStep::Cell { row: x, .. }, PathStep::Block { idx: y }) => x - y,
    }
}

/// How two paths compare in document order: the first differing step decides,
/// and a path that runs out first comes first.
pub open spec fn path_order(a: Seq<PathStep>, b: Seq<PathStep>) -> int
    decreases a.len(),
{
    if a.len() == 0 || b.len() == 0 {
        a.len() - b.len()
    } else if step_order(a[0], b[0]) != 0 {
        step_order(a[0], b[0])
    } else {
        path_order(a.drop_first(), b.drop_first())
    }
}

/// The ordering that the sign of `d` stands for.
pub open spec fn ordering_of(d: int) -> Ordering {
    if d < 0 {
        Ordering::Less
    } else if d > 0 {
        Ordering::Greater
    } else {
        Ordering::Equal
    }
}

/// `a` is a prefix of `b`, or equal to it.
pub open spec fn is_prefix(a: Seq<PathStep>, b: Seq<PathStep>) -> bool {
    a.len() <= b.len() && a == b.take(a.len() as int)
}

/// Paths that address something in a document alternate block and cell
/// steps, starting with a block.
pub open spec fn alternates(p: Seq<PathStep>) -> bool {
    forall|i: int| 0 <= i < p.len() ==> (#[trigger] p[i] is Block <==> i % 2 == 0)
}

fn order_u32(a: u32, b: u32) -> (r: Ordering)
    ensures
        r == ordering_of(a - b),
{
    if a < b {
        Ordering::Less
    } else if a > b {
        Ordering::Greater
    } else {
        Ordering::Equal
    }
}

fn order_steps(a: PathStep, b: PathStep) -> (r: Ordering)
    ensures
        r == ordering_of(step_order(a, b)),
{
    match (a, b) {
        (PathStep::Block { idx: x }, PathStep::Block { idx: y }) => order_u32(x, y),
        (PathStep::Cell { row: r1, col: c1 }, PathStep::Cell { row: r2, col: c2 }) => {
            if r1 != r2 {
                order_u32(r1, r2)
            } else {
                order_u32(c1, c2)
            }
        },
        (PathStep::Block { idx: x }, PathStep::Cell { row: y, .. }) => order_u32(x, y),
        (PathStep::Cell { row: x, .. }, PathStep::Block { idx: y }) => order_u32(x, y),
    }
}

impl BlockPath {
    /// The path of a top-level block.
    pub fn top(idx: u32) -> (r: Self)
        ensures
            r@ == seq![PathStep::Block { idx }],
    {
        let mut steps: Vec<PathStep> = Vec::new();
        steps.push(PathStep::Block { idx });
        BlockPath { steps }
    }

    /// The empty path: the root container. It matches no block.
    pub fn root() -> (r: Self)
        ensures
            r@ == Seq::<PathStep>::empty(),
    {
        BlockPath { steps: Vec::new() }
    }

    /// The path of the container: every step but the last. The root is its
    /// own parent.
    pub fn parent(&self) -> (r: Self)
        ensures
            r@ == if self@.len() == 0 {
                self@
            } else {
                self@.drop_last()
            },
    {
        let mut steps = clone_steps(&self.steps);
        let _ = steps.pop();
        BlockPath { steps }
    }

    /// The final step's block index; `None` for the empty path and for a path
    /// that ends in a cell.
    pub fn last_block_index(&self) -> (r: Option<u32>)
        ensures
            r == last_block(self@),
    {
        let n: usize = self.steps.len();
        if n == 0 {
            return None;
        }
        match self.steps[n - 1] {
            PathStep::Block { idx } => Some(idx),
            PathStep::Cell { .. } => None,
        }
    }

    /// Compare two paths in document order, a depth-first walk in which a
    /// parent comes before its children.
    pub fn cmp_doc_order(&self, other: &Self) -> (r: Ordering)
        ensures
            r == ordering_of(path_order(self@, other@)),
    {
        let i: usize = first_difference(&self.steps, &other.steps);
        proof {
            lemma_order_at_difference(self@, other@, i);
        }
        if i < self.steps.len() && i < other.steps.len() {
            order_steps(self.steps[i], other.steps[i])
        } else if i < other.steps.len() {
            Ordering::Less
        } else if i < self.steps.len() {
            Ordering::Greater
        } else {
            Ordering::Equal
        }
    }

    /// Whether this path is a prefix of `descendant`, or equal to it.
    pub fn is_ancestor_of(&self, descendant: &Self) -> (r: bool)
        ensures
            r == is_prefix(self@, descendant@),
    {
        if self.steps.len() > descendant.steps.len() {
            return false;
        }
        let mut i: usize = 0;
        while i < self.steps.len()
            invariant
                i <= self@.len() <= descendant@.len(),
                forall|j: int| 0 <= j < i ==> self@[j] == descendant@[j],
            decreases self.steps.len() - i,
        {
            if self.steps[i] != descendant.steps[i] {
                assert(self@[i as int] != descendant@.take(self@.len() as int)[i as int]);
                return false;
            }
            i += 1;
        }
        assert(self@ == descendant@.take(self@.len() as int));
        true
    }

    /// Whether two paths have the same steps.
    pub fn same(&self, other: &Self) -> (r: bool)
        ensures
            r == (self@ == other@),
    {
        if self.steps.len() != other.steps.len() {
            return false;
        }
        let r = self.is_ancestor_of(other);
        assert(other@.take(other@.len() as int) == other@);
        r
    }

    /// Whether this path comes before `other` in document order.
    pub fn before(&self, other: &Self) -> (r: bool)
        ensures
            r == (path_order(self@, other@) < 0),
    {
        match self.cmp_doc_order(other) {
            Ordering::Less => true,
            _ => false,
        }
    }

    /// Whether this path comes after `other` in document order.
    pub fn after(&self, other: &Self) -> (r: bool)
        ensures
            r == (path_order(self@, other@) > 0),
    {
        match self.cmp_doc_order(other) {
            Ordering::Greater => true,
            _ => false,
        }
    }

    /// This path with one more step.
    pub fn child(&self, step: PathStep) -> (r: Self)
        ensures
            r@ == self@.push(step),
    {
        let mut steps = clone_steps(&self.steps);
        steps.push(step);
        BlockPath { steps }
    }

    /// Whether the path leads through a table cell.
    pub fn in_cell(&self) -> (r: bool)
        ensures
            r == through_cell(self@),
    {
        let mut i: usize = 0;
        while i < self.steps.len()
            invariant
                i <= self.steps@.len(),
                self@ == self.steps@,
                forall|j: int| 0 <= j < i ==> !((#[trigger] self.steps@[j]) is Cell),
            decreases self.steps.len() - i,
        {
            if let PathStep::Cell { .. } = self.steps[i] {
                assert(self@[i as int] is Cell);
                return true;
            }
            i += 1;
        }
        false
    }
}

/// A path leads through a table cell.
pub open spec fn through_cell(p: Seq<PathStep>) -> bool {
    exists|i: int| 0 <= i < p.len() && (#[trigger] p[i]) is Cell
}

/// The block index that the last step of a path names, if it names one.
pub open spec fn last_block(p: Seq<PathStep>) -> Option<u32> {
    if p.len() == 0 {
        None
    } else {
        match p.last() {
            PathStep::Block { idx } => Some(idx),
            PathStep::Cell { .. } => None,
        }
    }
}

/// The depth at which two step lists first compare unequal, or the length of
/// the shorter one.
fn first_difference(a: &Vec<PathStep>, b: &Vec<PathStep>) -> (i: usize)
    ensures
        differ_at(a@, b@, i as int),
{
    let mut i: usize = 0;
    while i < a.len() && i < b.len()
        invariant
            i <= a@.len(),
            i <= b@.len(),
            forall|j: int| 0 <= j < i ==> step_order(#[trigger] a@[j], b@[j]) == 0,
        decreases a.len() - i,
    {
        if !steps_tie(a[i], b[i]) {
            return i;
        }
        i += 1;
    }
    i
}

fn steps_tie(a: PathStep, b: PathStep) -> (r: bool)
    ensures
        r == (step_order(a, b) == 0),
{
    match (a, b) {
        (PathStep::Block { idx: x }, PathStep::Block { idx: y }) => x == y,
        (PathStep::Cell { row: r1, col: c1 }, PathStep::Cell { row: r2, col: c2 }) => r1 == r2
            && c1 == c2,
        (PathStep::Block { idx: x }, PathStep::Cell { row: y, .. }) => x == y,
        (PathStep::Cell { row: x, .. }, PathStep::Block { idx: y }) => x == y,
    }
}

/// The first `i` steps tie, and either a path ends there or the steps there
/// do not tie.
pub open spec fn differ_at(a: Seq<PathStep>, b: Seq<PathStep>, i: int) -> bool {
    &&& 0 <= i <= a.len()
    &&& i <= b.len()
    &&& forall|j: int| 0 <= j < i ==> step_order(#[trigger] a[j], b[j]) == 0
    &&& i < a.len() && i < b.len() ==> step_order(a[i], b[i]) != 0
}

proof fn lemma_order_at_difference(a: Seq<PathStep>, b: Seq<PathStep>, i: usize)
    requires
        differ_at(a, b, i as int),
    ensures
        i < a.len() && i < b.len() ==> path_order(a, b) == step_order(a[i as int], b[i as int]),
        (i == a.len() || i == b.len()) ==> path_order(a, b) == a.len() - b.len(),
    decreases i,
{
    if i > 0 {
        assert(a.len() > 0 && b.len() > 0);
        assert(step_order(a[0], b[0]) == 0);
        let (a1, b1) = (a.drop_first(), b.drop_first());
        let k: usize = (i - 1) as usize;
        assert forall|j: int| 0 <= j < k implies step_order(#[trigger] a1[j], b1[j]) == 0 by {
            assert(step_order(a[j + 1], b[j + 1]) == 0);
        }
        lemma_order_at_difference(a1, b1, k);
    }
}

/// Paths that agree up to depth `d` compare by their steps there, unless
/// those tie.
pub proof fn lemma_order_diverges(a: Seq<PathStep>, b: Seq<PathStep>, d: int)
    requires
        0 <= d < a.len(),
        d < b.len(),
        forall|j: int| 0 <= j < d ==> a[j] == b[j],
        step_order(a[d], b[d]) != 0,
    ensures
        path_order(a, b) == step_order(a[d], b[d]),
    decreases d,
{
    if d > 0 {
        assert(a[0] == b[0]);
        let (a1, b1) = (a.drop_first(), b.drop_first());
        assert forall|j: int| 0 <= j < d - 1 implies a1[j] == b1[j] by {
            assert(a[j + 1] == b[j + 1]);
        }
        lemma_order_diverges(a1, b1, d - 1);
    }
}

/// Document order is reflexive.
pub proof fn law_order_reflexive(a: Seq<PathStep>)
    ensures
        path_order(a, a) == 0,
    decreases a.len(),
{
    if a.len() > 0 {
        law_order_reflexive(a.drop_first());
    }
}

/// Swapping the two paths turns the comparison round.
pub proof fn law_order_flips(a: Seq<PathStep>, b: Seq<PathStep>)
    ensures
        path_order(a, b) == -path_order(b, a),
    decreases a.len(),
{
    if a.len() > 0 && b.len() > 0 {
        law_order_flips(a.drop_first(), b.drop_first());
    }
}

/// Two paths with block and cell steps in the usual places compare equal only
/// when they are the same path.
pub proof fn law_order_antisymmetric(a: Seq<PathStep>, b: Seq<PathStep>)
    requires
        alternates(a),
        alternates(b),
        path_order(a, b) == 0,
    ensures
        a == b,
{
    assert(a.skip(0) == a);
    assert(b.skip(0) == b);
    lemma_order_equal(a, b, 0);
}

proof fn lemma_order_equal(a: Seq<PathStep>, b: Seq<PathStep>, d: int)
    requires
        0 <= d <= a.len(),
        d <= b.len(),
        alternates(a),
        alternates(b),
        path_order(a.skip(d), b.skip(d)) == 0,
    ensures
        a.skip(d) == b.skip(d),
    decreases a.len() - d,
{
    if d < a.len() && d < b.len() {
        assert(a.skip(d)[0] == a[d]);
        assert(b.skip(d)[0] == b[d]);
        assert(a.skip(d).drop_first() == a.skip(d + 1));
        assert(b.skip(d).drop_first() == b.skip(d + 1));
        lemma_order_equal(a, b, d + 1);
        assert(a.skip(d) == seq![a[d]] + a.skip(d + 1));
        assert(b.skip(d) == seq![b[d]] + b.skip(d + 1));
    } else {
        assert(a.skip(d) == b.skip(d));
    }
}

/// Document order is transitive over paths with block and cell steps in the
/// usual places.
pub proof fn law_order_transitive(a: Seq<PathStep>, b: Seq<PathStep>, c: Seq<PathStep>)
    requires
        alternates(a),
        alternates(b),
        alternates(c),
        path_order(a, b) <= 0,
        path_order(b, c) <= 0,
    ensures
        path_order(a, c) <= 0,
        path_order(a, c) == 0 ==> path_order(a, b) == 0 && path_order(b, c) == 0,
{
    assert(a.skip(0) == a);
    assert(b.skip(0) == b);
    assert(c.skip(0) == c);
    lemma_order_transitive(a, b, c, 0);
}

proof fn lemma_order_transitive(a: Seq<PathStep>, b: Seq<PathStep>, c: Seq<PathStep>, d: int)
    requires
        alternates(a),
        alternates(b),
        alternates(c),
        0 <= d <= a.len(),
        d <= b.len(),
        d <= c.len(),
        path_order(a.skip(d), b.skip(d)) <= 0,
        path_order(b.skip(d), c.skip(d)) <= 0,
    ensures
        path_order(a.skip(d), c.skip(d)) <= 0,
        path_order(a.skip(d), c.skip(d)) == 0 ==> path_order(a.skip(d), b.skip(d)) == 0
            && path_order(b.skip(d), c.skip(d)) == 0,
    decreases a.len() - d,
{
    if d < a.len() && d < b.len() && d < c.len() {
        assert(a.skip(d)[0] == a[d]);
        assert(b.skip(d)[0] == b[d]);
        assert(c.skip(d)[0] == c[d]);
        assert(a.skip(d).drop_first() == a.skip(d + 1));
        assert(b.skip(d).drop_first() == b.skip(d + 1));
        assert(c.skip(d).drop_first() == c.skip(d + 1));
        if step_order(a[d], b[d]) == 0 && step_order(b[d], c[d]) == 0 {
            lemma_order_transitive(a, b, c, d + 1);
        }
    }
}

/// A container sorts before everything inside it.
pub proof fn law_ancestor_first(a: Seq<PathStep>, b: Seq<PathStep>)
    requires
        is_prefix(a, b),
    ensures
        path_order(a, b) == a.len() - b.len(),
    decreases a.len(),
{
    if a.len() > 0 {
        assert(a[0] == b[0]);
        assert(a.drop_first() == b.drop_first().take(a.len() - 1));
        law_ancestor_first(a.drop_first(), b.drop_first());
    }
}

/// The ancestor relation is a partial order.
pub proof fn law_prefix_partial_order(a: Seq<PathStep>, b: Seq<PathStep>, c: Seq<PathStep>)
    ensures
        is_prefix(a, a),
        is_prefix(a, b) && is_prefix(b, a) ==> a == b,
        is_prefix(a, b) && is_prefix(b, c) ==> is_prefix(a, c),
{
    assert(a.take(a.len() as int) == a);
    assert(b.take(b.len() as int) == b);
    if is_prefix(a, b) && is_prefix(b, c) {
        assert(a == c.take(a.len() as int)) by {
            assert forall|i: int| 0 <= i < a.len() implies a[i] == c.take(a.len() as int)[i] by {
                assert(a[i] == b[i]);
                assert(b[i] == c[i]);
            }
        }
    }
}

/// A caret or anchor position: the path of a paragraph and a byte offset into
/// its UTF-8 text.
#[derive(Debug, PartialEq, Eq)]
pub struct LogicalPos {
    pub path: BlockPath,
    pub offset: u32,
}

/// What a [`LogicalPos`] says: the steps of its path and its byte offset.
pub ghost struct Pos {
    pub path: Seq<PathStep>,
    pub offset: u32,
}

impl View for LogicalPos {
    type V = Pos;

    open spec fn view(&self) -> Pos {
        Pos { path: self.path@, offset: self.offset }
    }
}

impl Clone for LogicalPos {
    fn clone(&self) -> (r: Self)
        ensures
            r@ == self@,
    {
        LogicalPos { path: self.path.clone(), offset: self.offset }
    }
}

/// The position at `offset` in the top-level block `idx`.
pub open spec fn top_pos(idx: u32, offset: u32) -> Pos {
    Pos { path: seq![PathStep::Block { idx }], offset }
}

/// Two positions compare by path and then by offset.
pub open spec fn pos_order(a: Pos, b: Pos) -> int {
    if path_order(a.path, b.path) != 0 {
        path_order(a.path, b.path)
    } else {
        a.offset - b.offset
    }
}

impl LogicalPos {
    /// The position at `offset` in the top-level block `idx`.
    pub fn top(idx: u32, offset: u32) -> (r: Self)
        ensures
            r@ == top_pos(idx, offset),
    {
        LogicalPos { path: BlockPath::top(idx), offset }
    }

    /// Whether two positions name the same place.
    pub fn same(&self, other: &Self) -> (r: bool)
        ensures
            r == (self@ == other@),
    {
        self.path.same(&other.path) && self.offset == other.offset
    }
}

/// Put two positions into document order.
pub fn ordered(a: LogicalPos, b: LogicalPos) -> (r: (LogicalPos, LogicalPos))
    ensures
        pos_order(a@, b@) > 0 ==> r.0 == b && r.1 == a,
        pos_order(a@, b@) <= 0 ==> r.0 == a && r.1 == b,
        pos_order(r.0@, r.1@) <= 0,
{
    proof {
        law_order_flips(a.path@, b.path@);
    }
    let swap: bool = match a.path.cmp_doc_order(&b.path) {
        Ordering::Less => false,
        Ordering::Greater => true,
        Ordering::Equal => a.offset > b.offset,
    };
    if swap {
        (b, a)
    } else {
        (a, b)
    }
}

/// Half-open span between two positions.
#[derive(Clone, Debug, PartialEq, Eq)]
pub struct LogicalRange {
    pub start: LogicalPos,
    pub end: LogicalPos,
}

/// What kind of selection is active: a run of text, or a rectangle of table
/// cells with inclusive corners.
#[derive(Debug, PartialEq, Eq)]
pub enum SelectionKind {
    Linear,
    TableCells { table_path: BlockPath, from_row: u32, from_col: u32, to_row: u32, to_col: u32 },
}

/// What a [`SelectionKind`] says.
pub ghost enum Kind {
    Linear,
    Cells { table: Seq<PathStep>, from_row: u32, from_col: u32, to_row: u32, to_col: u32 },
}

impl View for SelectionKind {
    type V = Kind;

    open spec fn view(&self) -> Kind {
        match *self {
            SelectionKind::Linear => Kind::Linear,
            SelectionKind::TableCells { table_path, from_row, from_col, to_row, to_col } => {
                Kind::Cells { table: table_path@, from_row, from_col, to_row, to_col }
            },
        }
    }
}

impl Clone for SelectionKind {
    fn clone(&self) -> (r: Self)
        ensures
            r@ == self@,
    {
        match self {
            SelectionKind::Linear => SelectionKind::Linear,
            SelectionKind::TableCells { table_path, from_row, from_col, to_row, to_col } => {
                SelectionKind::TableCells {
                    table_path: table_path.clone(),
                    from_row: *from_row,
                    from_col: *from_col,
                    to_row: *to_row,
                    to_col: *to_col,
                }
            },
        }
    }
}

impl Default for SelectionKind {
    fn default() -> (r: Self)
        ensures
            r is Linear,
    {
        SelectionKind::Linear
    }
}

/// Layout units per pixel. Every coordinate in this crate counts layout units.
pub const UNITS_PER_PX: i32 = 64;

/// Axis-aligned rectangle in layout units.
#[derive(Clone, Copy, Debug, PartialEq, Eq, Structural)]
pub struct Rect {
    pub x: i64,
    pub y: i64,
    pub w: i64,
    pub h: i64,
}

/// A point in layout units.
#[derive(Clone, Copy, Debug, PartialEq, Eq, Structural)]
pub struct Point {
    pub x: i32,
    pub y: i32,
}

/// One step into a text-box story: the box anchored at byte `at` of the
/// paragraph at `path`.
#[derive(Clone, Debug, PartialEq, Eq)]
pub struct TextBoxHop {
    pub path: BlockPath,
    pub at: u32,
}

/// How text wraps round a floating image.
#[derive(Clone, Copy, Debug, PartialEq, Eq, Structural)]
pub enum ImageWrapMode {
    Square,
    Tight,
    Through,
    TopAndBottom,
    BehindText,
    InFrontOfText,
}

/// Document container format.
#[derive(Clone, Copy, Debug, PartialEq, Eq, Structural)]
pub enum DocFormat {
    Docx,
    Pdf,
    PlainText,
    Html,
}

/// Colour with eight bits per channel.
#[derive(Clone, Copy, Debug, PartialEq, Eq, Structural)]
pub struct Color {
    pub r: u8,
    pub g: u8,
    pub b: u8,
    pub a: u8,
}

/// Underline decoration style.
#[derive(Clone, Copy, Debug, PartialEq, Eq, Structural)]
pub enum UnderlineStyle {
    NoLine,
    Single,
    Double,
    Dotted,
    Dashed,
    Wavy,
}

impl UnderlineStyle {
    /// Whether the style paints anything.
    pub fn is_visible(self) -> (r: bool)
        ensures
            r == (self != UnderlineStyle::NoLine),
    {
        match self {
            UnderlineStyle::NoLine => false,
            _ => true,
        }
    }
}

/// Sub- and superscript positioning.
#[derive(Clone, Copy, Debug, PartialEq, Eq, Structural)]
pub enum VerticalScript {
    Normal,
    Superscript,
    Subscript,
}

/// Directionality of a paragraph, a selection or a run.
#[derive(Clone, Copy, Debug, PartialEq, Eq, Structural)]
pub enum Direction {
    Ltr,
    Rtl,
}

/// Paragraph alignment. `Start` and `End` follow the writing direction.
#[derive(Clone, Copy, Debug, PartialEq, Eq, Structural)]
pub enum Alignment {
    Start,
    End,
    Center,
    Justify,
}

/// Unicode script, reported when a glyph needs a font that is not loaded.
#[derive(Clone, Copy, Debug, PartialEq, Eq, Structural)]
pub enum Script {
    Common,
    Latin,
    Greek,
    Cyrillic,
    Arabic,
    Hebrew,
    Han,
    Hiragana,
    Katakana,
    Hangul,
    Devanagari,
    Thai,
    Unknown,
}

/// A renderer downgrade after repeated crashes.
#[derive(Clone, Debug, PartialEq, Eq)]
pub struct RendererDowngrade {
    /// Backend that the crashing generations painted with.
    pub from: String,
    /// Backend that the recovered generation was forced onto.
    pub to: String,
    pub reason: RendererDowngradeReason,
    /// Consecutive crashes on `from` that led to the downgrade.
    pub consecutive_traps: u32,
}

/// Why a [`RendererDowngrade`] happened.
#[derive(Clone, Copy, Debug, PartialEq, Eq, Structural)]
pub enum RendererDowngradeReason {
    /// Several crashes in a row on one GPU backend.
    CrashLoop,
}

/// Swapping two positions turns their comparison round.
pub proof fn law_pos_order_flips(a: Pos, b: Pos)
    ensures
        pos_order(a, b) == -pos_order(b, a),
{
    law_order_flips(a.path, b.path);
}

/// Two positions that compare equal are the same position.
pub proof fn law_pos_order_antisymmetric(a: Pos, b: Pos)
    requires
        alternates(a.path),
        alternates(b.path),
        pos_order(a, b) == 0,
    ensures
        a == b,
{
    law_order_antisymmetric(a.path, b.path);
}

/// Position order is transitive.
pub proof fn law_pos_order_transitive(a: Pos, b: Pos, c: Pos)
    requires
        alternates(a.path),
        alternates(b.path),
        alternates(c.path),
        pos_order(a, b) <= 0,
        pos_order(b, c) <= 0,
    ensures
        pos_order(a, c) <= 0,
{
    law_order_transitive(a.path, b.path, c.path);
}

/// Of two paths that agree down to some depth, the one with the smaller block
/// index there comes first, and so does the one with the smaller row or, in one
/// row, the smaller column.
pub proof fn law_order_follows_the_indices(a: Seq<PathStep>, b: Seq<PathStep>, d: int)
    requires
        0 <= d < a.len(),
        d < b.len(),
        forall|j: int| 0 <= j < d ==> a[j] == b[j],
    ensures
        a[d] is Block && b[d] is Block && a[d]->idx < b[d]->idx ==> path_order(a, b) < 0
            && path_order(b, a) > 0,
        a[d] is Cell && b[d] is Cell && (a[d]->row < b[d]->row || (a[d]->row == b[d]->row
            && a[d]->col < b[d]->col)) ==> path_order(a, b) < 0 && path_order(b, a) > 0,
{
    if step_order(a[d], b[d]) != 0 {
        lemma_order_diverges(a, b, d);
        lemma_order_diverges(b, a, d);
    }
}

/// In one paragraph, positions come in the order of their offsets; in two, in
/// the order of the paragraphs.
pub proof fn law_positions_follow_the_text(a: Pos, b: Pos)
    ensures
        a.path == b.path && a.offset < b.offset ==> pos_order(a, b) < 0,
        a.path == b.path && a.offset == b.offset ==> pos_order(a, b) == 0,
        path_order(a.path, b.path) < 0 ==> pos_order(a, b) < 0,
{
    law_order_reflexive(a.path);
}

/// One path leads through another where it begins with all of its steps.
pub proof fn law_ancestors_share_the_steps(a: Seq<PathStep>, b: Seq<PathStep>)
    ensures
        is_prefix(a, b) <==> a.len() <= b.len() && forall|i: int|
            0 <= i < a.len() ==> a[i] == #[trigger] b[i],
{
    if a.len() <= b.len() && forall|i: int| 0 <= i < a.len() ==> a[i] == #[trigger] b[i] {
        assert(a =~= b.take(a.len() as int));
    }
    if is_prefix(a, b) {
        assert forall|i: int| 0 <= i < a.len() implies a[i] == #[trigger] b[i] by {
            assert(b.take(a.len() as int)[i] == b[i]);
        }
    }
}

} // verus!
