//! Names for places in the document, by which regions of the accessibility
//! mirror refer to one another.

use crate::a11y::{decimal, digit, push_decimal, region_id};
use crate::common::{BlockPath, PathStep};
use crate::document::NoteKind;
use vstd::prelude::*;
use vstd::string::*;

verus! {

broadcast use vstd::seq_lib::group_seq_properties;

/// The name of a step: the number of a block, or the row and column of a cell
/// with an `x` between them.
pub open spec fn step_name(s: PathStep) -> Seq<char> {
    match s {
        PathStep::Block { idx } => decimal(idx as nat),
        PathStep::Cell { row, col } => decimal(row as nat).push('x') + decimal(col as nat),
    }
}

/// The name of a path: the names of its steps with full stops between them.
pub open spec fn path_name(p: Seq<PathStep>) -> Seq<char>
    decreases p.len(),
{
    if p.len() == 0 {
        Seq::empty()
    } else if p.len() == 1 {
        step_name(p[0])
    } else {
        path_name(p.drop_last()).push('.') + step_name(p.last())
    }
}

/// The name of the story that text boxes stand in, as the beginning of theirs:
/// nothing for the body.
pub open spec fn within(outer: Option<Seq<char>>) -> Seq<char> {
    match outer {
        Some(o) => o.push('/'),
        None => Seq::empty(),
    }
}

/// The name of the text box at byte `at` of the paragraph at `path`, in the body
/// or in the story of the box `outer`.
pub open spec fn box_name(outer: Option<Seq<char>>, path: Seq<PathStep>, at: u32) -> Seq<char> {
    within(outer) + path_name(path).push('@') + decimal(at as nat)
}

fn push_step(s: &mut String, step: PathStep)
    ensures
        final(s)@ == old(s)@ + step_name(step),
{
    match step {
        PathStep::Block { idx } => push_decimal(s, idx),
        PathStep::Cell { row, col } => {
            push_decimal(s, row);
            s.push('x');
            push_decimal(s, col);
            assert(s@ =~= old(s)@ + step_name(step));
        },
    }
}

/// The name of the text box at byte `at` of the paragraph at `path`, in the body
/// or in the story of the box `outer`.
pub fn text_box_id(outer: Option<&String>, path: &BlockPath, at: u32) -> (r: String)
    ensures
        r@ == box_name(
            match outer {
                Some(o) => Some(o@),
                None => None,
            },
            path@,
            at,
        ),
{
    let mut s = String::new();
    if let Some(o) = outer {
        s.append(o.as_str());
        s.push('/');
    }
    let ghost front = s@;
    let mut i: usize = 0;
    assert(path@.take(0) =~= Seq::empty());
    assert(s@ =~= front + path_name(path@.take(0)));
    while i < path.steps.len()
        invariant
            i <= path@.len(),
            path@ == path.steps@,
            s@ == front + path_name(path@.take(i as int)),
        decreases path.steps.len() - i,
    {
        if i > 0 {
            s.push('.');
        }
        push_step(&mut s, path.steps[i]);
        i += 1;
        let ghost now = path@.take(i as int);
        assert(now.drop_last() =~= path@.take(i - 1));
        assert(s@ =~= front + path_name(now));
    }
    assert(path@.take(i as int) =~= path@);
    s.push('@');
    push_decimal(&mut s, at);
    assert(s@ =~= front + path_name(path@).push('@') + decimal(at as nat));
    s
}

proof fn lemma_decimal_digits(n: nat, i: int)
    requires
        0 <= i < decimal(n).len(),
    ensures
        '0' <= decimal(n)[i] <= '9',
    decreases n,
{
    if n >= 10 && i < decimal(n / 10).len() {
        lemma_decimal_digits(n / 10, i);
    }
}

proof fn lemma_decimal_without(n: nat, c: char)
    requires
        !('0' <= c <= '9'),
    ensures
        !decimal(n).contains(c),
        decimal(n).len() > 0,
{
    if decimal(n).contains(c) {
        let i = choose|i: int| 0 <= i < decimal(n).len() && decimal(n)[i] == c;
        lemma_decimal_digits(n, i);
    }
}

proof fn lemma_digit_tells(a: nat, b: nat)
    requires
        a < 10,
        b < 10,
        digit(a) == digit(b),
    ensures
        a == b,
{
}

/// Two numbers in decimal digits that read the same are the same.
pub proof fn lemma_decimal_tells(a: nat, b: nat)
    requires
        decimal(a) == decimal(b),
    ensures
        a == b,
    decreases a,
{
    let (x, y) = (decimal(a), decimal(b));
    if a < 10 {
        if b >= 10 {
            lemma_decimal_without(b / 10, ' ');
            assert(y.len() >= 2);
        } else {
            assert(x[0] == y[0]);
            lemma_digit_tells(a, b);
        }
    } else if b < 10 {
        lemma_decimal_without(a / 10, ' ');
        assert(x.len() >= 2);
    } else {
        assert(x.last() == y.last());
        assert(x.drop_last() =~= decimal(a / 10));
        assert(y.drop_last() =~= decimal(b / 10));
        lemma_decimal_tells(a / 10, b / 10);
        lemma_digit_tells(a % 10, b % 10);
    }
}

/// A text splits at the last of its separators in one way only.
proof fn lemma_split(a1: Seq<char>, d1: Seq<char>, a2: Seq<char>, d2: Seq<char>, c: char)
    requires
        a1.push(c) + d1 == a2.push(c) + d2,
        !d1.contains(c),
        !d2.contains(c),
    ensures
        a1 == a2,
        d1 == d2,
{
    let s = a1.push(c) + d1;
    let t = a2.push(c) + d2;
    assert(s.len() == a1.len() + 1 + d1.len());
    assert(t.len() == a2.len() + 1 + d2.len());
    assert(s[a1.len() as int] == c);
    assert(t[a2.len() as int] == c);
    if a1.len() < a2.len() {
        let k = a2.len() - a1.len() - 1;
        assert(s[a2.len() as int] == d1[k]);
        assert(d1.contains(c));
    }
    if a2.len() < a1.len() {
        let k = a1.len() - a2.len() - 1;
        assert(t[a1.len() as int] == d2[k]);
        assert(d2.contains(c));
    }
    assert(a1 =~= a2) by {
        assert forall|i: int| 0 <= i < a1.len() implies a1[i] == a2[i] by {
            assert(s[i] == a1.push(c)[i] == a1[i]);
            assert(t[i] == a2.push(c)[i] == a2[i]);
        }
    }
    assert(d1 =~= d2) by {
        assert forall|i: int| 0 <= i < d1.len() implies d1[i] == d2[i] by {
            assert(s[a1.len() + 1 + i] == t[a2.len() + 1 + i]);
        }
    }
}

proof fn lemma_step_without(s: PathStep, c: char)
    requires
        !('0' <= c <= '9'),
        c != 'x',
    ensures
        !step_name(s).contains(c),
        step_name(s).len() > 0,
{
    match s {
        PathStep::Block { idx } => {
            lemma_decimal_without(idx as nat, c);
        },
        PathStep::Cell { row, col } => {
            lemma_decimal_without(row as nat, c);
            lemma_decimal_without(col as nat, c);
            let (a, b) = (decimal(row as nat), decimal(col as nat));
            if step_name(s).contains(c) {
                let i = choose|i: int| 0 <= i < step_name(s).len() && step_name(s)[i] == c;
                if i < a.len() {
                    assert(a[i] == c);
                } else if i > a.len() {
                    assert(b[i - a.len() - 1] == c);
                }
            }
        },
    }
}

proof fn lemma_step_tells(s: PathStep, t: PathStep)
    requires
        step_name(s) == step_name(t),
    ensures
        s == t,
{
    match (s, t) {
        (PathStep::Block { idx: a }, PathStep::Block { idx: b }) => {
            lemma_decimal_tells(a as nat, b as nat);
        },
        (PathStep::Cell { row: r1, col: c1 }, PathStep::Cell { row: r2, col: c2 }) => {
            lemma_decimal_without(c1 as nat, 'x');
            lemma_decimal_without(c2 as nat, 'x');
            lemma_split(
                decimal(r1 as nat),
                decimal(c1 as nat),
                decimal(r2 as nat),
                decimal(c2 as nat),
                'x',
            );
            lemma_decimal_tells(r1 as nat, r2 as nat);
            lemma_decimal_tells(c1 as nat, c2 as nat);
        },
        (PathStep::Block { idx }, PathStep::Cell { row, .. }) => {
            lemma_decimal_without(idx as nat, 'x');
            assert(step_name(t)[decimal(row as nat).len() as int] == 'x');
            assert(step_name(s).contains('x'));
        },
        (PathStep::Cell { row, .. }, PathStep::Block { idx }) => {
            lemma_decimal_without(idx as nat, 'x');
            assert(step_name(s)[decimal(row as nat).len() as int] == 'x');
            assert(step_name(t).contains('x'));
        },
    }
}

proof fn lemma_path_tells(p: Seq<PathStep>, q: Seq<PathStep>)
    requires
        path_name(p) == path_name(q),
    ensures
        p == q,
    decreases p.len(),
{
    if p.len() > 0 {
        lemma_step_without(p.last(), '.');
        assert(path_name(p).len() > 0);
    }
    if q.len() > 0 {
        lemma_step_without(q.last(), '.');
        assert(path_name(q).len() > 0);
    }
    if p.len() == 0 || q.len() == 0 {
        assert(p =~= q);
    } else if p.len() == 1 && q.len() == 1 {
        lemma_step_tells(p[0], q[0]);
        assert(p =~= q);
    } else if p.len() == 1 {
        assert(path_name(q)[path_name(q.drop_last()).len() as int] == '.');
        assert(step_name(p[0]).contains('.'));
    } else if q.len() == 1 {
        assert(path_name(p)[path_name(p.drop_last()).len() as int] == '.');
        assert(step_name(q[0]).contains('.'));
    } else {
        lemma_split(
            path_name(p.drop_last()),
            step_name(p.last()),
            path_name(q.drop_last()),
            step_name(q.last()),
            '.',
        );
        lemma_path_tells(p.drop_last(), q.drop_last());
        lemma_step_tells(p.last(), q.last());
        assert(p =~= p.drop_last().push(p.last()));
        assert(q =~= q.drop_last().push(q.last()));
    }
}

/// Two text boxes of one story never share a name.
pub proof fn law_boxes_have_their_own_names(
    outer: Option<Seq<char>>,
    p: Seq<PathStep>,
    a: u32,
    q: Seq<PathStep>,
    b: u32,
)
    requires
        box_name(outer, p, a) == box_name(outer, q, b),
    ensures
        p == q,
        a == b,
{
    let w = within(outer);
    let x = path_name(p).push('@') + decimal(a as nat);
    let y = path_name(q).push('@') + decimal(b as nat);
    assert(box_name(outer, p, a) =~= w + x);
    assert(box_name(outer, q, b) =~= w + y);
    assert(x =~= (w + x).skip(w.len() as int));
    assert(y =~= (w + y).skip(w.len() as int));
    lemma_decimal_without(a as nat, '@');
    lemma_decimal_without(b as nat, '@');
    lemma_split(path_name(p), decimal(a as nat), path_name(q), decimal(b as nat), '@');
    lemma_path_tells(p, q);
    lemma_decimal_tells(a as nat, b as nat);
}

/// Two notes never share the name of a region.
pub proof fn law_notes_have_their_own_names(k: NoteKind, a: u32, l: NoteKind, b: u32)
    requires
        region_id(k, a) == region_id(l, b),
    ensures
        k == l,
        a == b,
{
    reveal_strlit("footnote-");
    reveal_strlit("endnote-");
    let (x, y) = (region_id(k, a), region_id(l, b));
    assert(x[0] == y[0]);
    assert(k == l);
    let n = if k == NoteKind::Footnote {
        "footnote-"@.len()
    } else {
        "endnote-"@.len()
    };
    assert(decimal(a as nat) =~= x.skip(n as int));
    assert(decimal(b as nat) =~= y.skip(n as int));
    lemma_decimal_tells(a as nat, b as nat);
}

/// A block is named by its number, a cell by its row and its column, and the
/// steps of a path are named one after another; a text box is named by its path
/// and its place, behind the name of the story that it stands in.
pub proof fn law_names_say_where(
    outer: Seq<char>,
    path: Seq<PathStep>,
    idx: u32,
    row: u32,
    col: u32,
    at: u32,
)
    requires
        path.len() > 0,
    ensures
        step_name(PathStep::Block { idx }) == decimal(idx as nat),
        step_name(PathStep::Cell { row, col }) == decimal(row as nat) + seq!['x'] + decimal(
            col as nat,
        ),
        path_name(seq![PathStep::Block { idx }]) == decimal(idx as nat),
        path_name(path.push(PathStep::Block { idx })) == path_name(path) + seq!['.'] + decimal(
            idx as nat,
        ),
        box_name(None, path, at) == path_name(path) + seq!['@'] + decimal(at as nat),
        box_name(Some(outer), path, at) == outer + seq!['/'] + path_name(path) + seq!['@'] + decimal(
            at as nat,
        ),
{
    assert(step_name(PathStep::Cell { row, col }) =~= decimal(row as nat) + seq!['x'] + decimal(
        col as nat,
    ));
    let longer = path.push(PathStep::Block { idx });
    assert(longer.drop_last() =~= path);
    assert(path_name(longer) =~= path_name(path) + seq!['.'] + decimal(idx as nat));
    assert(box_name(None, path, at) =~= path_name(path) + seq!['@'] + decimal(at as nat));
    assert(box_name(Some(outer), path, at) =~= outer + seq!['/'] + path_name(path) + seq!['@']
        + decimal(at as nat));
}

} // verus!
