//! The field that a selection addresses.

use crate::common::{ordered, LogicalPos, PathStep, Pos};
use crate::edits::capital;
use crate::event::BridgeFieldRef;
use crate::motion::{Sel, SelectionState};
use crate::session::in_doc_order;
use crate::text::chars_of;
use vstd::prelude::*;
use vstd::string::*;

verus! {

broadcast use vstd::seq_lib::group_seq_properties;

/// A field of a paragraph: the bytes that show its result, and its code.
#[derive(Clone, Debug, PartialEq, Eq)]
pub struct Field {
    pub start: u32,
    pub end: u32,
    pub instruction: String,
}

/// A character between words: a space or one of the controls from tab to
/// carriage return.
pub open spec fn is_blank(c: char) -> bool {
    c == ' ' || '\t' <= c <= '\r'
}

fn check_blank(c: char) -> (r: bool)
    ensures
        r == is_blank(c),
{
    c == ' ' || ('\t' <= c && c <= '\r')
}

/// The first position from `i` on where a text is blank or not, as `blank` says;
/// its length when there is none.
pub open spec fn run_end(s: Seq<char>, i: int, blank: bool) -> int
    decreases s.len() - i,
{
    if 0 <= i < s.len() && is_blank(s[i]) != blank {
        run_end(s, i + 1, blank)
    } else {
        i
    }
}

/// The first word of a text.
pub open spec fn first_word(s: Seq<char>) -> Seq<char> {
    let from = run_end(s, 0, false);
    s.subrange(from, run_end(s, from, true))
}

fn find_run_end(s: &Vec<char>, from: usize, blank: bool) -> (r: usize)
    requires
        from <= s@.len(),
    ensures
        r == run_end(s@, from as int, blank),
        from <= r <= s@.len(),
{
    let mut i: usize = from;
    while i < s.len() && check_blank(s[i]) != blank
        invariant
            from <= i <= s@.len(),
            run_end(s@, i as int, blank) == run_end(s@, from as int, blank),
        decreases s.len() - i,
    {
        i += 1;
    }
    i
}

/// A text in capitals, within ASCII.
pub open spec fn capitals(s: Seq<char>) -> Seq<char> {
    s.map_values(|c: char| capital(c) as char)
}

fn capital_of(c: char) -> (r: char)
    ensures
        r == capital(c) as char,
{
    if 'a' <= c && c <= 'z' {
        let v: u8 = (c as u32 - 32) as u8;
        v as char
    } else {
        c
    }
}

/// The leading keyword of a field's code, in capitals.
pub fn keyword_of(instruction: &str) -> (r: String)
    ensures
        r@ == capitals(first_word(instruction@)),
{
    let chars = chars_of(instruction);
    let from: usize = find_run_end(&chars, 0, false);
    let to: usize = find_run_end(&chars, from, true);
    let mut out = String::new();
    let mut i: usize = from;
    assert(out@ =~= capitals(chars@.subrange(from as int, from as int)));
    while i < to
        invariant
            from <= i <= to <= chars@.len(),
            out@ == capitals(chars@.subrange(from as int, i as int)),
        decreases to - i,
    {
        out.push(capital_of(chars[i]));
        i += 1;
        assert(out@ =~= capitals(chars@.subrange(from as int, i as int)));
    }
    out
}

/// The first of the fields from `from` on that a test picks.
pub open spec fn first_field(fields: Seq<Field>, from: nat, pick: spec_fn(Field) -> bool) -> Option<
    Field,
>
    decreases fields.len() - from,
{
    if from >= fields.len() {
        None
    } else if pick(fields[from as int]) {
        Some(fields[from as int])
    } else {
        first_field(fields, from + 1, pick)
    }
}

/// A field covers exactly the bytes from one place to another.
pub open spec fn covers(start: u32, end: u32) -> spec_fn(Field) -> bool {
    |f: Field| f.start == start && f.end == end
}

/// A field ends at a byte.
pub open spec fn ends_at(at: u32) -> spec_fn(Field) -> bool {
    |f: Field| f.end == at
}

/// A field starts at a byte.
pub open spec fn starts_at(at: u32) -> spec_fn(Field) -> bool {
    |f: Field| f.start == at
}

/// The field that a selection addresses among those of the paragraph with its
/// caret, and whether it covers it: the field that it covers exactly, else, for a
/// caret, the one that ends there, else the one that starts there.
pub open spec fn addressed(sel: Sel, fields: Seq<Field>) -> Option<(Field, bool)> {
    let (start, end) = in_doc_order(sel.anchor, sel.caret);
    let whole = if start.path == end.path {
        first_field(fields, 0, covers(start.offset, end.offset))
    } else {
        None
    };
    if whole is Some {
        Some((whole->0, true))
    } else if start != end {
        None
    } else if first_field(fields, 0, ends_at(start.offset)) is Some {
        Some((first_field(fields, 0, ends_at(start.offset))->0, false))
    } else if first_field(fields, 0, starts_at(start.offset)) is Some {
        Some((first_field(fields, 0, starts_at(start.offset))->0, false))
    } else {
        None
    }
}

/// What is reported of a field in the paragraph at `path`.
pub open spec fn reports(r: BridgeFieldRef, f: Field, selected: bool, path: Seq<PathStep>) -> bool {
    &&& r.instruction@ == f.instruction@
    &&& r.keyword@ == capitals(first_word(f.instruction@))
    &&& r.start@ == (Pos { path, offset: f.start })
    &&& r.end@ == (Pos { path, offset: f.end })
    &&& r.selected == selected
}

fn find_covering(fields: &Vec<Field>, start: u32, end: u32) -> (r: Option<usize>)
    ensures
        match r {
            Some(i) => i < fields@.len() && first_field(fields@, 0, covers(start, end)) == Some(
                fields@[i as int],
            ),
            None => first_field(fields@, 0, covers(start, end)) is None,
        },
{
    let mut i: usize = 0;
    while i < fields.len()
        invariant
            i <= fields@.len(),
            first_field(fields@, 0, covers(start, end)) == first_field(
                fields@,
                i as nat,
                covers(start, end),
            ),
        decreases fields.len() - i,
    {
        if fields[i].start == start && fields[i].end == end {
            return Some(i);
        }
        i += 1;
    }
    None
}

fn find_ending(fields: &Vec<Field>, at: u32) -> (r: Option<usize>)
    ensures
        match r {
            Some(i) => i < fields@.len() && first_field(fields@, 0, ends_at(at)) == Some(
                fields@[i as int],
            ),
            None => first_field(fields@, 0, ends_at(at)) is None,
        },
{
    let mut i: usize = 0;
    while i < fields.len()
        invariant
            i <= fields@.len(),
            first_field(fields@, 0, ends_at(at)) == first_field(fields@, i as nat, ends_at(at)),
        decreases fields.len() - i,
    {
        if fields[i].end == at {
            return Some(i);
        }
        i += 1;
    }
    None
}

fn find_starting(fields: &Vec<Field>, at: u32) -> (r: Option<usize>)
    ensures
        match r {
            Some(i) => i < fields@.len() && first_field(fields@, 0, starts_at(at)) == Some(
                fields@[i as int],
            ),
            None => first_field(fields@, 0, starts_at(at)) is None,
        },
{
    let mut i: usize = 0;
    while i < fields.len()
        invariant
            i <= fields@.len(),
            first_field(fields@, 0, starts_at(at)) == first_field(fields@, i as nat, starts_at(at)),
        decreases fields.len() - i,
    {
        if fields[i].start == at {
            return Some(i);
        }
        i += 1;
    }
    None
}

fn field_ref(f: &Field, selected: bool, at: &LogicalPos) -> (r: BridgeFieldRef)
    ensures
        reports(r, *f, selected, at@.path),
{
    BridgeFieldRef {
        instruction: f.instruction.clone(),
        keyword: keyword_of(f.instruction.as_str()),
        start: LogicalPos { path: at.path.clone(), offset: f.start },
        end: LogicalPos { path: at.path.clone(), offset: f.end },
        selected,
    }
}

/// The field that a selection addresses among those of the paragraph with its
/// caret.
pub fn field_at_caret(sel: &SelectionState, fields: &Vec<Field>) -> (r: Option<BridgeFieldRef>)
    ensures
        match (r, addressed(sel@, fields@)) {
            (Some(x), Some((f, selected))) => reports(x, f, selected, sel@.caret.path),
            (None, None) => true,
            _ => false,
        },
{
    let (start, end) = ordered(sel.anchor.clone(), sel.caret.clone());
    if start.path.same(&end.path) {
        if let Some(i) = find_covering(fields, start.offset, end.offset) {
            return Some(field_ref(&fields[i], true, &start));
        }
    }
    if !start.same(&end) {
        return None;
    }
    if let Some(i) = find_ending(fields, start.offset) {
        return Some(field_ref(&fields[i], false, &start));
    }
    if let Some(i) = find_starting(fields, start.offset) {
        return Some(field_ref(&fields[i], false, &start));
    }
    None
}

/// A caret between two fields addresses the one before it.
pub proof fn law_the_field_before_the_caret_is_addressed(
    path: Seq<PathStep>,
    at: u32,
    before: Field,
    after: Field,
)
    requires
        before.start < before.end == at,
        at == after.start < after.end,
    ensures
        addressed(
            crate::motion::collapsed(Pos { path, offset: at }),
            seq![before, after],
        ) == Some((before, false)),
{
    let fields = seq![before, after];
    reveal_with_fuel(first_field, 3);
    crate::common::law_order_reflexive(path);
    assert(first_field(fields, 0, covers(at, at)) is None);
    assert(first_field(fields, 0, ends_at(at)) == Some(before));
}

/// A selection that covers a field exactly addresses it as a whole: the first
/// of the fields with those two ends.
pub proof fn law_the_covered_field_is_addressed(sel: Sel, fields: Seq<Field>, i: int)
    requires
        sel.anchor.path == sel.caret.path,
        sel.anchor.offset <= sel.caret.offset,
        0 <= i < fields.len(),
        fields[i].start == sel.anchor.offset && fields[i].end == sel.caret.offset,
        forall|j: int|
            0 <= j < i ==> (#[trigger] fields[j]).start != sel.anchor.offset || fields[j].end
                != sel.caret.offset,
    ensures
        addressed(sel, fields) == Some((fields[i], true)),
{
    crate::common::law_positions_follow_the_text(sel.anchor, sel.caret);
    lemma_first_picked(fields, 0, covers(sel.anchor.offset, sel.caret.offset), i);
}

proof fn lemma_first_picked(fields: Seq<Field>, from: nat, pick: spec_fn(Field) -> bool, i: int)
    requires
        from <= i < fields.len(),
        pick(fields[i]),
        forall|j: int| from <= j < i ==> !pick(#[trigger] fields[j]),
    ensures
        first_field(fields, from, pick) == Some(fields[i]),
    decreases i - from,
{
    if from < i {
        assert(!pick(fields[from as int]));
        lemma_first_picked(fields, from + 1, pick, i);
    }
}

/// The first word of a text begins at its first character that is not blank,
/// and ends before the next blank.
pub proof fn law_first_word(s: Seq<char>)
    ensures
        ({
            let from = run_end(s, 0, false);
            let to = run_end(s, from, true);
            &&& 0 <= from <= to <= s.len()
            &&& first_word(s) == s.subrange(from, to)
            &&& forall|i: int| 0 <= i < from ==> is_blank(#[trigger] s[i])
            &&& forall|i: int| from <= i < to ==> !is_blank(#[trigger] s[i])
            &&& to < s.len() ==> is_blank(s[to])
        }),
{
    lemma_run_end(s, 0, false);
    lemma_run_end(s, run_end(s, 0, false), true);
}

proof fn lemma_run_end(s: Seq<char>, i: int, blank: bool)
    requires
        0 <= i <= s.len(),
    ensures
        i <= run_end(s, i, blank) <= s.len(),
        forall|j: int| i <= j < run_end(s, i, blank) ==> is_blank(#[trigger] s[j]) != blank,
        run_end(s, i, blank) < s.len() ==> is_blank(s[run_end(s, i, blank)]) == blank,
    decreases s.len() - i,
{
    if i < s.len() && is_blank(s[i]) != blank {
        lemma_run_end(s, i + 1, blank);
    }
}

/// A caret that no field is closed in upon addresses the field that ends there,
/// the first of several, and where none ends there the first that starts there.
pub proof fn law_the_field_at_the_caret(at: Pos, fields: Seq<Field>, i: int)
    requires
        0 <= i < fields.len(),
        forall|j: int| 0 <= j < fields.len() ==> (#[trigger] fields[j]).start < fields[j].end,
    ensures
        fields[i].end == at.offset && (forall|j: int|
            0 <= j < i ==> (#[trigger] fields[j]).end != at.offset) ==> addressed(
            crate::motion::collapsed(at),
            fields,
        ) == Some((fields[i], false)),
        fields[i].start == at.offset && (forall|j: int|
            0 <= j < fields.len() ==> (#[trigger] fields[j]).end != at.offset) && (forall|j: int|
            0 <= j < i ==> (#[trigger] fields[j]).start != at.offset) ==> addressed(
            crate::motion::collapsed(at),
            fields,
        ) == Some((fields[i], false)),
{
    crate::common::law_positions_follow_the_text(at, at);
    let whole = covers(at.offset, at.offset);
    lemma_none_picked(fields, 0, whole);
    if fields[i].end == at.offset && (forall|j: int|
        0 <= j < i ==> (#[trigger] fields[j]).end != at.offset) {
        lemma_first_picked(fields, 0, ends_at(at.offset), i);
    }
    if fields[i].start == at.offset && (forall|j: int|
        0 <= j < fields.len() ==> (#[trigger] fields[j]).end != at.offset) && (forall|j: int|
        0 <= j < i ==> (#[trigger] fields[j]).start != at.offset) {
        lemma_none_picked(fields, 0, ends_at(at.offset));
        lemma_first_picked(fields, 0, starts_at(at.offset), i);
    }
}

proof fn lemma_none_picked(fields: Seq<Field>, from: nat, pick: spec_fn(Field) -> bool)
    requires
        from <= fields.len(),
        forall|j: int| from <= j < fields.len() ==> !pick(#[trigger] fields[j]),
    ensures
        first_field(fields, from, pick) is None,
    decreases fields.len() - from,
{
    if from < fields.len() {
        assert(!pick(fields[from as int]));
        lemma_none_picked(fields, from + 1, pick);
    }
}

/// Only the small letters of ASCII become capitals, character by character.
pub proof fn law_capitals(s: Seq<char>, i: int, c: char)
    requires
        0 <= i < s.len(),
    ensures
        capitals(s).len() == s.len(),
        capitals(s)[i] == capital(s[i]) as char,
        !('a' <= c <= 'z') ==> capital(c) == c as int,
        'a' <= c <= 'z' ==> capital(c) == c as int - 32,
{
}

} // verus!
