//! Text segmentation: where grapheme clusters and words begin.

use crate::document::text_len;
use unicode_segmentation::UnicodeSegmentation;
use vstd::prelude::*;
use vstd::utf8::{
    encode_utf8, encode_utf8_valid_utf8, is_char_boundary, is_char_boundary_start_end_of_seq,
};

verus! {

/// The byte offsets at which the extended grapheme clusters of a text begin,
/// in the order in which `unicode_segmentation` yields them.
pub uninterp spec fn grapheme_starts(text: Seq<char>) -> Seq<usize>;

/// The byte offsets at which the words of a text begin, in the order in which
/// `unicode_segmentation` yields them. A word is a segment between word
/// boundaries that holds an alphanumeric character.
pub uninterp spec fn word_starts_of(text: Seq<char>) -> Seq<usize>;

/// Offsets of segments of a text: increasing, inside the text, and between
/// characters.
pub open spec fn segment_starts(starts: Seq<usize>, text: Seq<char>) -> bool {
    &&& forall|i: int, j: int| 0 <= i < j < starts.len() ==> starts[i] < starts[j]
    &&& forall|i: int|
        0 <= i < starts.len() ==> (#[trigger] starts[i]) < text_len(text) && is_char_boundary(
            encode_utf8(text),
            starts[i] as int,
        )
}

/// Calls `UnicodeSegmentation::grapheme_indices` with extended clusters and
/// keeps the offsets. Claimed: they are the named offsets; they increase, lie
/// inside the text and fall between characters, as offsets of consecutive
/// non-empty pieces of the text do.
#[verifier::external_body]
pub(crate) fn grapheme_offsets(text: &str) -> (r: Vec<usize>)
    ensures
        r@ == grapheme_starts(text@),
        segment_starts(r@, text@),
{
    text.grapheme_indices(true).map(|(i, _)| i).collect()
}

/// Calls `UnicodeSegmentation::unicode_word_indices` and keeps the offsets.
/// Claimed: they are the named offsets; they increase, lie inside the text and
/// fall between characters, as offsets of separate non-empty pieces of the
/// text in order do.
#[verifier::external_body]
pub(crate) fn word_offsets(text: &str) -> (r: Vec<usize>)
    ensures
        r@ == word_starts_of(text@),
        segment_starts(r@, text@),
{
    text.unicode_word_indices().map(|(i, _)| i).collect()
}

/// The byte offsets at which the words of `text` begin.
pub fn word_starts(text: &str) -> (r: Vec<usize>)
    ensures
        r@ == word_starts_of(text@),
        segment_starts(r@, text@),
{
    word_offsets(text)
}

/// How many leading offsets are below `off`.
pub open spec fn leading_below(starts: Seq<usize>, off: int) -> nat
    decreases starts.len(),
{
    if starts.len() == 0 || starts[0] >= off {
        0
    } else {
        1 + leading_below(starts.drop_first(), off)
    }
}

/// The last of the leading offsets below `off`; zero when there is none.
pub open spec fn last_start_below(starts: Seq<usize>, off: int) -> usize {
    let n = leading_below(starts, off);
    if n == 0 {
        0
    } else {
        starts[n - 1]
    }
}

/// The first offset above `off`, or `end`.
pub open spec fn first_start_above(starts: Seq<usize>, off: int, end: usize) -> usize
    decreases starts.len(),
{
    if starts.len() == 0 {
        end
    } else if starts[0] > off {
        starts[0]
    } else {
        first_start_above(starts.drop_first(), off, end)
    }
}

proof fn lemma_leading_below(starts: Seq<usize>, off: int, n: int)
    requires
        0 <= n <= starts.len(),
        forall|i: int| 0 <= i < n ==> starts[i] < off,
        n < starts.len() ==> starts[n] >= off,
    ensures
        leading_below(starts, off) == n,
    decreases n,
{
    if n > 0 {
        assert(starts[0] < off);
        let rest = starts.drop_first();
        assert forall|i: int| 0 <= i < n - 1 implies rest[i] < off by {
            assert(starts[i + 1] < off);
        }
        lemma_leading_below(rest, off, n - 1);
    }
}

/// The last of the leading offsets of `starts` below `off`; zero when there
/// is none.
pub fn last_below(starts: &Vec<usize>, off: usize) -> (r: usize)
    ensures
        r == last_start_below(starts@, off as int),
{
    let mut n: usize = 0;
    while n < starts.len() && starts[n] < off
        invariant
            n <= starts@.len(),
            forall|i: int| 0 <= i < n ==> starts@[i] < off,
        decreases starts.len() - n,
    {
        n += 1;
    }
    proof {
        lemma_leading_below(starts@, off as int, n as int);
    }
    if n == 0 {
        0
    } else {
        starts[n - 1]
    }
}

/// The first offset of `starts` above `off`, or `end`.
pub fn first_above(starts: &Vec<usize>, off: usize, end: usize) -> (r: usize)
    ensures
        r == first_start_above(starts@, off as int, end),
{
    let mut i: usize = 0;
    assert(starts@.skip(0) =~= starts@);
    while i < starts.len()
        invariant
            i <= starts@.len(),
            first_start_above(starts@, off as int, end) == first_start_above(
                starts@.skip(i as int),
                off as int,
                end,
            ),
        decreases starts.len() - i,
    {
        assert(starts@.skip(i as int)[0] == starts@[i as int]);
        if starts[i] > off {
            return starts[i];
        }
        assert(starts@.skip(i as int).drop_first() =~= starts@.skip(i as int + 1));
        i += 1;
    }
    end
}

/// The offset found before `off` lies strictly before it, and no offset lies
/// in between.
pub proof fn law_last_below(starts: Seq<usize>, text: Seq<char>, off: int)
    requires
        segment_starts(starts, text),
        off > 0,
    ensures
        last_start_below(starts, off) < off,
        forall|i: int|
            0 <= i < starts.len() && (#[trigger] starts[i]) < off ==> starts[i] <= last_start_below(
                starts,
                off,
            ),
{
    lemma_leading_splits(starts, off);
    let n = leading_below(starts, off) as int;
    assert forall|i: int| 0 <= i < starts.len() && (#[trigger] starts[i]) < off implies starts[i]
        <= last_start_below(starts, off) by {
        if i >= n {
            assert(starts[n] >= off);
            if i > n {
                assert(starts[n] < starts[i]);
            }
        } else if i < n - 1 {
            assert(starts[i] < starts[n - 1]);
        }
    }
}

proof fn lemma_leading_splits(starts: Seq<usize>, off: int)
    ensures
        leading_below(starts, off) <= starts.len(),
        forall|i: int| 0 <= i < leading_below(starts, off) ==> starts[i] < off,
        leading_below(starts, off) < starts.len() ==> starts[leading_below(starts, off) as int]
            >= off,
    decreases starts.len(),
{
    if starts.len() > 0 && starts[0] < off {
        let rest = starts.drop_first();
        lemma_leading_splits(rest, off);
        assert forall|i: int| 0 <= i < leading_below(starts, off) implies starts[i] < off by {
            if i > 0 {
                assert(rest[i - 1] < off);
            }
        }
    }
}

/// The offset found after `off` lies strictly after it and not past the end,
/// and no offset lies in between.
pub proof fn law_first_above(starts: Seq<usize>, text: Seq<char>, off: int, end: usize)
    requires
        segment_starts(starts, text),
        end == text_len(text),
        off < end,
    ensures
        off < first_start_above(starts, off, end) <= end,
        forall|i: int|
            0 <= i < starts.len() && (#[trigger] starts[i]) > off ==> first_start_above(
                starts,
                off,
                end,
            ) <= starts[i],
    decreases starts.len(),
{
    if starts.len() > 0 {
        let rest = starts.drop_first();
        assert(segment_starts(rest, text)) by {
            assert forall|i: int, j: int| 0 <= i < j < rest.len() implies rest[i] < rest[j] by {
                assert(starts[i + 1] < starts[j + 1]);
            }
            assert forall|i: int| 0 <= i < rest.len() implies (#[trigger] rest[i]) < text_len(text)
                && is_char_boundary(encode_utf8(text), rest[i] as int) by {
                assert(starts[i + 1] < text_len(text));
            }
        }
        law_first_above(rest, text, off, end);
        assert(starts[0] < text_len(text));
        assert forall|i: int| 0 <= i < starts.len() && (#[trigger] starts[i]) > off implies
            first_start_above(starts, off, end) <= starts[i] by {
            if i > 0 {
                assert(starts[0] < starts[i]);
                assert(rest[i - 1] == starts[i]);
            }
        }
    }
}

/// Wherever a search for an offset starts, what it finds lies between
/// characters, never inside one.
pub proof fn law_steps_fall_between_characters(
    starts: Seq<usize>,
    text: Seq<char>,
    off: int,
    end: usize,
)
    requires
        segment_starts(starts, text),
        end == text_len(text),
    ensures
        is_char_boundary(encode_utf8(text), last_start_below(starts, off) as int),
        is_char_boundary(encode_utf8(text), first_start_above(starts, off, end) as int),
        last_start_below(starts, off) <= end,
        first_start_above(starts, off, end) <= end,
{
    encode_utf8_valid_utf8(text);
    is_char_boundary_start_end_of_seq(encode_utf8(text));
    lemma_leading_splits(starts, off);
    let n = leading_below(starts, off);
    if n > 0 {
        assert(starts[n - 1] < text_len(text));
    }
    lemma_first_above_is(starts, off, end);
    if first_start_above(starts, off, end) != end {
        let i = choose|i: int| 0 <= i < starts.len() && starts[i] == first_start_above(starts, off, end);
        assert(starts[i] < text_len(text));
    }
}

proof fn lemma_first_above_is(starts: Seq<usize>, off: int, end: usize)
    ensures
        first_start_above(starts, off, end) == end || exists|i: int|
            0 <= i < starts.len() && starts[i] == first_start_above(starts, off, end),
    decreases starts.len(),
{
    if starts.len() > 0 && starts[0] <= off {
        let rest = starts.drop_first();
        lemma_first_above_is(rest, off, end);
        if first_start_above(rest, off, end) != end {
            let i = choose|i: int|
                0 <= i < rest.len() && rest[i] == first_start_above(rest, off, end);
            assert(starts[i + 1] == first_start_above(starts, off, end));
        }
    }
}

/// From the start of a text or one of the offsets, a step on and a step back
/// return to it.
pub proof fn law_on_and_back_returns(starts: Seq<usize>, text: Seq<char>, end: usize, at: usize)
    requires
        segment_starts(starts, text),
        end == text_len(text),
        at < end,
        at == 0 || starts.contains(at),
    ensures
        last_start_below(starts, first_start_above(starts, at as int, end) as int) == at,
{
    law_first_above(starts, text, at as int, end);
    let next = first_start_above(starts, at as int, end);
    law_last_below(starts, text, next as int);
    let back = last_start_below(starts, next as int);
    lemma_leading_splits(starts, next as int);
    let n = leading_below(starts, next as int) as int;
    if at > 0 {
        let k = choose|k: int| 0 <= k < starts.len() && starts[k] == at;
        assert(starts[k] <= back);
    }
    if n > 0 && back > at {
        assert(next <= starts[n - 1]);
    }
}

/// From the end of a text or one of the offsets, but for the start of the text, a
/// step back and a step on return to it.
pub proof fn law_back_and_on_returns(starts: Seq<usize>, text: Seq<char>, end: usize, at: usize)
    requires
        segment_starts(starts, text),
        end == text_len(text),
        0 < at <= end,
        at == end || starts.contains(at),
    ensures
        first_start_above(starts, last_start_below(starts, at as int) as int, end) == at,
{
    law_last_below(starts, text, at as int);
    let before = last_start_below(starts, at as int);
    assert(before < at);
    law_first_above(starts, text, before as int, end);
    let on = first_start_above(starts, before as int, end);
    lemma_first_above_is(starts, before as int, end);
    if at != end {
        let k = choose|k: int| 0 <= k < starts.len() && starts[k] == at;
        assert(on <= starts[k]);
    }
    if on < at {
        let i = choose|i: int| 0 <= i < starts.len() && starts[i] == on;
        assert(starts[i] <= before);
    }
}

} // verus!
