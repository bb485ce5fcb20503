//! Text in bytes and characters: lengths, boundaries and slices.

use crate::document::{byte_len, text_len};
use vstd::prelude::*;
use vstd::string::*;
use vstd::utf8::{
    decode_utf8, encode_scalar, encode_utf8, encode_utf8_decode_utf8, encode_utf8_valid_utf8,
    is_char_boundary, is_char_boundary_iff_not_is_continuation_byte,
    is_char_boundary_start_end_of_seq, valid_utf8, valid_utf8_split,
};

verus! {

/// `String::push` appends one character to the end of a string.
pub assume_specification[ String::push ](s: &mut String, ch: char)
    ensures
        final(s)@ == old(s)@.push(ch),
;

/// The characters of a text.
pub fn chars_of(s: &str) -> (r: Vec<char>)
    ensures
        r@ == s@,
{
    let mut out: Vec<char> = Vec::new();
    for c in it: s.chars()
        invariant
            it.seq() == s@,
            out@ == s@.take(it.index() as int),
    {
        out.push(c);
        assert(s@.take(it.index() as int + 1) =~= s@.take(it.index() as int).push(c));
    }
    assert(s@.take(s@.len() as int) =~= s@);
    out
}

/// Whether two texts are the same.
pub fn same_text(a: &str, b: &str) -> (r: bool)
    ensures
        r == (a@ == b@),
{
    let x = chars_of(a);
    let y = chars_of(b);
    if x.len() != y.len() {
        return false;
    }
    let mut i: usize = 0;
    while i < x.len()
        invariant
            i <= x@.len() == y@.len(),
            x@ == a@,
            y@ == b@,
            forall|j: int| 0 <= j < i ==> x@[j] == y@[j],
        decreases x.len() - i,
    {
        if x[i] != y[i] {
            return false;
        }
        i += 1;
    }
    assert(x@ =~= y@);
    true
}

/// The number of bytes that a character takes.
pub open spec fn width_of(c: char) -> nat {
    encode_scalar(c as u32).len()
}

/// The number of bytes that a character takes.
pub fn char_width(c: char) -> (r: usize)
    ensures
        r == width_of(c),
        1 <= r <= 4,
{
    let v: u32 = c as u32;
    if v < 0x80 {
        1
    } else if v < 0x800 {
        2
    } else if v < 0x10000 {
        3
    } else {
        4
    }
}

/// The bytes of two texts one after another.
pub proof fn lemma_encode_concat(a: Seq<char>, b: Seq<char>)
    ensures
        encode_utf8(a + b) == encode_utf8(a) + encode_utf8(b),
    decreases a.len(),
{
    if a.len() == 0 {
        assert(a + b =~= b);
        assert(encode_utf8(a) + encode_utf8(b) =~= encode_utf8(b));
    } else {
        assert((a + b).drop_first() =~= a.drop_first() + b);
        lemma_encode_concat(a.drop_first(), b);
        assert(encode_utf8(a + b) =~= encode_utf8(a) + encode_utf8(b));
    }
}

/// One more character makes a text longer by its width.
pub proof fn lemma_text_len_push(s: Seq<char>, c: char)
    ensures
        text_len(s.push(c)) == text_len(s) + width_of(c),
{
    assert(s.push(c) =~= s + seq![c]);
    lemma_encode_concat(s, seq![c]);
    assert(seq![c].drop_first() =~= Seq::<char>::empty());
    assert(encode_utf8(seq![c]) =~= encode_scalar(c as u32) + encode_utf8(seq![c].drop_first()));
    assert(encode_utf8(Seq::<char>::empty()).len() == 0);
}

/// The part of a text between two byte offsets.
pub open spec fn text_slice(s: Seq<char>, lo: int, hi: int) -> Seq<char> {
    decode_utf8(encode_utf8(s).subrange(lo, hi))
}

/// Both offsets fall between characters, the first not after the second.
pub open spec fn slices(s: Seq<char>, lo: int, hi: int) -> bool {
    &&& 0 <= lo <= hi <= text_len(s)
    &&& is_char_boundary(encode_utf8(s), lo)
    &&& is_char_boundary(encode_utf8(s), hi)
}

/// Whether both offsets fall between characters, the first not after the second.
pub fn check_slice(s: &str, lo: usize, hi: usize) -> (r: bool)
    ensures
        r == slices(s@, lo as int, hi as int),
{
    lo <= hi && hi <= byte_len(s) && s.is_char_boundary(lo) && s.is_char_boundary(hi)
}

proof fn lemma_boundary_in_prefix(bytes: Seq<u8>, lo: int, hi: int)
    requires
        valid_utf8(bytes),
        0 <= lo <= hi <= bytes.len(),
        is_char_boundary(bytes, lo),
        is_char_boundary(bytes, hi),
    ensures
        valid_utf8(bytes.subrange(0, hi)),
        is_char_boundary(bytes.subrange(0, hi), lo),
{
    valid_utf8_split(bytes, hi);
    let prefix = bytes.subrange(0, hi);
    if lo == hi {
        is_char_boundary_start_end_of_seq(prefix);
    } else {
        is_char_boundary_iff_not_is_continuation_byte(bytes, lo);
        is_char_boundary_iff_not_is_continuation_byte(prefix, lo);
        assert(prefix[lo] == bytes[lo]);
    }
}

/// The part of `s` from byte `lo` to byte `hi`.
pub fn slice_text(s: &str, lo: usize, hi: usize) -> (r: &str)
    requires
        slices(s@, lo as int, hi as int),
    ensures
        r@ == text_slice(s@, lo as int, hi as int),
        encode_utf8(r@) == encode_utf8(s@).subrange(lo as int, hi as int),
{
    proof {
        encode_utf8_valid_utf8(s@);
        lemma_boundary_in_prefix(encode_utf8(s@), lo as int, hi as int);
    }
    let (head, _) = s.split_at(hi);
    assert(encode_utf8(head@) =~= encode_utf8(s@).subrange(0, hi as int));
    let (_, mid) = head.split_at(lo);
    assert(encode_utf8(mid@) =~= encode_utf8(s@).subrange(lo as int, hi as int));
    proof {
        encode_utf8_decode_utf8(mid@);
    }
    mid
}

/// A slice is as long as the distance between its ends.
pub proof fn lemma_slice_len(s: Seq<char>, lo: int, hi: int)
    requires
        slices(s, lo, hi),
    ensures
        encode_utf8(text_slice(s, lo, hi)) == encode_utf8(s).subrange(lo, hi),
        text_len(text_slice(s, lo, hi)) == hi - lo,
{
    let bytes = encode_utf8(s);
    encode_utf8_valid_utf8(s);
    lemma_boundary_in_prefix(bytes, lo, hi);
    let prefix = bytes.subrange(0, hi);
    valid_utf8_split(prefix, lo);
    assert(prefix.subrange(lo, prefix.len() as int) =~= bytes.subrange(lo, hi));
    vstd::utf8::decode_utf8_encode_utf8(bytes.subrange(lo, hi));
}

} // verus!
