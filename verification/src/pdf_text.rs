//! Reading text back out of a PDF file: its compressed content streams, and
//! the glyph codes that they show.

use flate2::read::ZlibDecoder;
use std::io::Read;
use vstd::prelude::*;

verus! {

broadcast use vstd::seq_lib::group_seq_properties;

/// What stands before the bytes of a stream: `>>`, a line feed, `stream` and
/// another line feed.
pub open spec fn stream_mark() -> Seq<u8> {
    seq![0x3eu8, 0x3e, 0x0a, 0x73, 0x74, 0x72, 0x65, 0x61, 0x6d, 0x0a]
}

/// What stands after the bytes of a stream: `endstream`.
pub open spec fn end_mark() -> Seq<u8> {
    seq![0x65u8, 0x6e, 0x64, 0x73, 0x74, 0x72, 0x65, 0x61, 0x6d]
}

/// The operator that begins text: `BT`.
pub open spec fn begin_text() -> Seq<u8> {
    seq![0x42u8, 0x54]
}

/// The operator that ends text: `ET`.
pub open spec fn end_text() -> Seq<u8> {
    seq![0x45u8, 0x54]
}

/// `needle` stands at `i` of `s`.
pub open spec fn stands_at(s: Seq<u8>, needle: Seq<u8>, i: int) -> bool {
    0 <= i && i + needle.len() <= s.len() && s.subrange(i, i + needle.len()) == needle
}

/// The first place from `i` on where `needle` stands.
pub open spec fn first_at(s: Seq<u8>, needle: Seq<u8>, i: int) -> Option<int>
    decreases s.len() - i,
{
    if needle.len() == 0 || i < 0 || i + needle.len() > s.len() {
        None
    } else if stands_at(s, needle, i) {
        Some(i)
    } else {
        first_at(s, needle, i + 1)
    }
}

fn check_at(s: &Vec<u8>, needle: &Vec<u8>, i: usize) -> (r: bool)
    requires
        i + needle@.len() <= s@.len(),
    ensures
        r == stands_at(s@, needle@, i as int),
{
    let len: usize = s.len();
    let mut k: usize = 0;
    while k < needle.len()
        invariant
            k <= needle@.len(),
            i + needle@.len() <= s@.len() == len,
            forall|j: int| 0 <= j < k ==> s@[i + j] == #[trigger] needle@[j],
        decreases needle.len() - k,
    {
        if s[i + k] != needle[k] {
            assert(s@.subrange(i as int, i + needle@.len())[k as int] != needle@[k as int]);
            return false;
        }
        k += 1;
    }
    assert(s@.subrange(i as int, i + needle@.len()) =~= needle@);
    true
}

/// The first place from `from` on where `needle` stands. An empty one stands
/// nowhere.
pub fn find(s: &Vec<u8>, needle: &Vec<u8>, from: usize) -> (r: Option<usize>)
    ensures
        match r {
            Some(i) => first_at(s@, needle@, from as int) == Some(i as int) && from <= i && i
                + needle@.len() <= s@.len(),
            None => first_at(s@, needle@, from as int) is None,
        },
{
    if needle.len() == 0 || needle.len() > s.len() {
        return None;
    }
    let last: usize = s.len() - needle.len();
    let mut i: usize = from;
    while i <= last
        invariant
            from <= i,
            needle@.len() > 0,
            last + needle@.len() == s@.len(),
            s@.len() <= usize::MAX,
            first_at(s@, needle@, from as int) == first_at(s@, needle@, i as int),
        decreases s@.len() - i,
    {
        if check_at(s, needle, i) {
            return Some(i);
        }
        i += 1;
    }
    None
}

/// A place where something is found is the first such place.
pub proof fn law_find_is_first(s: Seq<u8>, needle: Seq<u8>, from: int)
    requires
        0 <= from,
        needle.len() > 0,
    ensures
        match first_at(s, needle, from) {
            Some(i) => from <= i && stands_at(s, needle, i) && forall|j: int|
                from <= j < i ==> !(#[trigger] stands_at(s, needle, j)),
            None => forall|j: int| from <= j ==> !(#[trigger] stands_at(s, needle, j)),
        },
    decreases s.len() - from,
{
    if from + needle.len() <= s.len() && !stands_at(s, needle, from) {
        law_find_is_first(s, needle, from + 1);
    }
}

/// The bytes of the streams of a file from `at` on: what stands between the
/// marks of each.
pub open spec fn raw_from(pdf: Seq<u8>, at: int) -> Seq<Seq<u8>>
    decreases pdf.len() - at,
{
    match first_at(pdf, stream_mark(), at) {
        Some(mark) => {
            let start = mark + stream_mark().len();
            match first_at(pdf, end_mark(), start) {
                Some(end) => {
                    let next = end + end_mark().len();
                    if at < next <= pdf.len() {
                        seq![pdf.subrange(start, end)] + raw_from(pdf, next)
                    } else {
                        Seq::empty()
                    }
                },
                None => Seq::empty(),
            }
        },
        None => Seq::empty(),
    }
}

/// Lists of bytes by their contents.
pub open spec fn byte_lists(s: Seq<Vec<u8>>) -> Seq<Seq<u8>> {
    s.map_values(|v: Vec<u8>| v@)
}

fn cut(s: &Vec<u8>, lo: usize, hi: usize) -> (r: Vec<u8>)
    requires
        lo <= hi <= s@.len(),
    ensures
        r@ == s@.subrange(lo as int, hi as int),
{
    let mut out: Vec<u8> = Vec::new();
    let mut i: usize = lo;
    while i < hi
        invariant
            lo <= i <= hi <= s@.len(),
            out@ == s@.subrange(lo as int, i as int),
        decreases hi - i,
    {
        out.push(s[i]);
        i += 1;
        assert(out@ =~= s@.subrange(lo as int, i as int));
    }
    out
}

fn mark_bytes() -> (r: Vec<u8>)
    ensures
        r@ == stream_mark(),
{
    let r: Vec<u8> = vec![0x3e, 0x3e, 0x0a, 0x73, 0x74, 0x72, 0x65, 0x61, 0x6d, 0x0a];
    assert(r@ =~= stream_mark());
    r
}

fn end_bytes() -> (r: Vec<u8>)
    ensures
        r@ == end_mark(),
{
    let r: Vec<u8> = vec![0x65, 0x6e, 0x64, 0x73, 0x74, 0x72, 0x65, 0x61, 0x6d];
    assert(r@ =~= end_mark());
    r
}

fn begin_bytes() -> (r: Vec<u8>)
    ensures
        r@ == begin_text(),
{
    let r: Vec<u8> = vec![0x42, 0x54];
    assert(r@ =~= begin_text());
    r
}

/// The bytes of the streams of a file, in order.
pub fn raw_streams(pdf: &Vec<u8>) -> (r: Vec<Vec<u8>>)
    ensures
        byte_lists(r@) == raw_from(pdf@, 0),
{
    let mark = mark_bytes();
    let end_word = end_bytes();
    let len: usize = pdf.len();
    let mut out: Vec<Vec<u8>> = Vec::new();
    let mut at: usize = 0;
    assert(byte_lists(out@) + raw_from(pdf@, 0) =~= raw_from(pdf@, 0));
    loop
        invariant
            at <= pdf@.len() == len,
            mark@ == stream_mark(),
            end_word@ == end_mark(),
            byte_lists(out@) + raw_from(pdf@, at as int) == raw_from(pdf@, 0),
        ensures
            byte_lists(out@) == raw_from(pdf@, 0),
        decreases pdf@.len() - at,
    {
        let start: usize = match find(pdf, &mark, at) {
            Some(i) => i + mark.len(),
            None => {
                assert(byte_lists(out@) =~= raw_from(pdf@, 0));
                break;
            },
        };
        let end: usize = match find(pdf, &end_word, start) {
            Some(i) => i,
            None => {
                assert(byte_lists(out@) =~= raw_from(pdf@, 0));
                break;
            },
        };
        let next: usize = end + end_word.len();
        let raw = cut(pdf, start, end);
        let ghost before = out@;
        out.push(raw);
        assert(byte_lists(out@) =~= byte_lists(before).push(raw@));
        assert(byte_lists(before) + raw_from(pdf@, at as int) =~= byte_lists(out@) + raw_from(
            pdf@,
            next as int,
        ));
        at = next;
    }
    out
}

/// What a zlib stream holds, if it is sound.
pub uninterp spec fn inflated(raw: Seq<u8>) -> Option<Seq<u8>>;

/// Inflate a zlib stream with `flate2::read::ZlibDecoder`, read to its end.
/// The result depends on the bytes alone: what they hold, or nothing where the
/// decoder reports an error. What it is on given bytes is not stated.
#[verifier::external_body]
fn inflate(raw: &Vec<u8>) -> (r: Option<Vec<u8>>)
    ensures
        match r {
            Some(v) => inflated(raw@) == Some(v@),
            None => inflated(raw@) is None,
        },
{
    let mut decoded = Vec::new();
    match ZlibDecoder::new(raw.as_slice()).read_to_end(&mut decoded) {
        Ok(_) => Some(decoded),
        Err(_) => None,
    }
}

/// A decoded stream shows text: it holds the operator that begins it.
pub open spec fn shows_text(decoded: Seq<u8>) -> bool {
    first_at(decoded, begin_text(), 0) is Some
}

/// A decoded stream, if it is sound and shows text.
pub fn text_stream(decoded: Option<Vec<u8>>) -> (r: Option<Vec<u8>>)
    ensures
        match decoded {
            Some(d) => if shows_text(d@) {
                r == Some(d)
            } else {
                r is None
            },
            None => r is None,
        },
{
    match decoded {
        Some(d) => {
            let word = begin_bytes();
            match find(&d, &word, 0) {
                Some(_) => Some(d),
                None => None,
            }
        },
        None => None,
    }
}

/// Those of the first `n` streams that inflate to something that shows text.
pub open spec fn text_streams(raws: Seq<Seq<u8>>, n: nat) -> Seq<Seq<u8>>
    decreases n,
{
    if n == 0 {
        Seq::empty()
    } else {
        let head = text_streams(raws, (n - 1) as nat);
        match inflated(raws[n - 1]) {
            Some(d) if shows_text(d) => head.push(d),
            _ => head,
        }
    }
}

/// The content streams of a file, inflated, in order. Other compressed
/// streams, such as font programs, show no text and are left out.
pub fn content_streams(pdf: &Vec<u8>) -> (r: Vec<Vec<u8>>)
    ensures
        byte_lists(r@) == text_streams(raw_from(pdf@, 0), raw_from(pdf@, 0).len()),
{
    let raws = raw_streams(pdf);
    let ghost all = raw_from(pdf@, 0);
    assert(byte_lists(raws@).len() == raws@.len());
    let mut out: Vec<Vec<u8>> = Vec::new();
    let mut n: usize = 0;
    assert(byte_lists(out@) =~= text_streams(all, 0));
    while n < raws.len()
        invariant
            n <= raws@.len() == all.len(),
            byte_lists(raws@) == all,
            byte_lists(out@) == text_streams(all, n as nat),
        decreases raws.len() - n,
    {
        assert(all[n as int] == raws@[n as int]@);
        let ghost before = out@;
        match text_stream(inflate(&raws[n])) {
            Some(d) => {
                out.push(d);
                assert(byte_lists(out@) =~= byte_lists(before).push(d@));
            },
            None => {},
        }
        n += 1;
    }
    out
}

/// What a character after a backslash stands for, but for digits.
pub open spec fn escaped(b: u8) -> Option<u8> {
    if b == 0x6e {
        Some(0x0au8)
    } else if b == 0x72 {
        Some(0x0du8)
    } else if b == 0x74 {
        Some(0x09u8)
    } else if b == 0x62 || b == 0x08 {
        Some(0x08u8)
    } else if b == 0x66 {
        Some(0x0cu8)
    } else if b == 0x28 || b == 0x29 || b == 0x5c {
        Some(b)
    } else {
        None
    }
}

fn unescape(b: u8) -> (r: Option<u8>)
    ensures
        r == escaped(b),
{
    if b == 0x6e {
        Some(0x0a)
    } else if b == 0x72 {
        Some(0x0d)
    } else if b == 0x74 {
        Some(0x09)
    } else if b == 0x62 || b == 0x08 {
        Some(0x08)
    } else if b == 0x66 {
        Some(0x0c)
    } else if b == 0x28 || b == 0x29 || b == 0x5c {
        Some(b)
    } else {
        None
    }
}

pub open spec fn is_octal(b: u8) -> bool {
    0x30 <= b <= 0x37
}

/// The value of up to `n` octal digits at `i`, after digits of value `v`, and
/// where they end.
pub open spec fn octal(s: Seq<u8>, i: int, n: nat, v: int) -> (int, int)
    decreases n,
{
    if n > 0 && 0 <= i < s.len() && is_octal(s[i]) {
        octal(s, i + 1, (n - 1) as nat, v * 8 + (s[i] - 0x30))
    } else {
        (v, i)
    }
}

/// The bytes of a string in brackets whose inside starts at `i`, and the place
/// after its closing bracket. A backslash before any other character is
/// dropped.
pub open spec fn literal(s: Seq<u8>, i: int) -> (Seq<u8>, int)
    decreases s.len() - i,
{
    if i < 0 || i >= s.len() {
        (Seq::empty(), i)
    } else if s[i] == 0x29 {
        (Seq::empty(), i + 1)
    } else if s[i] == 0x5c {
        let j = i + 1;
        if j >= s.len() {
            (Seq::empty(), j)
        } else if escaped(s[j]) is Some {
            let (rest, end) = literal(s, j + 1);
            (seq![escaped(s[j])->0] + rest, end)
        } else if is_octal(s[j]) {
            let (v, next) = octal(s, j, 3, 0);
            if i < next <= s.len() {
                let (rest, end) = literal(s, next);
                (seq![(v % 256) as u8] + rest, end)
            } else {
                (Seq::empty(), i)
            }
        } else {
            literal(s, j)
        }
    } else {
        let (rest, end) = literal(s, i + 1);
        (seq![s[i]] + rest, end)
    }
}

proof fn lemma_octal(s: Seq<u8>, i: int, n: nat, v: int)
    requires
        0 <= i,
        0 <= v,
    ensures
        i <= octal(s, i, n, v).1,
        n > 0 && i < s.len() && is_octal(s[i]) ==> i < octal(s, i, n, v).1,
        i <= s.len() ==> octal(s, i, n, v).1 <= s.len(),
    decreases n,
{
    if n > 0 && i < s.len() && is_octal(s[i]) {
        lemma_octal(s, i + 1, (n - 1) as nat, v * 8 + (s[i] - 0x30));
    }
}

/// A string ends after it starts and inside the stream.
proof fn lemma_literal_end(s: Seq<u8>, i: int)
    requires
        0 <= i <= s.len(),
    ensures
        i <= literal(s, i).1 <= s.len(),
    decreases s.len() - i,
{
    if i < s.len() && s[i] != 0x29 {
        if s[i] == 0x5c {
            let j = i + 1;
            if j < s.len() {
                if escaped(s[j]) is Some {
                    lemma_literal_end(s, j + 1);
                } else if is_octal(s[j]) {
                    lemma_octal(s, j, 3, 0);
                    lemma_literal_end(s, octal(s, j, 3, 0).1);
                } else {
                    lemma_literal_end(s, j);
                }
            }
        } else {
            lemma_literal_end(s, i + 1);
        }
    }
}

fn read_octal(s: &Vec<u8>, from: usize) -> (r: (u8, usize))
    requires
        from < s@.len(),
        is_octal(s@[from as int]),
    ensures
        r.0 == (octal(s@, from as int, 3, 0).0 % 256) as u8,
        r.1 == octal(s@, from as int, 3, 0).1,
        from < r.1 <= s@.len(),
{
    let mut v: u32 = 0;
    let mut n: usize = 3;
    let mut i: usize = from;
    proof {
        lemma_octal(s@, from as int, 3, 0);
    }
    while n > 0 && i < s.len() && 0x30 <= s[i] && s[i] <= 0x37
        invariant
            from <= i <= s@.len(),
            n <= 3,
            n == 3 ==> v == 0,
            n == 2 ==> v < 8,
            n == 1 ==> v < 64,
            n == 0 ==> v < 512,
            octal(s@, from as int, 3, 0) == octal(s@, i as int, n as nat, v as int),
        decreases n,
    {
        v = v * 8 + (s[i] - 0x30) as u32;
        i += 1;
        n -= 1;
    }
    ((v % 256) as u8, i)
}

/// The bytes of a string in brackets whose inside starts at `start`, and the
/// place after its closing bracket.
pub fn decode_literal_string(s: &Vec<u8>, start: usize) -> (r: (Vec<u8>, usize))
    requires
        start <= s@.len(),
    ensures
        (r.0@, r.1 as int) == literal(s@, start as int),
        start <= r.1 <= s@.len(),
{
    let ghost goal = literal(s@, start as int);
    proof {
        lemma_literal_end(s@, start as int);
    }
    let mut out: Vec<u8> = Vec::new();
    let mut i: usize = start;
    assert(out@ + goal.0 =~= goal.0);
    while i < s.len() && s[i] != 0x29
        invariant
            start <= i <= s@.len(),
            goal == literal(s@, start as int),
            out@ + literal(s@, i as int).0 == goal.0,
            literal(s@, i as int).1 == goal.1,
        decreases s.len() - i,
    {
        let ghost before = out@;
        let ghost here = literal(s@, i as int);
        let b: u8 = s[i];
        if b == 0x5c {
            i += 1;
            if i < s.len() {
                match unescape(s[i]) {
                    Some(c) => {
                        out.push(c);
                        i += 1;
                        assert(before + here.0 =~= out@ + literal(s@, i as int).0);
                    },
                    None => {
                        if 0x30 <= s[i] && s[i] <= 0x37 {
                            let (c, next): (u8, usize) = read_octal(s, i);
                            out.push(c);
                            i = next;
                            assert(before + here.0 =~= out@ + literal(s@, i as int).0);
                        }
                    },
                }
            }
        } else {
            out.push(b);
            i += 1;
            assert(before + here.0 =~= out@ + literal(s@, i as int).0);
        }
    }
    if i < s.len() {
        i += 1;
    }
    assert(out@ =~= goal.0);
    (out, i)
}

/// The value of a hexadecimal digit.
pub open spec fn hex_value(b: u8) -> Option<u8> {
    if 0x30 <= b <= 0x39 {
        Some((b - 0x30) as u8)
    } else if 0x41 <= b <= 0x46 {
        Some((b - 0x37) as u8)
    } else if 0x61 <= b <= 0x66 {
        Some((b - 0x57) as u8)
    } else {
        None
    }
}

fn hex_digit(b: u8) -> (r: Option<u8>)
    ensures
        r == hex_value(b),
        r matches Some(v) ==> v < 16,
{
    if 0x30 <= b && b <= 0x39 {
        Some(b - 0x30)
    } else if 0x41 <= b && b <= 0x46 {
        Some(b - 0x37)
    } else if 0x61 <= b && b <= 0x66 {
        Some(b - 0x57)
    } else {
        None
    }
}

/// The digits from `i` up to a closing angle bracket, and where it stands.
/// Other characters are passed over.
pub open spec fn hex_digits(s: Seq<u8>, i: int) -> (Seq<u8>, int)
    decreases s.len() - i,
{
    if i < 0 || i >= s.len() || s[i] == 0x3e {
        (Seq::empty(), i)
    } else {
        let (rest, end) = hex_digits(s, i + 1);
        (
            match hex_value(s[i]) {
                Some(v) => seq![v] + rest,
                None => rest,
            },
            end,
        )
    }
}

/// Bytes made of two digits each. A single last digit is followed by a zero.
pub open spec fn paired(digits: Seq<u8>) -> Seq<u8> {
    Seq::new(
        (digits.len() + 1) / 2,
        |k: int|
            (digits[2 * k] * 16 + (if 2 * k + 1 < digits.len() {
                digits[2 * k + 1] as int
            } else {
                0
            })) as u8,
    )
}

/// The bytes of a string in angle brackets whose inside starts at `i`, and the
/// place after its closing bracket.
pub open spec fn hex_string(s: Seq<u8>, i: int) -> (Seq<u8>, int) {
    let (digits, end) = hex_digits(s, i);
    (paired(digits), if end < s.len() {
        end + 1
    } else {
        end
    })
}

/// The bytes of a string in angle brackets whose inside starts at `start`, and
/// the place after its closing bracket.
pub fn decode_hex_string(s: &Vec<u8>, start: usize) -> (r: (Vec<u8>, usize))
    requires
        start <= s@.len(),
    ensures
        (r.0@, r.1 as int) == hex_string(s@, start as int),
        start <= r.1 <= s@.len(),
{
    let ghost goal = hex_digits(s@, start as int);
    let mut digits: Vec<u8> = Vec::new();
    let mut i: usize = start;
    assert(digits@ + goal.0 =~= goal.0);
    while i < s.len() && s[i] != 0x3e
        invariant
            start <= i <= s@.len(),
            goal == hex_digits(s@, start as int),
            digits@ + hex_digits(s@, i as int).0 == goal.0,
            hex_digits(s@, i as int).1 == goal.1,
            forall|k: int| 0 <= k < digits@.len() ==> #[trigger] digits@[k] < 16,
        decreases s.len() - i,
    {
        let ghost before = digits@;
        let ghost here = hex_digits(s@, i as int);
        match hex_digit(s[i]) {
            Some(v) => {
                digits.push(v);
            },
            None => {},
        }
        i += 1;
        assert(before + here.0 =~= digits@ + hex_digits(s@, i as int).0);
    }
    assert(digits@ =~= goal.0);
    let mut out: Vec<u8> = Vec::new();
    let n: usize = digits.len();
    let count: usize = n / 2 + n % 2;
    assert(count == (n + 1) / 2);
    let mut k: usize = 0;
    assert(out@ =~= paired(digits@).take(0));
    while k < count
        invariant
            k <= count,
            n == digits@.len(),
            count == n / 2 + n % 2,
            count == (n + 1) / 2,
            forall|j: int| 0 <= j < digits@.len() ==> #[trigger] digits@[j] < 16,
            out@ == paired(digits@).take(k as int),
        decreases count - k,
    {
        let hi: u8 = digits[2 * k];
        let lo: u8 = if 2 * k < n - 1 {
            digits[2 * k + 1]
        } else {
            0
        };
        assert(hi < 16 && lo < 16);
        let b: u8 = hi * 16 + lo;
        assert(b == paired(digits@)[k as int]);
        out.push(b);
        k += 1;
        assert(out@ =~= paired(digits@).take(k as int));
    }
    assert(out@ =~= paired(digits@));
    (out, if i < s.len() {
        i + 1
    } else {
        i
    })
}

/// The glyph codes of a string: two bytes each, the higher one first. A single
/// last byte is left out.
pub open spec fn codes(raw: Seq<u8>) -> Seq<u16> {
    Seq::new(raw.len() / 2, |k: int| (raw[2 * k] * 256 + raw[2 * k + 1]) as u16)
}

/// Append the glyph codes of a string.
pub fn push_codes(out: &mut Vec<u16>, raw: &Vec<u8>)
    ensures
        final(out)@ == old(out)@ + codes(raw@),
{
    let ghost before = out@;
    let len: usize = raw.len();
    let n: usize = len / 2;
    let mut k: usize = 0;
    assert(out@ =~= before + codes(raw@).take(0));
    while k < n
        invariant
            k <= n,
            len == raw@.len(),
            n == len / 2,
            out@ == before + codes(raw@).take(k as int),
        decreases n - k,
    {
        let code: u16 = raw[2 * k] as u16 * 256 + raw[2 * k + 1] as u16;
        assert(code == codes(raw@)[k as int]);
        out.push(code);
        k += 1;
        assert(out@ =~= before + codes(raw@).take(k as int));
    }
    assert(codes(raw@).take(k as int) =~= codes(raw@));
}

/// The text objects of a content stream from `i` on. `current` holds the codes
/// of the object that `i` is in.
pub open spec fn blocks_from(s: Seq<u8>, i: int, current: Option<Seq<u16>>) -> Seq<Seq<u16>>
    decreases s.len() - i,
{
    if i < 0 || i >= s.len() {
        Seq::empty()
    } else if stands_at(s, begin_text(), i) {
        blocks_from(s, i + 2, Some(Seq::empty()))
    } else if stands_at(s, end_text(), i) {
        match current {
            Some(block) => seq![block] + blocks_from(s, i + 2, None),
            None => blocks_from(s, i + 2, None),
        }
    } else if s[i] == 0x28 || s[i] == 0x3c {
        let (raw, next) = if s[i] == 0x28 {
            literal(s, i + 1)
        } else {
            hex_string(s, i + 1)
        };
        if i < next <= s.len() {
            blocks_from(
                s,
                next,
                match current {
                    Some(block) => Some(block + codes(raw)),
                    None => None,
                },
            )
        } else {
            Seq::empty()
        }
    } else {
        blocks_from(s, i + 1, current)
    }
}

/// Lists of codes by their contents.
pub open spec fn code_lists(s: Seq<Vec<u16>>) -> Seq<Seq<u16>> {
    s.map_values(|v: Vec<u16>| v@)
}

/// What an optional list of codes says.
pub open spec fn opt_codes(o: Option<Vec<u16>>) -> Option<Seq<u16>> {
    match o {
        Some(v) => Some(v@),
        None => None,
    }
}

fn two_at(s: &Vec<u8>, i: usize, a: u8, b: u8) -> (r: bool)
    requires
        i < s@.len(),
    ensures
        r == stands_at(s@, seq![a, b], i as int),
{
    let r: bool = i < s.len() - 1 && s[i] == a && s[i + 1] == b;
    proof {
        let w = seq![a, b];
        if i + 1 < s@.len() {
            let part = s@.subrange(i as int, i + 2);
            assert(part[0] == s@[i as int] && part[1] == s@[i + 1]);
            assert(w[0] == a && w[1] == b);
            if r {
                assert(part =~= w);
            }
        }
    }
    r
}

/// The text objects of a content stream, each as the glyph codes that it
/// shows, in order.
pub fn text_blocks(stream: &Vec<u8>) -> (r: Vec<Vec<u16>>)
    ensures
        code_lists(r@) == blocks_from(stream@, 0, None),
{
    let ghost goal = blocks_from(stream@, 0, None);
    let mut out: Vec<Vec<u16>> = Vec::new();
    let mut current: Option<Vec<u16>> = None;
    let mut i: usize = 0;
    assert(code_lists(out@) + goal =~= goal);
    while i < stream.len()
        invariant
            i <= stream@.len(),
            code_lists(out@) + blocks_from(stream@, i as int, opt_codes(current)) == goal,
        decreases stream.len() - i,
    {
        let ghost before = out@;
        let ghost here = blocks_from(stream@, i as int, opt_codes(current));
        assert(begin_text() =~= seq![0x42u8, 0x54]);
        assert(end_text() =~= seq![0x45u8, 0x54]);
        if two_at(stream, i, 0x42, 0x54) {
            current = Some(Vec::new());
            assert(opt_codes(current)->0 =~= Seq::<u16>::empty());
            i += 2;
        } else if two_at(stream, i, 0x45, 0x54) {
            match current.take() {
                Some(block) => {
                    out.push(block);
                    assert(code_lists(out@) =~= code_lists(before).push(block@));
                    assert(code_lists(before) + here =~= code_lists(out@) + blocks_from(
                        stream@,
                        i + 2,
                        None,
                    ));
                },
                None => {},
            }
            i += 2;
        } else if stream[i] == 0x28 || stream[i] == 0x3c {
            let (raw, next): (Vec<u8>, usize) = if stream[i] == 0x28 {
                decode_literal_string(stream, i + 1)
            } else {
                decode_hex_string(stream, i + 1)
            };
            current = match current {
                Some(codes_so_far) => {
                    let mut block = codes_so_far;
                    push_codes(&mut block, &raw);
                    Some(block)
                },
                None => None,
            };
            i = next;
        } else {
            i += 1;
        }
    }
    assert(code_lists(out@) =~= goal);
    out
}

/// A digit in hexadecimal, capitals for the letters.
pub open spec fn digit_written(v: int) -> u8 {
    if v < 10 {
        (0x30 + v) as u8
    } else {
        (0x37 + v) as u8
    }
}

/// Bytes written with two hexadecimal digits each.
pub open spec fn hex_written(bytes: Seq<u8>) -> Seq<u8> {
    Seq::new(
        2 * bytes.len(),
        |i: int|
            if i % 2 == 0 {
                digit_written(bytes[i / 2] as int / 16)
            } else {
                digit_written(bytes[i / 2] as int % 16)
            },
    )
}

/// Bytes written in hexadecimal between angle brackets read back as they were,
/// and reading ends after the closing one.
pub proof fn law_hex_reads_back(before: Seq<u8>, bytes: Seq<u8>, after: Seq<u8>)
    ensures
        hex_string(
            before + hex_written(bytes) + seq![0x3eu8] + after,
            before.len() as int,
        ) == (bytes, (before.len() + 2 * bytes.len() + 1) as int),
{
    let s = before + hex_written(bytes) + seq![0x3eu8] + after;
    let at = before.len() as int;
    lemma_hex_digits_read(s, before.len(), bytes, 0);
    let digits = hex_digits(s, at).0;
    assert(paired(digits) =~= bytes) by {
        assert forall|k: int| 0 <= k < bytes.len() implies #[trigger] paired(digits)[k]
            == bytes[k] by {
            assert(digits[2 * k] == bytes[k] / 16) by {
                assert((2 * k) % 2 == 0 && (2 * k) / 2 == k);
            }
            assert(digits[2 * k + 1] == bytes[k] % 16) by {
                assert((2 * k + 1) % 2 == 1 && (2 * k + 1) / 2 == k);
            }
        }
    }
}

proof fn lemma_hex_digits_read(s: Seq<u8>, at: nat, bytes: Seq<u8>, i: nat)
    requires
        at + 2 * bytes.len() < s.len(),
        i <= 2 * bytes.len(),
        forall|j: int| 0 <= j < 2 * bytes.len() ==> s[at + j] == #[trigger] hex_written(bytes)[j],
        s[(at + 2 * bytes.len()) as int] == 0x3e,
    ensures
        ({
            let (digits, end) = hex_digits(s, (at + i) as int);
            &&& end == at + 2 * bytes.len()
            &&& digits.len() == 2 * bytes.len() - i
            &&& forall|j: int|
                0 <= j < digits.len() ==> #[trigger] digits[j] == if (i + j) % 2 == 0 {
                    bytes[(i + j) / 2] / 16
                } else {
                    bytes[(i + j) / 2] % 16
                }
        }),
    decreases 2 * bytes.len() - i,
{
    if i < 2 * bytes.len() {
        lemma_hex_digits_read(s, at, bytes, i + 1);
        let here = hex_written(bytes)[i as int];
        assert(s[(at + i) as int] == here);
        let v = if i % 2 == 0 {
            bytes[i as int / 2] as int / 16
        } else {
            bytes[i as int / 2] as int % 16
        };
        assert(here == digit_written(v) && 0 <= v < 16);
        assert(hex_value(here) == Some(v as u8));
        let (rest, _) = hex_digits(s, (at + i + 1) as int);
        let digits = hex_digits(s, (at + i) as int).0;
        assert(digits =~= seq![v as u8] + rest);
        assert forall|j: int| 0 <= j < digits.len() implies #[trigger] digits[j] == if (i + j) % 2
            == 0 {
            bytes[(i + j) / 2] / 16
        } else {
            bytes[(i + j) / 2] % 16
        } by {
            if j > 0 {
                assert(digits[j] == rest[j - 1]);
            }
        }
    }
}

/// A string of plain bytes in brackets reads as those bytes, and reading ends
/// after the closing bracket.
pub proof fn law_plain_string_reads_back(s: Seq<u8>, i: int, end: int)
    requires
        0 <= i <= end < s.len(),
        s[end] == 0x29,
        forall|j: int| i <= j < end ==> #[trigger] s[j] != 0x29 && s[j] != 0x5c,
    ensures
        literal(s, i) == (s.subrange(i, end), end + 1),
    decreases end - i,
{
    if i < end {
        law_plain_string_reads_back(s, i + 1, end);
        assert(seq![s[i]] + s.subrange(i + 1, end) =~= s.subrange(i, end));
    } else {
        assert(s.subrange(i, end) =~= Seq::<u8>::empty());
    }
}

/// A backslash makes the next character stand for another: brackets and the
/// backslash for themselves, three octal digits for the byte of that value.
pub proof fn law_escapes_in_strings(s: Seq<u8>, i: int)
    requires
        0 <= i,
        i + 4 <= s.len(),
        s[i] == 0x5c,
    ensures
        s[i + 1] == 0x28 || s[i + 1] == 0x29 || s[i + 1] == 0x5c ==> literal(s, i).0 == seq![
            s[i + 1],
        ] + literal(s, i + 2).0 && literal(s, i).1 == literal(s, i + 2).1,
        is_octal(s[i + 1]) && is_octal(s[i + 2]) && is_octal(s[i + 3]) ==> literal(s, i).0 == seq![
            (((s[i + 1] - 0x30) * 64 + (s[i + 2] - 0x30) * 8 + (s[i + 3] - 0x30)) % 256) as u8,
        ] + literal(s, i + 4).0,
{
    reveal_with_fuel(octal, 4);
}

/// A glyph code is made of two bytes, the higher one first.
pub proof fn law_codes_are_pairs(raw: Seq<u8>, k: int)
    requires
        0 <= k,
        2 * k + 1 < raw.len(),
    ensures
        codes(raw).len() == raw.len() / 2,
        codes(raw)[k] == raw[2 * k] * 256 + raw[2 * k + 1],
{
}

/// A text object holds the codes of the strings between its `BT` and its `ET`,
/// in order; a string outside of one is left out.
pub proof fn law_text_objects(s: Seq<u8>, i: int, block: Seq<u16>)
    requires
        0 <= i,
        i + 1 < s.len(),
    ensures
        s[i] == 0x42 && s[i + 1] == 0x54 ==> blocks_from(s, i, None) == blocks_from(
            s,
            i + 2,
            Some(Seq::empty()),
        ),
        s[i] == 0x45 && s[i + 1] == 0x54 ==> blocks_from(s, i, Some(block)) == seq![block]
            + blocks_from(s, i + 2, None),
        s[i] == 0x28 && i < literal(s, i + 1).1 <= s.len() ==> blocks_from(s, i, Some(block))
            == blocks_from(s, literal(s, i + 1).1, Some(block + codes(literal(s, i + 1).0)))
            && blocks_from(s, i, None) == blocks_from(s, literal(s, i + 1).1, None),
        s[i] == 0x3c && i < hex_string(s, i + 1).1 <= s.len() ==> blocks_from(s, i, Some(block))
            == blocks_from(s, hex_string(s, i + 1).1, Some(block + codes(hex_string(s, i + 1).0))),
{
    let two = s.subrange(i, i + 2);
    assert(two[0] == s[i] && two[1] == s[i + 1]);
    if s[i] == 0x42 && s[i + 1] == 0x54 {
        assert(two =~= begin_text());
    }
    if s[i] == 0x45 && s[i + 1] == 0x54 {
        assert(two =~= end_text());
    }
    assert(begin_text()[0] == 0x42 && end_text()[0] == 0x45);
}

/// A stream that inflates to something with a text object in it is read, and no
/// other is.
pub proof fn law_text_streams_are_read(raws: Seq<Seq<u8>>, n: nat, i: int, d: Seq<u8>)
    requires
        0 <= i < n <= raws.len(),
        inflated(raws[i]) == Some(d),
        shows_text(d),
    ensures
        text_streams(raws, n).contains(d),
        inflated(raws[n - 1]) is None ==> text_streams(raws, n) == text_streams(
            raws,
            (n - 1) as nat,
        ),
    decreases n,
{
    let head = text_streams(raws, (n - 1) as nat);
    let all = text_streams(raws, n);
    if i < n - 1 {
        law_text_streams_are_read(raws, (n - 1) as nat, i, d);
        let k = choose|k: int| 0 <= k < head.len() && head[k] == d;
        assert(all[k] == d);
    } else {
        assert(all[head.len() as int] == d);
    }
}

/// A stream is what stands between the first mark of a stream and the next mark
/// of its end, and the streams after it follow.
pub proof fn law_streams_stand_between_marks(pdf: Seq<u8>, at: int, mark: int, end: int)
    requires
        first_at(pdf, stream_mark(), at) == Some(mark),
        first_at(pdf, end_mark(), mark + 10) == Some(end),
        at <= mark,
        mark + 10 <= end,
        end + 9 <= pdf.len(),
    ensures
        raw_from(pdf, at) == seq![pdf.subrange(mark + 10, end)] + raw_from(pdf, end + 9),
{
}

} // verus!
