//! Text in the content streams of a PDF file.

use flate2::write::ZlibEncoder;
use flate2::Compression;
use std::io::Write;
use wordcore::pdf_text::{
    content_streams, decode_hex_string, decode_literal_string, find, push_codes, raw_streams,
    text_blocks, text_stream,
};

fn deflate(bytes: &[u8]) -> Vec<u8> {
    let mut e = ZlibEncoder::new(Vec::new(), Compression::default());
    e.write_all(bytes).expect("compress");
    e.finish().expect("compress")
}

fn stream(raw: &[u8]) -> Vec<u8> {
    let mut out = b"<< /Filter /FlateDecode >>\nstream\n".to_vec();
    out.extend_from_slice(raw);
    out.extend_from_slice(b"endstream\n");
    out
}

#[test]
fn only_streams_that_show_text_are_content() {
    let page = b"BT (ab) Tj ET".to_vec();
    let mut pdf = b"%PDF-1.7\n".to_vec();
    pdf.extend(stream(&deflate(b"beginbfchar endbfchar")));
    pdf.extend(stream(&deflate(&page)));
    pdf.extend(stream(b"no deflated data"));
    assert_eq!(raw_streams(&pdf).len(), 3);
    assert_eq!(content_streams(&pdf), vec![page]);
}

#[test]
fn an_unfinished_stream_ends_the_list() {
    let pdf = b">>\nstream\nabc".to_vec();
    assert!(raw_streams(&pdf).is_empty());
    assert_eq!(text_stream(Some(b"x BT y".to_vec())), Some(b"x BT y".to_vec()));
    assert_eq!(text_stream(Some(b"nothing".to_vec())), None);
    assert_eq!(text_stream(None), None);
}

#[test]
fn text_objects_give_their_codes() {
    let s = b"BT (\\000a) Tj <00620063> Tj ET q (\\000z) Tj Q BT <0101> Tj ET".to_vec();
    assert_eq!(text_blocks(&s), vec![vec![0x61, 0x62, 0x63], vec![0x101]]);
    assert!(text_blocks(&b"(\\000a) Tj".to_vec()).is_empty());
}

#[test]
fn literal_strings_undo_their_escapes() {
    let s = b"a\\n\\r\\t\\b\\f\\(\\)\\\\\\101\\7z) tail".to_vec();
    let (bytes, next) = decode_literal_string(&s, 0);
    assert_eq!(bytes, b"a\n\r\t\x08\x0c()\\A\x07z".to_vec());
    assert_eq!(&s[next..], b" tail");
    let (bytes, next) = decode_literal_string(&b"open".to_vec(), 1);
    assert_eq!((bytes, next), (b"pen".to_vec(), 4));
    let (bytes, _) = decode_literal_string(&b"\\777)".to_vec(), 0);
    assert_eq!(bytes, vec![0xFF]);
}

#[test]
fn hexadecimal_strings_pad_an_odd_digit() {
    let s = b"0A fF7>x".to_vec();
    let (bytes, next) = decode_hex_string(&s, 0);
    assert_eq!(bytes, vec![0x0A, 0xFF, 0x70]);
    assert_eq!(next, 7);
    let mut out: Vec<u16> = vec![1];
    push_codes(&mut out, &bytes);
    assert_eq!(out, vec![1, 0x0AFF], "an odd byte at the end is dropped");
}

#[test]
fn the_first_match_is_found() {
    let s = b"abcabc".to_vec();
    assert_eq!(find(&s, &b"bc".to_vec(), 0), Some(1));
    assert_eq!(find(&s, &b"bc".to_vec(), 2), Some(4));
    assert_eq!(find(&s, &b"bc".to_vec(), 5), None);
    assert_eq!(find(&s, &Vec::new(), 0), None);
}
