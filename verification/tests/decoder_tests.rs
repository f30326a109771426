use wrtype::decoder::Utf8Decoder;

#[test]
fn split_two_byte_scalar_decodes_once() {
    let mut d = Utf8Decoder::new();
    let first = d.feed(&[0xc3]);
    assert!(first.is_empty());
    let second = d.feed(&[0xa9]);
    assert_eq!(second, vec!['é']);
}

#[test]
fn split_four_byte_scalar_decodes_once() {
    let mut d = Utf8Decoder::new();
    assert!(d.feed(&[0xf0]).is_empty());
    assert!(d.feed(&[0x9f]).is_empty());
    assert!(d.feed(&[0x98]).is_empty());
    assert_eq!(d.feed(&[0x80]), vec!['\u{1F600}']);
}

#[test]
fn whole_text_decodes_to_its_characters() {
    let mut d = Utf8Decoder::new();
    let out = d.feed("héllo wörld".as_bytes());
    let expected: Vec<char> = "héllo wörld".chars().collect();
    assert_eq!(out, expected);
}

#[test]
fn malformed_bytes_make_forward_progress() {
    let mut d = Utf8Decoder::new();
    // Five bytes that can never begin a UTF-8 encoding: nothing decodes,
    // and the oldest byte is discarded rather than buffered without bound.
    let out = d.feed(&[0xff, 0xff, 0xff, 0xff, 0xff]);
    assert!(out.is_empty());
    // Valid input afterwards still comes through once the junk is displaced.
    let out = d.feed(&[b'a', b'a', b'a', b'a']);
    assert_eq!(out, vec!['a', 'a', 'a', 'a']);
}

#[test]
fn valid_prefix_decodes_before_partial_tail() {
    let mut d = Utf8Decoder::new();
    // "ab" followed by the first byte of a two-byte encoding.
    let out = d.feed(&[b'a', b'b', 0xc3]);
    assert_eq!(out, vec!['a', 'b']);
    let out = d.feed(&[0xa9, b'c']);
    assert_eq!(out, vec!['é', 'c']);
}

#[test]
fn overlong_and_surrogate_encodings_are_rejected() {
    let mut d = Utf8Decoder::new();
    // 0xc0 0xaf is an overlong encoding of `/`; it never decodes.
    assert!(d.feed(&[0xc0, 0xaf]).is_empty());
    let mut d = Utf8Decoder::new();
    // 0xed 0xa0 0x80 encodes the surrogate 0xd800; it never decodes.
    assert!(d.feed(&[0xed, 0xa0, 0x80]).is_empty());
}

#[test]
fn ascii_decodes_byte_by_byte() {
    let mut d = Utf8Decoder::new();
    assert_eq!(d.feed(&[b'x']), vec!['x']);
    assert_eq!(d.feed(&[b'\n']), vec!['\n']);
    assert!(d.feed(&[]).is_empty());
}
