use protohackers::proxy::{next_line, transform_line};

const TOTE: &[u8] = b"7YWHMfk9JZe0LM0g1ZauHuiSxhI";

#[test]
fn rewrites_space_bounded_address() {
    // '7' followed by 25 word bytes: a 26-byte token.
    let line = b"pay 7AAAAAAAAAAAAAAAAAAAAAAAAA now";
    let mut want = b"pay ".to_vec();
    want.extend_from_slice(TOTE);
    want.extend_from_slice(b" now\n");
    assert_eq!(transform_line(line), want);
}

#[test]
fn rewrites_at_line_edges() {
    let line = b"7AAAAAAAAAAAAAAAAAAAAAAAAA";
    let mut want = TOTE.to_vec();
    want.push(b'\n');
    assert_eq!(transform_line(line), want);
}

#[test]
fn keeps_address_without_space_boundary() {
    // The token is bounded by '-' rather than a space: kept verbatim.
    let line = b"x -7AAAAAAAAAAAAAAAAAAAAAAAAA y";
    let mut want = line.to_vec();
    want.push(b'\n');
    assert_eq!(transform_line(line), want);
}

#[test]
fn keeps_wrong_lengths_and_prefixes() {
    // 25 bytes: too short.
    let short = b"a 7AAAAAAAAAAAAAAAAAAAAAAAA b";
    let mut want = short.to_vec();
    want.push(b'\n');
    assert_eq!(transform_line(short), want);
    // 36 bytes: too long.
    let long = b"a 7AAAAAAAAAAAAAAAAAAAAAAAAAAAAAAAAAAA b";
    let mut want = long.to_vec();
    want.push(b'\n');
    assert_eq!(transform_line(long), want);
    // Starts with a word byte before the '7': not a token start.
    let glued = b"a x7AAAAAAAAAAAAAAAAAAAAAAAAA b";
    let mut want = glued.to_vec();
    want.push(b'\n');
    assert_eq!(transform_line(glued), want);
}

#[test]
fn underscore_disqualifies_token() {
    // '7' plus 24 letters plus '_': a 26-byte word run, space bounded,
    // but the underscore is outside the address alphabet.
    let line = b"pay 7AAAAAAAAAAAAAAAAAAAAAAAA_ now";
    let mut want = line.to_vec();
    want.push(b'\n');
    assert_eq!(transform_line(line), want);
    // '7' plus 25 letters would be an address, but the underscore glued
    // to it extends the run and denies the token its end boundary.
    let glued = b"pay 7AAAAAAAAAAAAAAAAAAAAAAAAA_ now";
    let mut want = glued.to_vec();
    want.push(b'\n');
    assert_eq!(transform_line(glued), want);
}

#[test]
fn rewrites_several_addresses() {
    let line = b"7AAAAAAAAAAAAAAAAAAAAAAAAA and 7BBBBBBBBBBBBBBBBBBBBBBBBB";
    let mut want = TOTE.to_vec();
    want.extend_from_slice(b" and ");
    want.extend_from_slice(TOTE);
    want.push(b'\n');
    assert_eq!(transform_line(line), want);
}

#[test]
fn plain_text_gains_only_newline() {
    assert_eq!(transform_line(b"hello world"), b"hello world\n".to_vec());
    assert_eq!(transform_line(b""), b"\n".to_vec());
}

#[test]
fn next_line_splits_at_newline() {
    let mut buf = b"first\nsecond".to_vec();
    let line = next_line(&mut buf).expect("one whole line buffered");
    assert_eq!(line, b"first".to_vec());
    assert_eq!(buf, b"second".to_vec());
    assert!(next_line(&mut buf).is_none());
    assert_eq!(buf, b"second".to_vec());
}

#[test]
fn next_line_handles_empty_lines() {
    let mut buf = b"\nrest\n".to_vec();
    assert_eq!(next_line(&mut buf).unwrap(), Vec::<u8>::new());
    assert_eq!(next_line(&mut buf).unwrap(), b"rest".to_vec());
    assert!(buf.is_empty());
}
