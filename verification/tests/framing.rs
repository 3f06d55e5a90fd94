use git_object_store::bytes::{append, copy_range, find, same_bytes};
use git_object_store::decimal::{push_decimal, read_numeral, Numeral};
use git_object_store::envelope::{envelope, read_header};
use git_object_store::error::DecodeError;
use git_object_store::kind::ObjectKind;
use git_object_store::object::GitObject;

fn decimal(n: usize) -> Vec<u8> {
    let mut out = Vec::new();
    push_decimal(&mut out, n);
    out
}

#[test]
fn find_returns_first_match_or_end() {
    let s = b"ab cd ef";
    assert_eq!(find(s, b' ', 0, s.len()), 2);
    assert_eq!(find(s, b' ', 3, s.len()), 5);
    assert_eq!(find(s, b' ', 6, s.len()), 8);
    assert_eq!(find(s, b' ', 0, 2), 2);
    assert_eq!(find(s, b'a', 0, 0), 0);
    assert_eq!(find(b"", 0, 0, 0), 0);
}

#[test]
fn byte_helpers() {
    let mut out = b"ab".to_vec();
    append(&mut out, b"cd");
    append(&mut out, b"");
    assert_eq!(out, b"abcd");
    assert_eq!(copy_range(b"hello", 1, 4), b"ell");
    assert_eq!(copy_range(b"hello", 2, 2), b"");
    assert!(same_bytes(b"abc", b"abc"));
    assert!(same_bytes(b"", b""));
    assert!(!same_bytes(b"abc", b"abd"));
    assert!(!same_bytes(b"abc", b"ab"));
}

#[test]
fn decimal_numerals() {
    assert_eq!(decimal(0), b"0");
    assert_eq!(decimal(6), b"6");
    assert_eq!(decimal(10), b"10");
    assert_eq!(decimal(1234567890), b"1234567890");
    assert_eq!(decimal(usize::MAX), usize::MAX.to_string().as_bytes());
    let mut out = b"blob ".to_vec();
    push_decimal(&mut out, 42);
    assert_eq!(out, b"blob 42");
}

#[test]
fn numerals_are_read_with_leading_zeros() {
    assert_eq!(read_numeral(b"0", 0, 1), Numeral::Value(0));
    assert_eq!(read_numeral(b"12", 0, 2), Numeral::Value(12));
    assert_eq!(read_numeral(b"x907y", 1, 4), Numeral::Value(907));
    assert_eq!(read_numeral(b"012", 0, 3), Numeral::Value(12));
    assert_eq!(read_numeral(b"00", 0, 2), Numeral::Value(0));
    assert_eq!(read_numeral(b"0006", 0, 4), Numeral::Value(6));
    let max = usize::MAX.to_string();
    assert_eq!(read_numeral(max.as_bytes(), 0, max.len()), Numeral::Value(usize::MAX));
    let padded = format!("000{}", usize::MAX);
    assert_eq!(read_numeral(padded.as_bytes(), 0, padded.len()), Numeral::Value(usize::MAX));
}

#[test]
fn numerals_need_digits_only() {
    assert_eq!(read_numeral(b"", 0, 0), Numeral::Invalid);
    assert_eq!(read_numeral(b"12", 1, 1), Numeral::Invalid);
    assert_eq!(read_numeral(b"1a", 0, 2), Numeral::Invalid);
    assert_eq!(read_numeral(b"-1", 0, 2), Numeral::Invalid);
    assert_eq!(read_numeral(b"+1", 0, 2), Numeral::Invalid);
    assert_eq!(read_numeral(b"1/", 0, 2), Numeral::Invalid);
    assert_eq!(read_numeral(b"1:", 0, 2), Numeral::Invalid);
    assert_eq!(read_numeral(b"99999999999999999999999999x", 0, 27), Numeral::Invalid);
}

#[test]
fn numerals_beyond_the_machine_overflow() {
    let max = usize::MAX.to_string();
    let mut next = max.clone().into_bytes();
    let last = next.len() - 1;
    next[last] += 1;
    assert_eq!(read_numeral(&next, 0, next.len()), Numeral::Overflow);
    let longer = format!("{}0", max);
    assert_eq!(read_numeral(longer.as_bytes(), 0, longer.len()), Numeral::Overflow);
    assert_eq!(
        read_numeral(b"99999999999999999999999999999999", 0, 32),
        Numeral::Overflow
    );
}

#[test]
fn kind_names() {
    assert_eq!(ObjectKind::Blob.name(), b"blob");
    assert_eq!(ObjectKind::Tree.name(), b"tree");
    assert_eq!(ObjectKind::Commit.name(), b"commit");
    assert_eq!(ObjectKind::Tag.name(), b"tag");
    assert_eq!(ObjectKind::from_name(b"blob"), Some(ObjectKind::Blob));
    assert_eq!(ObjectKind::from_name(b"tree"), Some(ObjectKind::Tree));
    assert_eq!(ObjectKind::from_name(b"commit"), Some(ObjectKind::Commit));
    assert_eq!(ObjectKind::from_name(b"tag"), Some(ObjectKind::Tag));
    assert_eq!(ObjectKind::from_name(b"Blob"), None);
    assert_eq!(ObjectKind::from_name(b"blobs"), None);
    assert_eq!(ObjectKind::from_name(b""), None);
}

#[test]
fn envelope_of_hello() {
    assert_eq!(envelope(ObjectKind::Blob, b"hello\n"), b"blob 6\0hello\n");
    assert_eq!(envelope(ObjectKind::Tree, b""), b"tree 0\0");
    assert_eq!(envelope(ObjectKind::Commit, b"0123456789"), b"commit 10\x000123456789");
}

#[test]
fn read_header_finds_kind_and_body() {
    assert_eq!(read_header(b"blob 6\0hello\n"), Ok((ObjectKind::Blob, 7)));
    assert_eq!(read_header(b"tree 0\0"), Ok((ObjectKind::Tree, 7)));
    assert_eq!(read_header(b"commit 3\0a\0b"), Ok((ObjectKind::Commit, 9)));
}

#[test]
fn header_without_nul_is_malformed() {
    assert_eq!(read_header(b""), Err(DecodeError::MalformedHeader));
    assert_eq!(read_header(b"blob 6"), Err(DecodeError::MalformedHeader));
    assert_eq!(read_header(b"blob 6hello\n"), Err(DecodeError::MalformedHeader));
}

#[test]
fn header_nul_must_be_in_the_scan_window() {
    let mut far = b"blob ".to_vec();
    far.extend(std::iter::repeat(b'1').take(59));
    assert_eq!(far.len(), 64);
    far.push(0);
    assert_eq!(read_header(&far), Err(DecodeError::MalformedHeader));

    let mut near = b"blob ".to_vec();
    near.extend(std::iter::repeat(b'1').take(58));
    near.push(0);
    assert_eq!(near.len(), 64);
    assert_eq!(read_header(&near), Err(DecodeError::SizeMismatch));
}

#[test]
fn header_without_space_is_malformed() {
    assert_eq!(read_header(b"blob\0"), Err(DecodeError::MalformedHeader));
    assert_eq!(read_header(b"\0"), Err(DecodeError::MalformedHeader));
    assert_eq!(read_header(b"blob6\0hello "), Err(DecodeError::MalformedHeader));
}

#[test]
fn unknown_kind() {
    assert_eq!(read_header(b"blot 6\0hello\n"), Err(DecodeError::UnknownKind));
    assert_eq!(read_header(b" 6\0hello\n"), Err(DecodeError::UnknownKind));
    assert_eq!(read_header(b"BLOB 6\0hello\n"), Err(DecodeError::UnknownKind));
    assert_eq!(read_header(b"blot x\0"), Err(DecodeError::UnknownKind));
}

#[test]
fn invalid_length() {
    assert_eq!(read_header(b"blob \0"), Err(DecodeError::InvalidLength));
    assert_eq!(read_header(b"blob six\0hello\n"), Err(DecodeError::InvalidLength));
    assert_eq!(read_header(b"blob -6\0hello\n"), Err(DecodeError::InvalidLength));
    assert_eq!(read_header(b"blob +6\0hello\n"), Err(DecodeError::InvalidLength));
    assert_eq!(read_header(b"blob 0x6\0hello\n"), Err(DecodeError::InvalidLength));
    assert_eq!(read_header(b"blob 6 \0hello\n"), Err(DecodeError::InvalidLength));
    assert_eq!(read_header(b"blob  6\0hello\n"), Err(DecodeError::InvalidLength));
}

#[test]
fn length_may_have_leading_zeros() {
    assert_eq!(read_header(b"blob 06\0hello\n"), Ok((ObjectKind::Blob, 8)));
    assert_eq!(read_header(b"blob 000\0"), Ok((ObjectKind::Blob, 9)));
    assert_eq!(read_header(b"tag 0012\0abcdefghijkl"), Ok((ObjectKind::Tag, 9)));
    assert_eq!(read_header(b"blob 07\0hello\n"), Err(DecodeError::SizeMismatch));
    assert_eq!(read_header(b"blob 00\0x"), Err(DecodeError::SizeMismatch));

    let parsed = GitObject::parse(b"blob 06\0hello\n").unwrap();
    assert_eq!(parsed, GitObject::Blob { contents: b"hello\n".to_vec() });
    assert_eq!(parsed.byte_size(), 6);
    assert_eq!(parsed.envelope(), b"blob 6\0hello\n");
}

#[test]
fn size_mismatch() {
    assert_eq!(read_header(b"blob 6\0hello"), Err(DecodeError::SizeMismatch));
    assert_eq!(read_header(b"blob 6\0hello\n\n"), Err(DecodeError::SizeMismatch));
    assert_eq!(read_header(b"blob 0\0x"), Err(DecodeError::SizeMismatch));
    assert_eq!(
        read_header(b"blob 99999999999999999999999999999999\0hello\n"),
        Err(DecodeError::SizeMismatch)
    );
}

#[test]
fn tag_header_with_twelve_bytes() {
    let mut full = b"tag 12\0".to_vec();
    full.extend_from_slice(&[0xff, 0x00, 0x0a, 0x0a, 0x20, 0x80, 0x01, 0x02, 0x03, 0x04, 0x05, 0x06]);
    let parsed = GitObject::parse(&full).unwrap();
    assert!(matches!(parsed, GitObject::Tag { .. }));
    assert_eq!(parsed.byte_size(), 12);
    assert_eq!(parsed.envelope(), full);

    let mut plain = b"tag 12\0".to_vec();
    plain.extend_from_slice(b"abcdefghijkl");
    assert!(matches!(GitObject::parse(&plain), Ok(GitObject::Tag { .. })));

    let mut short = b"tag 12\0".to_vec();
    short.extend_from_slice(b"abcdefghij");
    assert_eq!(GitObject::parse(&short), Err(DecodeError::SizeMismatch));
}
