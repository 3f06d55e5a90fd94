use git_object_store::error::{BodyFault, DecodeError};
use git_object_store::kind::ObjectKind;
use git_object_store::object::GitObject;
use git_object_store::oid::ObjectId;
use git_object_store::text::TextBody;
use git_object_store::tree::{
    is_sorted, name_le, read_entries, read_tree, sort_order, write_entries, TreeEntry,
};

fn entry(mode: &str, name: &str, fill: u8) -> TreeEntry {
    TreeEntry {
        mode: mode.as_bytes().to_vec(),
        name: name.as_bytes().to_vec(),
        id: ObjectId::from_bytes([fill; 20]),
    }
}

fn entry_bytes(mode: &str, name: &str, fill: u8) -> Vec<u8> {
    let mut out = Vec::new();
    out.extend_from_slice(mode.as_bytes());
    out.push(b' ');
    out.extend_from_slice(name.as_bytes());
    out.push(0);
    out.extend_from_slice(&[fill; 20]);
    out
}

fn tree_fault(detail: BodyFault) -> DecodeError {
    DecodeError::BodyParseError { kind: ObjectKind::Tree, detail }
}

fn framed(kind: &str, body: &[u8]) -> Vec<u8> {
    let mut out = format!("{} {}\0", kind, body.len()).into_bytes();
    out.extend_from_slice(body);
    out
}

#[test]
fn blob_parses_verbatim() {
    let parsed = GitObject::parse(b"blob 6\0hello\n").unwrap();
    assert_eq!(parsed, GitObject::Blob { contents: b"hello\n".to_vec() });
    assert_eq!(parsed.kind(), ObjectKind::Blob);
    assert_eq!(parsed.byte_size(), 6);
    assert_eq!(parsed.body(), b"hello\n");
    assert_eq!(parsed.pretty(), b"hello\n");
    assert_eq!(parsed.envelope(), b"blob 6\0hello\n");
    assert!(parsed.is_valid());
}

#[test]
fn blob_may_hold_any_bytes() {
    let contents: Vec<u8> = vec![0, 255, 10, 10, 0, 32, 128];
    let object = GitObject::Blob { contents: contents.clone() };
    let envelope = object.envelope();
    assert_eq!(&envelope[..7], b"blob 7\0");
    assert_eq!(GitObject::parse(&envelope), Ok(object));
}

#[test]
fn empty_blob() {
    let object = GitObject::Blob { contents: Vec::new() };
    assert_eq!(object.envelope(), b"blob 0\0");
    assert_eq!(object.byte_size(), 0);
    assert_eq!(GitObject::parse(b"blob 0\0"), Ok(object));
}

#[test]
fn parse_reports_header_faults() {
    assert_eq!(GitObject::parse(b"hello"), Err(DecodeError::MalformedHeader));
    assert_eq!(GitObject::parse(b"blob\0hello"), Err(DecodeError::MalformedHeader));
    assert_eq!(GitObject::parse(b"bloc 5\0hello"), Err(DecodeError::UnknownKind));
    assert_eq!(GitObject::parse(b"blob 5x\0hello"), Err(DecodeError::InvalidLength));
    assert_eq!(GitObject::parse(b"blob 4\0hello"), Err(DecodeError::SizeMismatch));
}

#[test]
fn header_faults_come_before_body_faults() {
    let body = b"100644 name-without-end";
    let mut wrong_size = format!("tree {}\0", body.len() + 1).into_bytes();
    wrong_size.extend_from_slice(body);
    assert_eq!(GitObject::parse(&wrong_size), Err(DecodeError::SizeMismatch));
    assert_eq!(
        GitObject::parse(&framed("tree", body)),
        Err(tree_fault(BodyFault::UnterminatedName))
    );
}

#[test]
fn tree_round_trip() {
    let entries =
        vec![entry("100644", "a.txt", 1), entry("40000", "dir", 2), entry("100755", "run", 3)];
    let object = GitObject::Tree { entries };
    assert!(object.is_valid());
    let mut body = entry_bytes("100644", "a.txt", 1);
    body.extend(entry_bytes("40000", "dir", 2));
    body.extend(entry_bytes("100755", "run", 3));
    assert_eq!(object.body(), body);
    assert_eq!(object.byte_size(), body.len());
    assert_eq!(object.envelope(), framed("tree", &body));
    assert_eq!(GitObject::parse(&object.envelope()), Ok(object));
}

#[test]
fn empty_tree() {
    let object = GitObject::Tree { entries: Vec::new() };
    assert_eq!(object.envelope(), b"tree 0\0");
    assert_eq!(GitObject::parse(b"tree 0\0"), Ok(object));
}

#[test]
fn tree_is_written_in_name_order() {
    let unsorted = GitObject::Tree {
        entries: vec![
            entry("100644", "b", 1),
            entry("100644", "a", 2),
            entry("100644", "ab", 3),
            entry("100644", "", 4),
        ],
    };
    let sorted = GitObject::Tree {
        entries: vec![
            entry("100644", "", 4),
            entry("100644", "a", 2),
            entry("100644", "ab", 3),
            entry("100644", "b", 1),
        ],
    };
    assert_eq!(unsorted.body(), sorted.body());
    assert_eq!(unsorted.envelope(), sorted.envelope());
    assert_eq!(GitObject::parse(&unsorted.envelope()), Ok(sorted));
}

#[test]
fn sort_is_stable() {
    let entries = vec![
        entry("3", "same", 1),
        entry("1", "same", 2),
        entry("9", "early", 3),
        entry("2", "same", 4),
        entry("0", "zz", 5),
        entry("7", "early", 6),
    ];
    assert_eq!(sort_order(&entries), vec![2, 5, 0, 1, 3, 4]);
    assert_eq!(sort_order(&[]), Vec::<usize>::new());
    assert_eq!(sort_order(&entries[..1]), vec![0]);
    let mut out = b"x".to_vec();
    write_entries(&entries, &mut out);
    let mut expected = b"x".to_vec();
    let in_order = [
        ("9", "early", 3),
        ("7", "early", 6),
        ("3", "same", 1),
        ("1", "same", 2),
        ("2", "same", 4),
        ("0", "zz", 5),
    ];
    for (mode, name, fill) in in_order {
        expected.extend(entry_bytes(mode, name, fill));
    }
    assert_eq!(out, expected);
}

#[test]
fn names_are_ordered_as_byte_strings() {
    assert!(name_le(b"", b""));
    assert!(name_le(b"", b"a"));
    assert!(!name_le(b"a", b""));
    assert!(name_le(b"a", b"a"));
    assert!(name_le(b"a", b"ab"));
    assert!(!name_le(b"ab", b"a"));
    assert!(name_le(b"ab", b"b"));
    assert!(!name_le(b"b", b"ab"));
    assert!(name_le(b"Z", b"a"));
    assert!(name_le(b"a", &[0xff]));
    assert!(!name_le(&[0x80], b"a"));
}

#[test]
fn sortedness_check() {
    assert!(is_sorted(&[]));
    assert!(is_sorted(&[entry("1", "x", 0)]));
    assert!(is_sorted(&[entry("1", "a", 0), entry("1", "a", 1), entry("1", "b", 2)]));
    assert!(!is_sorted(&[entry("1", "b", 0), entry("1", "a", 1)]));
    assert!(!is_sorted(&[entry("1", "a", 0), entry("1", "c", 1), entry("1", "b", 2)]));
}

#[test]
fn tree_body_faults() {
    assert_eq!(read_tree(b"100644"), Err(BodyFault::UnterminatedMode));
    assert_eq!(read_tree(b"100644\0name"), Err(BodyFault::UnterminatedMode));
    assert_eq!(read_tree(b"100644 name"), Err(BodyFault::UnterminatedName));
    assert_eq!(read_tree(b"100644 "), Err(BodyFault::UnterminatedName));
    let mut short = b"100644 name\0".to_vec();
    short.extend_from_slice(&[7; 19]);
    assert_eq!(read_tree(&short), Err(BodyFault::TruncatedId));
    assert_eq!(read_tree(b"100644 name\0"), Err(BodyFault::TruncatedId));

    let mut second = entry_bytes("100644", "a", 1);
    second.extend_from_slice(b"100644 b\0short");
    assert_eq!(read_tree(&second), Err(BodyFault::TruncatedId));

    let mut unsorted = entry_bytes("100644", "b", 1);
    unsorted.extend(entry_bytes("100644", "a", 2));
    assert_eq!(read_tree(&unsorted), Err(BodyFault::UnsortedEntries));
    assert_eq!(
        read_entries(&unsorted),
        Ok(vec![entry("100644", "b", 1), entry("100644", "a", 2)])
    );
    assert_eq!(
        GitObject::parse(&framed("tree", &unsorted)),
        Err(tree_fault(BodyFault::UnsortedEntries))
    );
}

#[test]
fn tree_entry_fields_may_be_empty_or_hold_the_other_separator() {
    let mut body = entry_bytes("", "", 9);
    body.extend(entry_bytes("a\0b", "x y", 8));
    assert_eq!(read_tree(&body), Ok(vec![entry("", "", 9), entry("a\0b", "x y", 8)]));
}

#[test]
fn tree_entry_validity() {
    assert!(entry("100644", "file name", 0).is_valid());
    assert!(entry("", "", 0).is_valid());
    assert!(!entry("100 644", "file", 0).is_valid());
    assert!(!entry("100644", "fi\0le", 0).is_valid());
    let tree = GitObject::Tree { entries: vec![entry("100644", "ok", 0), entry("1 0", "bad", 0)] };
    assert!(!tree.is_valid());
}

#[test]
fn tree_listing() {
    let object = GitObject::Tree {
        entries: vec![entry("100644", "a.txt", 0x1f), entry("40000", "dir", 0xa0)],
    };
    let expected = format!(
        "100644 {}\ta.txt\n40000 {}\tdir\n",
        "1f".repeat(20),
        "a0".repeat(20)
    );
    assert_eq!(String::from_utf8(object.pretty()).unwrap(), expected);
    assert_eq!(GitObject::Tree { entries: Vec::new() }.pretty(), b"");
}

#[test]
fn commit_splits_at_first_blank_line() {
    let body = b"tree 4b825dc642cb6eb9a060e54bf8d69288fbee4904\nauthor A <a@b> 0 +0000\n\
\nfirst line\n\nsecond paragraph\n";
    let parsed = GitObject::parse(&framed("commit", body)).unwrap();
    let expected = GitObject::Commit {
        text: TextBody {
            headers: b"tree 4b825dc642cb6eb9a060e54bf8d69288fbee4904\nauthor A <a@b> 0 +0000\n"
                .to_vec(),
            message: Some(b"first line\n\nsecond paragraph\n".to_vec()),
        },
    };
    assert_eq!(parsed, expected);
    assert!(parsed.is_valid());
    assert_eq!(parsed.kind(), ObjectKind::Commit);
    assert_eq!(parsed.body(), body);
    assert_eq!(parsed.pretty(), body);
    assert_eq!(parsed.byte_size(), body.len());
    assert_eq!(parsed.envelope(), framed("commit", body));
}

#[test]
fn tag_round_trip() {
    let object = GitObject::Tag {
        text: TextBody {
            headers: b"object ce013625030ba8dba906f756967f9e9ca394464a\ntype blob\ntag v1\n"
                .to_vec(),
            message: Some(b"release\n".to_vec()),
        },
    };
    assert!(object.is_valid());
    assert_eq!(object.kind(), ObjectKind::Tag);
    let envelope = object.envelope();
    assert!(envelope.starts_with(b"tag 74\0object "));
    assert_eq!(GitObject::parse(&envelope), Ok(object));
}

#[test]
fn text_split_edge_cases() {
    let split = |body: &[u8]| {
        let text = TextBody::split(body);
        (text.headers, text.message)
    };
    assert_eq!(split(b""), (b"".to_vec(), None));
    assert_eq!(split(b"a"), (b"a".to_vec(), None));
    assert_eq!(split(b"a\n"), (b"a\n".to_vec(), None));
    assert_eq!(split(b"a\nb"), (b"a\nb".to_vec(), None));
    assert_eq!(split(b"\n"), (b"".to_vec(), Some(b"".to_vec())));
    assert_eq!(split(b"\nmsg"), (b"".to_vec(), Some(b"msg".to_vec())));
    assert_eq!(split(b"a\n\n"), (b"a\n".to_vec(), Some(b"".to_vec())));
    assert_eq!(split(b"a\n\nm"), (b"a\n".to_vec(), Some(b"m".to_vec())));
    assert_eq!(split(b"a\n\n\nm\n\n"), (b"a\n".to_vec(), Some(b"\nm\n\n".to_vec())));
}

#[test]
fn text_write_joins_with_a_blank_line() {
    let mut out = b">".to_vec();
    TextBody { headers: b"k v\n".to_vec(), message: Some(b"m".to_vec()) }.write(&mut out);
    assert_eq!(out, b">k v\n\nm");
    let mut bare = Vec::new();
    TextBody { headers: b"k v".to_vec(), message: None }.write(&mut bare);
    assert_eq!(bare, b"k v");
}

#[test]
fn text_validity() {
    let text = |headers: &[u8], message: Option<&[u8]>| TextBody {
        headers: headers.to_vec(),
        message: message.map(|m| m.to_vec()),
    };
    assert!(text(b"", None).is_valid());
    assert!(text(b"", Some(b"m")).is_valid());
    assert!(text(b"a\n", Some(b"")).is_valid());
    assert!(text(b"a", None).is_valid());
    assert!(text(b"a\nb\n", Some(b"\n\n")).is_valid());
    assert!(!text(b"a", Some(b"m")).is_valid());
    assert!(!text(b"\na\n", Some(b"m")).is_valid());
    assert!(!text(b"a\n\nb\n", None).is_valid());
    assert!(!text(b"\n", None).is_valid());
    assert!(!GitObject::Commit { text: text(b"a", Some(b"m")) }.is_valid());
    assert!(!GitObject::Tag { text: text(b"\n", None) }.is_valid());
}

#[test]
fn parsed_objects_reproduce_their_envelope() {
    let mut tree = entry_bytes("100644", "a", 1);
    tree.extend(entry_bytes("100644", "b", 2));
    let envelopes: Vec<Vec<u8>> = vec![
        framed("blob", b"\0\0\n\n"),
        framed("tree", &tree),
        framed("commit", b"no blank line here"),
        framed("commit", b"\n\n\n"),
        framed("tag", b"k v\n\nmessage"),
        framed("tag", b""),
    ];
    for envelope in envelopes {
        let object = GitObject::parse(&envelope).unwrap();
        assert!(object.is_valid());
        assert_eq!(object.envelope(), envelope);
        assert_eq!(GitObject::parse(&object.envelope()), Ok(object));
    }
}

#[test]
fn tree_entry_constructor_checks_the_fields() {
    let id = ObjectId::from_bytes([5; 20]);
    assert_eq!(
        TreeEntry::new(b"100644".to_vec(), b"file name".to_vec(), id),
        Some(entry("100644", "file name", 5))
    );
    assert_eq!(TreeEntry::new(b"100 644".to_vec(), b"file".to_vec(), id), None);
    assert_eq!(TreeEntry::new(b"100644".to_vec(), b"fi\0le".to_vec(), id), None);
}

#[test]
fn text_constructor_checks_the_split() {
    assert_eq!(
        TextBody::new(b"k v\n".to_vec(), Some(b"m".to_vec())),
        Some(TextBody { headers: b"k v\n".to_vec(), message: Some(b"m".to_vec()) })
    );
    assert_eq!(
        TextBody::new(b"k v".to_vec(), None),
        Some(TextBody { headers: b"k v".to_vec(), message: None })
    );
    assert_eq!(TextBody::new(b"k v".to_vec(), Some(b"m".to_vec())), None);
    assert_eq!(TextBody::new(b"k\n\nv".to_vec(), None), None);
}
