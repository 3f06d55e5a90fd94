use flate2::read::ZlibDecoder;
use flate2::write::ZlibEncoder;
use flate2::Compression;
use git_object_store::codec::{
    decode, decode_identified, encode, envelope_id, open, sealed, stored_id,
};
use git_object_store::error::{BodyFault, DecodeError, StoreError};
use git_object_store::kind::ObjectKind;
use git_object_store::object::GitObject;
use git_object_store::oid::{compute_id, ObjectId};
use git_object_store::text::TextBody;
use git_object_store::tree::TreeEntry;
use std::io::{Read, Write};

fn zlib(data: &[u8]) -> Vec<u8> {
    let mut encoder = ZlibEncoder::new(Vec::new(), Compression::default());
    encoder.write_all(data).unwrap();
    encoder.finish().unwrap()
}

fn unzlib(data: &[u8]) -> Vec<u8> {
    let mut out = Vec::new();
    ZlibDecoder::new(data).read_to_end(&mut out).unwrap();
    out
}

fn entry(mode: &str, name: &str, fill: u8) -> TreeEntry {
    TreeEntry {
        mode: mode.as_bytes().to_vec(),
        name: name.as_bytes().to_vec(),
        id: ObjectId::from_bytes([fill; 20]),
    }
}

fn samples() -> Vec<GitObject> {
    vec![
        GitObject::Blob { contents: b"hello\n".to_vec() },
        GitObject::Blob { contents: Vec::new() },
        GitObject::Blob { contents: (0u8..=255).cycle().take(5000).collect() },
        GitObject::Tree { entries: Vec::new() },
        GitObject::Tree {
            entries: vec![
                entry("100644", "a", 1),
                entry("40000", "b", 0),
            ],
        },
        GitObject::Commit {
            text: TextBody { headers: b"tree x\nauthor y\n".to_vec(), message: Some(b"msg\n".to_vec()) },
        },
        GitObject::Commit { text: TextBody { headers: b"tree x".to_vec(), message: None } },
        GitObject::Tag {
            text: TextBody { headers: b"object x\ntype blob\n".to_vec(), message: Some(Vec::new()) },
        },
    ]
}

#[test]
fn decode_after_encode_is_identity() {
    for object in samples() {
        assert!(object.is_valid());
        let (_, bytes) = encode(&object).unwrap();
        assert_eq!(decode(&bytes), Ok(object));
    }
}

#[test]
fn encode_gives_digest_and_compressed_envelope() {
    for object in samples() {
        let envelope = object.envelope();
        let (id, bytes) = encode(&object).unwrap();
        assert_eq!(id, compute_id(&envelope));
        assert_eq!(unzlib(&bytes), envelope);
    }
}

#[test]
fn encode_hello_blob() {
    let object = GitObject::Blob { contents: b"hello\n".to_vec() };
    assert_eq!(object.envelope(), b"blob 6\0hello\n");
    let (id, bytes) = encode(&object).unwrap();
    assert_eq!(id.to_hex(), b"ce013625030ba8dba906f756967f9e9ca394464a");
    assert_ne!(bytes, b"blob 6\0hello\n");
    assert_eq!(unzlib(&bytes), b"blob 6\0hello\n");
    let decoded = decode(&bytes).unwrap();
    assert_eq!(decoded, GitObject::Blob { contents: b"hello\n".to_vec() });
    assert_eq!(decoded.byte_size(), 6);
}

#[test]
fn decode_hello_blob_from_a_foreign_stream() {
    let decoded = decode(&zlib(b"blob 6\0hello\n")).unwrap();
    assert_eq!(decoded, GitObject::Blob { contents: b"hello\n".to_vec() });
    assert_eq!(decoded.byte_size(), 6);
    let fast = {
        let mut encoder = ZlibEncoder::new(Vec::new(), Compression::fast());
        encoder.write_all(b"blob 6\0hello\n").unwrap();
        encoder.finish().unwrap()
    };
    assert_eq!(decode(&fast), Ok(decoded));
}

#[test]
fn encode_is_deterministic_in_the_id() {
    for object in samples() {
        let (first, _) = encode(&object).unwrap();
        let (second, _) = encode(&object.clone()).unwrap();
        assert_eq!(first, second);
    }
}

#[test]
fn encode_sorts_tree_entries() {
    let a = entry("100644", "a", 1);
    let b = entry("100644", "b", 2);
    let unsorted = GitObject::Tree { entries: vec![b.clone(), a.clone()] };
    let sorted = GitObject::Tree { entries: vec![a, b] };
    let (unsorted_id, unsorted_bytes) = encode(&unsorted).unwrap();
    let (sorted_id, _) = encode(&sorted).unwrap();
    assert_eq!(unsorted_id, sorted_id);
    assert_eq!(decode(&unsorted_bytes), Ok(sorted));
}

#[test]
fn truncated_body_is_a_size_mismatch() {
    for object in samples() {
        let envelope = unzlib(&encode(&object).unwrap().1);
        if object.byte_size() == 0 {
            continue;
        }
        let truncated = zlib(&envelope[..envelope.len() - 1]);
        assert_eq!(decode(&truncated), Err(StoreError::Corrupt(DecodeError::SizeMismatch)));
    }
}

#[test]
fn bytes_that_do_not_inflate_are_an_io_error() {
    assert_eq!(decode(b"blob 6\0hello\n"), Err(StoreError::Io));
    assert_eq!(decode(b""), Err(StoreError::Io));
    let stream = zlib(b"blob 6\0hello\n");
    assert_eq!(decode(&stream[..stream.len() / 2]), Err(StoreError::Io));
}

#[test]
fn corrupt_envelopes() {
    assert_eq!(decode(&zlib(b"")), Err(StoreError::Corrupt(DecodeError::MalformedHeader)));
    assert_eq!(decode(&zlib(b"blob 6")), Err(StoreError::Corrupt(DecodeError::MalformedHeader)));
    assert_eq!(decode(&zlib(b"note 1\0x")), Err(StoreError::Corrupt(DecodeError::UnknownKind)));
    assert_eq!(decode(&zlib(b"blob 1.\0x")), Err(StoreError::Corrupt(DecodeError::InvalidLength)));
    assert_eq!(decode(&zlib(b"blob 2\0x")), Err(StoreError::Corrupt(DecodeError::SizeMismatch)));
    assert_eq!(
        decode(&zlib(b"tree 3\0abc")),
        Err(StoreError::Corrupt(DecodeError::BodyParseError {
            kind: ObjectKind::Tree,
            detail: BodyFault::UnterminatedMode,
        }))
    );
}

#[test]
fn open_reads_an_inflated_envelope() {
    assert_eq!(open(None), Err(StoreError::Io));
    assert_eq!(
        open(Some(b"blob 6\0hello\n".to_vec())),
        Ok(GitObject::Blob { contents: b"hello\n".to_vec() })
    );
    assert_eq!(
        open(Some(b"blob 7\0hello\n".to_vec())),
        Err(StoreError::Corrupt(DecodeError::SizeMismatch))
    );
}

#[test]
fn sealed_pairs_id_and_bytes() {
    let id = ObjectId::from_bytes([3; 20]);
    assert_eq!(sealed(id, Some(vec![1, 2, 3])), Ok((id, vec![1, 2, 3])));
    assert_eq!(sealed(id, None), Err(StoreError::Io));
}

#[test]
fn stored_id_hashes_the_inflated_envelope() {
    assert_eq!(
        stored_id(&zlib(b"blob 6\0hello\n")).unwrap().to_hex(),
        b"ce013625030ba8dba906f756967f9e9ca394464a"
    );
    assert_eq!(stored_id(&zlib(b"no header at all")), Ok(compute_id(b"no header at all")));
    assert_eq!(stored_id(b"blob 6\0hello\n"), Err(StoreError::Io));
    for object in samples() {
        let (id, bytes) = encode(&object).unwrap();
        assert_eq!(stored_id(&bytes), Ok(id));
    }
}

#[test]
fn envelope_id_of_inflated_bytes() {
    assert_eq!(envelope_id(None), Err(StoreError::Io));
    assert_eq!(
        envelope_id(Some(b"blob 0\0".to_vec())).unwrap().to_hex(),
        b"e69de29bb2d1d6434b8b29ae775ad8c2e48c5391"
    );
}

#[test]
fn decode_identified_returns_object_and_stored_id() {
    for object in samples() {
        let (id, bytes) = encode(&object).unwrap();
        assert_eq!(decode_identified(&bytes), Ok((id, object)));
    }
    assert_eq!(decode_identified(b"junk"), Err(StoreError::Io));
    assert_eq!(
        decode_identified(&zlib(b"blob 2\0x")),
        Err(StoreError::Corrupt(DecodeError::SizeMismatch))
    );
    let padded = b"blob 06\0hello\n";
    assert_eq!(
        decode_identified(&zlib(padded)),
        Ok((compute_id(padded), GitObject::Blob { contents: b"hello\n".to_vec() }))
    );
    assert_ne!(compute_id(padded), compute_id(b"blob 6\0hello\n"));
}

#[test]
fn encode_twice_gives_the_same_bytes() {
    for object in samples() {
        assert_eq!(encode(&object), encode(&object.clone()));
    }
}
