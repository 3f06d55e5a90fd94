//! Object identifiers: the SHA-1 digest of an envelope, its hexadecimal form, and the
//! path under which the object is kept.

use crate::bytes::append;
use crate::error::StoreError;
use sha1::{Digest, Sha1};
use vstd::prelude::*;

verus! {

/// The number of bytes in a digest.
pub const ID_LEN: usize = 20;

/// The number of hexadecimal digits in an identifier.
pub const HEX_LEN: usize = 40;

/// The lowercase hexadecimal digit for a value below sixteen.
pub open spec fn hex_digit(v: int) -> u8 {
    if v < 10 {
        (48 + v) as u8
    } else {
        (87 + v) as u8
    }
}

/// Whether `c` is one of `0`-`9`, `a`-`f`.
pub open spec fn is_hex_digit(c: u8) -> bool {
    48 <= c <= 57 || 97 <= c <= 102
}

/// The value of a lowercase hexadecimal digit.
pub open spec fn hex_value(c: u8) -> int {
    if c <= 57 {
        c - 48
    } else {
        c - 87
    }
}

/// Two lowercase hexadecimal digits for each byte, the high half first.
pub open spec fn hex_of(bytes: Seq<u8>) -> Seq<u8> {
    Seq::new(
        2 * bytes.len(),
        |i: int|
            if i % 2 == 0 {
                hex_digit(bytes[i / 2] as int / 16)
            } else {
                hex_digit(bytes[i / 2] as int % 16)
            },
    )
}

/// The bytes that a string of hexadecimal digits spells.
pub open spec fn unhex(text: Seq<u8>) -> Seq<u8> {
    Seq::new(
        text.len() / 2,
        |i: int| (16 * hex_value(text[2 * i]) + hex_value(text[2 * i + 1])) as u8,
    )
}

/// Whether `text` is an even number of lowercase hexadecimal digits.
pub open spec fn is_hex(text: Seq<u8>) -> bool {
    &&& text.len() % 2 == 0
    &&& forall|i: int| 0 <= i < text.len() ==> is_hex_digit(#[trigger] text[i])
}

/// Whether `text` is a well-formed identifier: forty lowercase hexadecimal digits.
pub open spec fn is_hex_id(text: Seq<u8>) -> bool {
    text.len() == 40 && is_hex(text)
}

/// Spelling bytes in hexadecimal and reading them back gives the bytes.
pub proof fn lemma_unhex_hex(bytes: Seq<u8>)
    ensures
        is_hex(hex_of(bytes)),
        unhex(hex_of(bytes)) == bytes,
{
    let text = hex_of(bytes);
    assert forall|i: int| 0 <= i < bytes.len() implies unhex(text)[i] == bytes[i] by {
        assert(text[2 * i] == hex_digit(bytes[i] as int / 16));
        assert(text[2 * i + 1] == hex_digit(bytes[i] as int % 16));
    }
    assert(unhex(text) =~= bytes);
}

/// Reading hexadecimal digits and spelling the bytes again gives the digits.
pub proof fn lemma_hex_unhex(text: Seq<u8>)
    requires
        is_hex(text),
    ensures
        hex_of(unhex(text)) == text,
{
    let bytes = unhex(text);
    assert forall|i: int| 0 <= i < text.len() implies hex_of(bytes)[i] == text[i] by {
        let k = i / 2;
        assert(is_hex_digit(text[2 * k]) && is_hex_digit(text[2 * k + 1]));
        assert(bytes[k] == 16 * hex_value(text[2 * k]) + hex_value(text[2 * k + 1]));
    }
    assert(hex_of(bytes) =~= text);
}

/// The SHA-1 digest of `data`: twenty bytes.
pub uninterp spec fn sha1_digest(data: Seq<u8>) -> Seq<u8>;

/// Calls `sha1::Sha1::digest` (the one-shot form of the `Digest` trait) and moves the
/// output into an array. Trusted: the array holds the SHA-1 digest of `data`, which is a
/// function of `data` alone.
#[verifier::external_body]
fn sha1_of(data: &[u8]) -> (digest: [u8; 20])
    ensures
        digest@ == sha1_digest(data@),
{
    Sha1::digest(data).into()
}

/// The same bytes have the same digest.
pub proof fn lemma_digest_deterministic(a: Seq<u8>, b: Seq<u8>)
    requires
        a =~= b,
    ensures
        sha1_digest(a) == sha1_digest(b),
{
}

/// The identifier of an object: the twenty bytes of a SHA-1 digest.
#[derive(Clone, Copy, Debug, PartialEq, Eq, Hash)]
pub struct ObjectId {
    pub bytes: [u8; 20],
}

impl View for ObjectId {
    type V = Seq<u8>;

    open spec fn view(&self) -> Seq<u8> {
        self.bytes@
    }
}

/// The path of the directory that holds every object of the repository at `root`.
pub open spec fn objects_dir_of(root: Seq<u8>) -> Seq<u8> {
    root + seq![47u8, 111, 98, 106, 101, 99, 116, 115]
}

/// The path of the directory that holds the objects whose identifier starts as `id` does.
pub open spec fn fanout_dir_of(root: Seq<u8>, id: Seq<u8>) -> Seq<u8> {
    objects_dir_of(root) + seq![47u8] + hex_of(id).subrange(0, 2)
}

/// The path of the object `id` in the repository at `root`:
/// `<root>/objects/<first two digits>/<other digits>`.
pub open spec fn object_path_of(root: Seq<u8>, id: Seq<u8>) -> Seq<u8> {
    fanout_dir_of(root, id) + seq![47u8] + hex_of(id).subrange(2, 40)
}

/// The lowercase hexadecimal digit for `v`.
fn hex_char(v: u8) -> (c: u8)
    requires
        v < 16,
    ensures
        c == hex_digit(v as int),
{
    if v < 10 {
        48 + v
    } else {
        87 + v
    }
}

/// The value of the hexadecimal digit `c`, if it is one.
fn hex_nibble(c: u8) -> (v: Option<u8>)
    ensures
        match v {
            Some(n) => is_hex_digit(c) && n == hex_value(c),
            None => !is_hex_digit(c),
        },
{
    if 48 <= c && c <= 57 {
        Some(c - 48)
    } else if 97 <= c && c <= 102 {
        Some(c - 87)
    } else {
        None
    }
}

impl ObjectId {
    /// The identifier with the given digest.
    pub fn from_bytes(bytes: [u8; 20]) -> (id: ObjectId)
        ensures
            id@ == bytes@,
    {
        ObjectId { bytes }
    }

    /// The identifier whose digest is the twenty bytes of `src` from `start` on.
    pub fn from_slice(src: &[u8], start: usize) -> (id: ObjectId)
        requires
            start + 20 <= src.len(),
        ensures
            id@ == src@.subrange(start as int, start + 20),
    {
        let mut bytes: [u8; 20] = [0u8; 20];
        let mut i: usize = 0;
        while i < ID_LEN
            invariant
                i <= 20,
                start + 20 <= src.len(),
                forall|k: int| 0 <= k < i ==> #[trigger] bytes@[k] == src@[start + k],
            decreases 20 - i,
        {
            bytes[i] = src[start + i];
            i += 1;
        }
        assert(bytes@ =~= src@.subrange(start as int, start + 20));
        ObjectId { bytes }
    }

    /// Reads an identifier from its hexadecimal form. Anything but forty lowercase
    /// hexadecimal digits is `InvalidId`.
    pub fn from_hex(text: &[u8]) -> (r: Result<ObjectId, StoreError>)
        ensures
            match r {
                Ok(id) => is_hex_id(text@) && id@ == unhex(text@) && hex_of(id@) == text@,
                Err(e) => !is_hex_id(text@) && e == StoreError::InvalidId,
            },
    {
        if text.len() != HEX_LEN {
            return Err(StoreError::InvalidId);
        }
        let mut bytes: [u8; 20] = [0u8; 20];
        let mut i: usize = 0;
        while i < ID_LEN
            invariant
                i <= 20,
                text@.len() == 40,
                forall|j: int| 0 <= j < 2 * i ==> is_hex_digit(#[trigger] text@[j]),
                forall|k: int| 0 <= k < i ==> #[trigger] bytes@[k] == unhex(text@)[k],
            decreases 20 - i,
        {
            let high: u8 = match hex_nibble(text[2 * i]) {
                Some(v) => v,
                None => {
                    return Err(StoreError::InvalidId);
                },
            };
            let low: u8 = match hex_nibble(text[2 * i + 1]) {
                Some(v) => v,
                None => {
                    return Err(StoreError::InvalidId);
                },
            };
            bytes[i] = 16 * high + low;
            i += 1;
        }
        proof {
            assert(bytes@ =~= unhex(text@));
            lemma_hex_unhex(text@);
        }
        Ok(ObjectId { bytes })
    }

    /// The identifier as forty lowercase hexadecimal digits.
    pub fn to_hex(&self) -> (text: Vec<u8>)
        ensures
            text@ == hex_of(self@),
            is_hex_id(text@),
    {
        let mut text: Vec<u8> = Vec::new();
        let mut i: usize = 0;
        while i < ID_LEN
            invariant
                i <= 20,
                text@ == hex_of(self@).take(2 * i),
            decreases 20 - i,
        {
            let b: u8 = self.bytes[i];
            text.push(hex_char(b / 16));
            text.push(hex_char(b % 16));
            assert(text@ =~= hex_of(self@).take(2 * (i + 1)));
            i += 1;
        }
        proof {
            assert(hex_of(self@).take(40) =~= hex_of(self@));
            lemma_unhex_hex(self@);
        }
        text
    }

    /// The first two hexadecimal digits: the name of the directory that holds the object.
    pub fn prefix(&self) -> (text: Vec<u8>)
        ensures
            text@ == hex_of(self@).subrange(0, 2),
    {
        let b: u8 = self.bytes[0];
        let text: Vec<u8> = vec![hex_char(b / 16), hex_char(b % 16)];
        assert(text@ =~= hex_of(self@).subrange(0, 2));
        text
    }

    /// The other thirty-eight hexadecimal digits: the name of the object's file.
    pub fn rest(&self) -> (text: Vec<u8>)
        ensures
            text@ == hex_of(self@).subrange(2, 40),
    {
        let mut text: Vec<u8> = Vec::new();
        let mut i: usize = 1;
        while i < ID_LEN
            invariant
                1 <= i <= 20,
                text@ == hex_of(self@).subrange(2, 2 * i),
            decreases 20 - i,
        {
            let b: u8 = self.bytes[i];
            text.push(hex_char(b / 16));
            text.push(hex_char(b % 16));
            assert(text@ =~= hex_of(self@).subrange(2, 2 * (i + 1)));
            i += 1;
        }
        text
    }

    /// Whether the two identifiers are the same.
    pub fn same_as(&self, other: &ObjectId) -> (r: bool)
        ensures
            r == (self@ == other@),
    {
        let mut i: usize = 0;
        while i < ID_LEN
            invariant
                i <= 20,
                forall|j: int| 0 <= j < i ==> self@[j] == other@[j],
            decreases 20 - i,
        {
            if self.bytes[i] != other.bytes[i] {
                return false;
            }
            i += 1;
        }
        assert(self@ =~= other@);
        true
    }

    /// The path of the directory that holds this object in the repository at `root`.
    pub fn dir_under(&self, root: &[u8]) -> (path: Vec<u8>)
        ensures
            path@ == fanout_dir_of(root@, self@),
    {
        let mut path: Vec<u8> = objects_dir(root);
        path.push(47);
        let prefix: Vec<u8> = self.prefix();
        append(&mut path, prefix.as_slice());
        path
    }

    /// The path of this object's file in the repository at `root`.
    pub fn path_under(&self, root: &[u8]) -> (path: Vec<u8>)
        ensures
            path@ == object_path_of(root@, self@),
    {
        let mut path: Vec<u8> = self.dir_under(root);
        path.push(47);
        let rest: Vec<u8> = self.rest();
        append(&mut path, rest.as_slice());
        path
    }
}

/// The path of the directory that holds every object of the repository at `root`.
pub fn objects_dir(root: &[u8]) -> (path: Vec<u8>)
    ensures
        path@ == objects_dir_of(root@),
{
    let mut path: Vec<u8> = Vec::new();
    append(&mut path, root);
    let tail: Vec<u8> = vec![47u8, 111, 98, 106, 101, 99, 116, 115];
    append(&mut path, tail.as_slice());
    path
}

/// The identifier of the object with the given envelope: the SHA-1 digest of all of it,
/// header and body.
pub fn compute_id(envelope: &[u8]) -> (id: ObjectId)
    ensures
        id@ == sha1_digest(envelope@),
{
    ObjectId::from_bytes(sha1_of(envelope))
}

/// The path of the object that `id` names in the repository at `root`. An `id` that is
/// not forty lowercase hexadecimal digits is `InvalidId`.
pub fn locate(id: &[u8], root: &[u8]) -> (r: Result<Vec<u8>, StoreError>)
    ensures
        match r {
            Ok(path) => is_hex_id(id@) && path@ == object_path_of(root@, unhex(id@)) && path@
                == objects_dir_of(root@) + seq![47u8] + id@.subrange(0, 2) + seq![47u8]
                + id@.subrange(2, 40),
            Err(e) => !is_hex_id(id@) && e == StoreError::InvalidId,
        },
{
    match ObjectId::from_hex(id) {
        Ok(parsed) => Ok(parsed.path_under(root)),
        Err(e) => Err(e),
    }
}

} // verus!
