//! The closed set of object kinds and their names in a header.

use crate::bytes::same_bytes;
use vstd::prelude::*;

verus! {

/// What an object is, which decides how its body is read.
#[derive(Clone, Copy, Debug, PartialEq, Eq, Hash)]
pub enum ObjectKind {
    Blob,
    Tree,
    Commit,
    Tag,
}

impl ObjectKind {
    /// The ASCII name that stands for the kind in a header: `blob`, `tree`, `commit` or `tag`.
    pub open spec fn name_spec(self) -> Seq<u8> {
        match self {
            ObjectKind::Blob => seq![98u8, 108, 111, 98],
            ObjectKind::Tree => seq![116u8, 114, 101, 101],
            ObjectKind::Commit => seq![99u8, 111, 109, 109, 105, 116],
            ObjectKind::Tag => seq![116u8, 97, 103],
        }
    }

    /// The kind that `name` stands for, if it is one of the four names.
    pub open spec fn named(name: Seq<u8>) -> Option<ObjectKind> {
        if name == ObjectKind::Blob.name_spec() {
            Some(ObjectKind::Blob)
        } else if name == ObjectKind::Tree.name_spec() {
            Some(ObjectKind::Tree)
        } else if name == ObjectKind::Commit.name_spec() {
            Some(ObjectKind::Commit)
        } else if name == ObjectKind::Tag.name_spec() {
            Some(ObjectKind::Tag)
        } else {
            None
        }
    }

    /// A kind's name stands for that kind, is not empty, and holds neither a space nor a NUL.
    pub proof fn lemma_name(self)
        ensures
            ObjectKind::named(self.name_spec()) == Some(self),
            0 < self.name_spec().len() <= 6,
            forall|i: int|
                0 <= i < self.name_spec().len() ==> #[trigger] self.name_spec()[i] != 32
                    && self.name_spec()[i] != 0,
    {
        assert(ObjectKind::Blob.name_spec()[0] == 98);
        assert(ObjectKind::Tree.name_spec()[1] == 114);
        assert(ObjectKind::Commit.name_spec().len() == 6);
        assert(ObjectKind::Tag.name_spec().len() == 3);
    }

    /// The kind's name in a header.
    pub fn name(&self) -> (out: Vec<u8>)
        ensures
            out@ == self.name_spec(),
    {
        match self {
            ObjectKind::Blob => vec![98u8, 108, 111, 98],
            ObjectKind::Tree => vec![116u8, 114, 101, 101],
            ObjectKind::Commit => vec![99u8, 111, 109, 109, 105, 116],
            ObjectKind::Tag => vec![116u8, 97, 103],
        }
    }

    /// Reads a kind's name.
    pub fn from_name(name: &[u8]) -> (kind: Option<ObjectKind>)
        ensures
            kind == ObjectKind::named(name@),
    {
        if same_bytes(name, ObjectKind::Blob.name().as_slice()) {
            Some(ObjectKind::Blob)
        } else if same_bytes(name, ObjectKind::Tree.name().as_slice()) {
            Some(ObjectKind::Tree)
        } else if same_bytes(name, ObjectKind::Commit.name().as_slice()) {
            Some(ObjectKind::Commit)
        } else if same_bytes(name, ObjectKind::Tag.name().as_slice()) {
            Some(ObjectKind::Tag)
        } else {
            None
        }
    }
}

} // verus!
