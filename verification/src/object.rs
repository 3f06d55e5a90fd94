//! Objects: what they say, the bodies that say it, and reading them back from an envelope.

use crate::bytes::{append, copy_range};
use crate::decimal::decimal_value;
use crate::envelope::{
    envelope, envelope_of, has_canonical_length, header_of, length_digits,
    lemma_envelope_of_parse, lemma_parse_envelope_of, lemma_parse_framed, parse_envelope,
    read_header,
};
use crate::error::{BodyFault, DecodeError};
use crate::kind::ObjectKind;
use crate::oid::hex_of;
use crate::text::{TextBody, TextView};
use crate::tree::{
    entries_bytes, lemma_entries_bytes_parse, lemma_parse_entries_bytes, lemma_sort_by_name,
    lemma_sort_of_sorted, parse_entries, parse_tree, read_tree, sort_by_name, sorted_by_name,
    views, write_entries, EntryView, TreeEntry,
};
use vstd::prelude::*;
use vstd::slice::slice_subrange;

verus! {

/// What an object says.
pub ghost enum ObjectView {
    Blob { contents: Seq<u8> },
    Tree { entries: Seq<EntryView> },
    Commit { text: TextView },
    Tag { text: TextView },
}

/// One line of a tree's listing: mode, a space, the identifier in hexadecimal, a tab, the
/// name, and a line feed.
pub open spec fn entry_line(e: EntryView) -> Seq<u8> {
    e.mode + seq![32u8] + hex_of(e.id) + seq![9u8] + e.name + seq![10u8]
}

/// The listing of a tree: one line for each entry, in the order in which they stand.
pub open spec fn listing(es: Seq<EntryView>) -> Seq<u8>
    decreases es.len(),
{
    if es.len() == 0 {
        Seq::empty()
    } else {
        listing(es.drop_last()) + entry_line(es.last())
    }
}

impl ObjectView {
    /// The object's kind.
    pub open spec fn kind(self) -> ObjectKind {
        match self {
            ObjectView::Blob { .. } => ObjectKind::Blob,
            ObjectView::Tree { .. } => ObjectKind::Tree,
            ObjectView::Commit { .. } => ObjectKind::Commit,
            ObjectView::Tag { .. } => ObjectKind::Tag,
        }
    }

    /// Whether the object's fields can be told apart in its body: every entry of a tree,
    /// and the text of a commit or a tag, is well-formed. Any blob is.
    pub open spec fn wf(self) -> bool {
        match self {
            ObjectView::Blob { .. } => true,
            ObjectView::Tree { entries } => forall|i: int|
                0 <= i < entries.len() ==> (#[trigger] entries[i]).wf(),
            ObjectView::Commit { text } => text.wf(),
            ObjectView::Tag { text } => text.wf(),
        }
    }

    /// Whether the object is written as it is: the entries of a tree stand in the order
    /// of their names.
    pub open spec fn is_canonical(self) -> bool {
        match self {
            ObjectView::Tree { entries } => sorted_by_name(entries),
            _ => true,
        }
    }

    /// The object as it is written: a tree with its entries in the order of their names.
    pub open spec fn canonical(self) -> ObjectView {
        match self {
            ObjectView::Tree { entries } => ObjectView::Tree { entries: sort_by_name(entries) },
            _ => self,
        }
    }

    /// The object's body: a blob's contents as they are, a tree's entries in the order of
    /// their names, the text of a commit or a tag.
    pub open spec fn body(self) -> Seq<u8> {
        match self {
            ObjectView::Blob { contents } => contents,
            ObjectView::Tree { entries } => entries_bytes(sort_by_name(entries)),
            ObjectView::Commit { text } => text.bytes(),
            ObjectView::Tag { text } => text.bytes(),
        }
    }

    /// The object's envelope.
    pub open spec fn envelope(self) -> Seq<u8> {
        envelope_of(self.kind(), self.body())
    }

    /// The object as text for a reader: a blob's contents and the text of a commit or a
    /// tag as they are, and a tree's listing.
    pub open spec fn pretty(self) -> Seq<u8> {
        match self {
            ObjectView::Blob { contents } => contents,
            ObjectView::Tree { entries } => listing(entries),
            ObjectView::Commit { text } => text.bytes(),
            ObjectView::Tag { text } => text.bytes(),
        }
    }

    /// A canonical object is written as it is.
    pub proof fn lemma_canonical(self)
        requires
            self.is_canonical(),
        ensures
            self.canonical() == self,
    {
        if let ObjectView::Tree { entries } = self {
            lemma_sort_of_sorted(entries);
        }
    }

    /// Writing an object changes neither its kind nor its body nor its envelope, and what
    /// is written is canonical.
    pub proof fn lemma_canonical_same(self)
        ensures
            self.canonical().is_canonical(),
            self.canonical().kind() == self.kind(),
            self.canonical().body() == self.body(),
            self.canonical().envelope() == self.envelope(),
            self.wf() ==> self.canonical().wf(),
    {
        if let ObjectView::Tree { entries } = self {
            let sorted = sort_by_name(entries);
            lemma_sort_by_name(entries);
            lemma_sort_of_sorted(sorted);
            if self.wf() {
                assert forall|i: int| 0 <= i < sorted.len() implies (#[trigger] sorted[i]).wf() by {
                    lemma_member(entries, sorted, i);
                }
            }
        }
    }
}

/// An element of a sequence is an element of every sequence with the same members.
proof fn lemma_member(es: Seq<EntryView>, sorted: Seq<EntryView>, i: int)
    requires
        sorted.to_multiset() == es.to_multiset(),
        0 <= i < sorted.len(),
    ensures
        exists|j: int| 0 <= j < es.len() && es[j] == sorted[i],
{
    broadcast use vstd::seq_lib::group_to_multiset_ensures;

    assert(sorted.contains(sorted[i]));
    assert(sorted.to_multiset().count(sorted[i]) > 0);
    assert(es.contains(sorted[i]));
}

/// The object of the given kind that `body` says, or why it says none.
pub open spec fn parse_body(kind: ObjectKind, body: Seq<u8>) -> Result<ObjectView, BodyFault> {
    match kind {
        ObjectKind::Blob => Ok(ObjectView::Blob { contents: body }),
        ObjectKind::Tree => match parse_tree(body) {
            Ok(entries) => Ok(ObjectView::Tree { entries }),
            Err(fault) => Err(fault),
        },
        ObjectKind::Commit => Ok(ObjectView::Commit { text: TextView::split(body) }),
        ObjectKind::Tag => Ok(ObjectView::Tag { text: TextView::split(body) }),
    }
}

/// The object that an envelope holds, or why it holds none.
pub open spec fn parse_object(e: Seq<u8>) -> Result<ObjectView, DecodeError> {
    match parse_envelope(e) {
        Ok((kind, body)) => match parse_body(kind, body) {
            Ok(object) => Ok(object),
            Err(fault) => Err(DecodeError::BodyParseError { kind, detail: fault }),
        },
        Err(error) => Err(error),
    }
}

/// The body of a well-formed object says the object as it is written.
pub proof fn lemma_parse_body_of(x: ObjectView)
    requires
        x.wf(),
    ensures
        parse_body(x.kind(), x.body()) == Ok::<ObjectView, BodyFault>(x.canonical()),
{
    match x {
        ObjectView::Blob { .. } => {},
        ObjectView::Tree { entries } => {
            let sorted = sort_by_name(entries);
            let body = x.body();
            x.lemma_canonical_same();
            assert(body.subrange(0, body.len() as int) =~= body);
            lemma_parse_entries_bytes(body, 0, sorted);
        },
        ObjectView::Commit { text } => {
            text.lemma_split_bytes();
        },
        ObjectView::Tag { text } => {
            text.lemma_split_bytes();
        },
    }
}

/// What a body says is well-formed and canonical, of the kind asked for, and has that
/// body.
pub proof fn lemma_body_of_parse(kind: ObjectKind, body: Seq<u8>, x: ObjectView)
    requires
        parse_body(kind, body) == Ok::<ObjectView, BodyFault>(x),
    ensures
        x.kind() == kind,
        x.body() == body,
        x.wf(),
        x.is_canonical(),
{
    match kind {
        ObjectKind::Blob => {},
        ObjectKind::Tree => {
            let entries = parse_entries(body, 0)->Ok_0;
            lemma_entries_bytes_parse(body, 0, entries);
            lemma_sort_of_sorted(entries);
            assert(body.subrange(0, body.len() as int) =~= body);
        },
        ObjectKind::Commit => {
            TextView::lemma_bytes_split(body);
        },
        ObjectKind::Tag => {
            TextView::lemma_bytes_split(body);
        },
    }
}

/// The envelope of a well-formed object holds the object as it is written.
pub proof fn lemma_parse_object_envelope(x: ObjectView)
    requires
        x.wf(),
        x.body().len() <= u64::MAX,
    ensures
        parse_object(x.envelope()) == Ok::<ObjectView, DecodeError>(x.canonical()),
{
    lemma_parse_envelope_of(x.kind(), x.body());
    lemma_parse_body_of(x);
}

/// What is read from a header of `kind` and `len` with `rest` behind it. Any other number
/// of bytes than `len` is a size mismatch, whatever the bytes are. Just `len` bytes are the
/// body: of a blob they are its contents, and of a commit or a tag they are split at the
/// first empty line, so that any bytes at all make such an object.
pub proof fn lemma_parse_object_framed(kind: ObjectKind, len: nat, rest: Seq<u8>)
    requires
        len <= u64::MAX,
    ensures
        rest.len() != len ==> parse_object(header_of(kind, len) + rest) == Err::<
            ObjectView,
            DecodeError,
        >(DecodeError::SizeMismatch),
        rest.len() == len ==> parse_object(header_of(kind, len) + rest) == match parse_body(
            kind,
            rest,
        ) {
            Ok(object) => Ok::<ObjectView, DecodeError>(object),
            Err(fault) => Err(DecodeError::BodyParseError { kind, detail: fault }),
        },
        kind == ObjectKind::Blob ==> parse_body(kind, rest) == Ok::<ObjectView, BodyFault>(
            ObjectView::Blob { contents: rest },
        ),
        kind == ObjectKind::Commit ==> parse_body(kind, rest) == Ok::<ObjectView, BodyFault>(
            ObjectView::Commit { text: TextView::split(rest) },
        ),
        kind == ObjectKind::Tag ==> parse_body(kind, rest) == Ok::<ObjectView, BodyFault>(
            ObjectView::Tag { text: TextView::split(rest) },
        ),
{
    lemma_parse_framed(kind, len, rest);
}

/// An envelope that holds an object holds that object's body behind its header, and the
/// object is well-formed and canonical. Where the header states the length without a
/// leading zero, the envelope is the object's envelope, byte for byte: reading changes
/// nothing that writing would not give back.
pub proof fn lemma_envelope_parse_object(e: Seq<u8>, x: ObjectView)
    requires
        parse_object(e) == Ok::<ObjectView, DecodeError>(x),
    ensures
        e == x.kind().name_spec() + seq![32u8] + length_digits(e) + seq![0u8] + x.body(),
        decimal_value(length_digits(e)) == x.body().len(),
        has_canonical_length(e) <==> x.envelope() == e,
        x.wf(),
        x.is_canonical(),
{
    let (kind, body) = parse_envelope(e)->Ok_0;
    lemma_body_of_parse(kind, body, x);
    lemma_envelope_of_parse(e, kind, body);
}

/// An object of the store.
#[derive(Clone, Debug, PartialEq, Eq)]
pub enum GitObject {
    /// Bytes, of which nothing is asked.
    Blob { contents: Vec<u8> },
    /// Names for other objects.
    Tree { entries: Vec<TreeEntry> },
    /// A commit: header lines and a message.
    Commit { text: TextBody },
    /// A tag: header lines and a message.
    Tag { text: TextBody },
}

impl View for GitObject {
    type V = ObjectView;

    open spec fn view(&self) -> ObjectView {
        match self {
            GitObject::Blob { contents } => ObjectView::Blob { contents: contents@ },
            GitObject::Tree { entries } => ObjectView::Tree { entries: views(entries@) },
            GitObject::Commit { text } => ObjectView::Commit { text: text@ },
            GitObject::Tag { text } => ObjectView::Tag { text: text@ },
        }
    }
}

/// Appends one line of a tree's listing to `out`.
fn write_entry_line(entry: &TreeEntry, out: &mut Vec<u8>)
    ensures
        final(out)@ == old(out)@ + entry_line(entry@),
{
    append(out, entry.mode.as_slice());
    out.push(32);
    let hex: Vec<u8> = entry.id.to_hex();
    append(out, hex.as_slice());
    out.push(9);
    append(out, entry.name.as_slice());
    out.push(10);
    assert(out@ =~= old(out)@ + entry_line(entry@));
}

impl GitObject {
    /// The object's kind.
    pub fn kind(&self) -> (kind: ObjectKind)
        ensures
            kind == self@.kind(),
    {
        match self {
            GitObject::Blob { .. } => ObjectKind::Blob,
            GitObject::Tree { .. } => ObjectKind::Tree,
            GitObject::Commit { .. } => ObjectKind::Commit,
            GitObject::Tag { .. } => ObjectKind::Tag,
        }
    }

    /// Whether the object's fields can be told apart in its body.
    pub fn is_valid(&self) -> (ok: bool)
        ensures
            ok == self@.wf(),
    {
        match self {
            GitObject::Blob { .. } => true,
            GitObject::Tree { entries } => {
                let mut i: usize = 0;
                while i < entries.len()
                    invariant
                        i <= entries.len(),
                        self@ == (ObjectView::Tree { entries: views(entries@) }),
                        forall|k: int| 0 <= k < i ==> (#[trigger] views(entries@)[k]).wf(),
                    decreases entries.len() - i,
                {
                    if !entries[i].is_valid() {
                        proof {
                            let es = views(entries@);
                            assert(!es[i as int].wf());
                            assert(self@->Tree_entries == es);
                        }
                        return false;
                    }
                    i += 1;
                }
                true
            },
            GitObject::Commit { text } => text.is_valid(),
            GitObject::Tag { text } => text.is_valid(),
        }
    }

    /// The object's body.
    pub fn body(&self) -> (out: Vec<u8>)
        ensures
            out@ == self@.body(),
    {
        let mut out: Vec<u8> = Vec::new();
        match self {
            GitObject::Blob { contents } => {
                append(&mut out, contents.as_slice());
            },
            GitObject::Tree { entries } => {
                write_entries(entries.as_slice(), &mut out);
            },
            GitObject::Commit { text } => {
                text.write(&mut out);
            },
            GitObject::Tag { text } => {
                text.write(&mut out);
            },
        }
        assert(out@ =~= self@.body());
        out
    }

    /// The number of bytes in the object's body: the length that its header states.
    pub fn byte_size(&self) -> (size: usize)
        ensures
            size == self@.body().len(),
    {
        match self {
            GitObject::Blob { contents } => contents.len(),
            _ => self.body().len(),
        }
    }

    /// The object's envelope: header, NUL and body.
    pub fn envelope(&self) -> (out: Vec<u8>)
        ensures
            out@ == self@.envelope(),
    {
        let body: Vec<u8> = self.body();
        envelope(self.kind(), body.as_slice())
    }

    /// Reads the object that an envelope holds.
    ///
    /// The header is checked first, then the length that it states, then the body. An
    /// object that was read is well-formed and canonical, and `input` is its kind's name,
    /// a space, the length as `input` states it, a NUL and its body. Where `input` states
    /// the length without a leading zero, it is the object's envelope, byte for byte.
    pub fn parse(input: &[u8]) -> (r: Result<GitObject, DecodeError>)
        ensures
            match r {
                Ok(object) => parse_object(input@) == Ok::<ObjectView, DecodeError>(object@),
                Err(error) => parse_object(input@) == Err::<ObjectView, DecodeError>(error),
            },
            r matches Ok(object) ==> {
                &&& object@.wf()
                &&& object@.is_canonical()
                &&& input@ == object@.kind().name_spec() + seq![32u8] + length_digits(input@)
                    + seq![0u8] + object@.body()
                &&& decimal_value(length_digits(input@)) == object@.body().len()
                &&& has_canonical_length(input@) <==> object@.envelope() == input@
            },
    {
        let (kind, start) = match read_header(input) {
            Ok(found) => found,
            Err(error) => {
                return Err(error);
            },
        };
        let body: &[u8] = slice_subrange(input, start, input.len());
        proof {
            if let Ok(x) = parse_object(input@) {
                lemma_envelope_parse_object(input@, x);
            }
        }
        match kind {
            ObjectKind::Blob => Ok(
                GitObject::Blob { contents: copy_range(input, start, input.len()) },
            ),
            ObjectKind::Tree => match read_tree(body) {
                Ok(entries) => Ok(GitObject::Tree { entries }),
                Err(fault) => Err(DecodeError::BodyParseError { kind, detail: fault }),
            },
            ObjectKind::Commit => Ok(GitObject::Commit { text: TextBody::split(body) }),
            ObjectKind::Tag => Ok(GitObject::Tag { text: TextBody::split(body) }),
        }
    }

    /// The object as text for a reader.
    pub fn pretty(&self) -> (out: Vec<u8>)
        ensures
            out@ == self@.pretty(),
    {
        let mut out: Vec<u8> = Vec::new();
        match self {
            GitObject::Blob { contents } => {
                append(&mut out, contents.as_slice());
            },
            GitObject::Tree { entries } => {
                let ghost es = views(entries@);
                let mut i: usize = 0;
                while i < entries.len()
                    invariant
                        i <= entries.len(),
                        es == views(entries@),
                        out@ == listing(es.take(i as int)),
                    decreases entries.len() - i,
                {
                    write_entry_line(&entries[i], &mut out);
                    proof {
                        assert(es.take(i + 1).drop_last() =~= es.take(i as int));
                        assert(es.take(i + 1).last() == entries@[i as int]@);
                    }
                    i += 1;
                }
                assert(es.take(entries@.len() as int) =~= es);
            },
            GitObject::Commit { text } => {
                text.write(&mut out);
            },
            GitObject::Tag { text } => {
                text.write(&mut out);
            },
        }
        assert(out@ =~= self@.pretty());
        out
    }
}

} // verus!
