//! Encoding an object for the store, and decoding what the store holds.

use crate::envelope::{has_canonical_length, lemma_truncated_envelope};
use crate::error::{DecodeError, StoreError};
use crate::object::{
    lemma_envelope_parse_object, lemma_parse_object_envelope, parse_object, GitObject, ObjectView,
};
use crate::oid::{compute_id, sha1_digest, ObjectId};
use flate2::read::ZlibDecoder;
use flate2::write::ZlibEncoder;
use flate2::Compression;
use std::io::{Read, Write};
use vstd::prelude::*;

verus! {

/// What a zlib stream inflates to; `None` for bytes that are no complete zlib stream.
pub uninterp spec fn zlib_inflated(data: Seq<u8>) -> Option<Seq<u8>>;

/// The zlib stream that the compressor makes of `data` at its default level; `None` where
/// it reports an error.
pub uninterp spec fn zlib_deflated(data: Seq<u8>) -> Option<Seq<u8>>;

/// Reads `data` to the end through `flate2::read::ZlibDecoder`. Trusted: the bytes that
/// come out, or the fact that the decoder reported an error, depend on `data` alone.
#[verifier::external_body]
fn inflate(data: &[u8]) -> (r: Option<Vec<u8>>)
    ensures
        match r {
            Some(out) => zlib_inflated(data@) == Some(out@),
            None => zlib_inflated(data@) is None,
        },
{
    let mut out: Vec<u8> = Vec::new();
    match ZlibDecoder::new(data).read_to_end(&mut out) {
        Ok(_) => Some(out),
        Err(_) => None,
    }
}

/// Writes `data` through `flate2::write::ZlibEncoder` at the default level into a vector
/// and finishes the stream. Trusted: the stream, or the fact that the encoder reported an
/// error, depends on `data` alone, and a stream that the encoder finished inflates to
/// `data`. Nothing is claimed of which bytes the stream holds, nor that the encoder
/// reports no error.
#[verifier::external_body]
fn deflate(data: &[u8]) -> (r: Option<Vec<u8>>)
    ensures
        match r {
            Some(out) => zlib_deflated(data@) == Some(out@) && zlib_inflated(out@) == Some(data@),
            None => zlib_deflated(data@) is None,
        },
{
    let mut encoder = ZlibEncoder::new(Vec::new(), Compression::default());
    match encoder.write_all(data) {
        Ok(_) => encoder.finish().ok(),
        Err(_) => None,
    }
}

/// The identifier of an object: the SHA-1 digest of its envelope.
pub open spec fn id_of(x: ObjectView) -> Seq<u8> {
    sha1_digest(x.envelope())
}

/// The object in an inflated envelope. Bytes that did not inflate are an I/O error; an
/// envelope that holds no object is corrupt.
pub open spec fn opened(inflated: Option<Seq<u8>>) -> Result<ObjectView, StoreError> {
    match inflated {
        Some(e) => match parse_object(e) {
            Ok(object) => Ok(object),
            Err(error) => Err(StoreError::Corrupt(error)),
        },
        None => Err(StoreError::Io),
    }
}

/// The object that compressed bytes hold.
pub open spec fn decode_spec(compressed: Seq<u8>) -> Result<ObjectView, StoreError> {
    opened(zlib_inflated(compressed))
}

/// The identifier of the envelope that compressed bytes hold: the digest of what they
/// inflate to. Bytes that do not inflate are an I/O error.
pub open spec fn stored_id_spec(compressed: Seq<u8>) -> Result<Seq<u8>, StoreError> {
    match zlib_inflated(compressed) {
        Some(e) => Ok(sha1_digest(e)),
        None => Err(StoreError::Io),
    }
}

/// What encoding an object gives: its identifier and the stream that the compressor makes
/// of its envelope, or an I/O error where the compressor reports one.
pub open spec fn encode_spec(x: ObjectView) -> Result<(Seq<u8>, Seq<u8>), StoreError> {
    match zlib_deflated(x.envelope()) {
        Some(bytes) => Ok((id_of(x), bytes)),
        None => Err(StoreError::Io),
    }
}

/// Whether what the compressor makes of `data`, if it makes anything, inflates to `data`.
/// `encode` states this of every envelope that it compressed.
pub open spec fn reads_back(data: Seq<u8>) -> bool {
    zlib_deflated(data) matches Some(bytes) ==> zlib_inflated(bytes) == Some(data)
}

/// Decoding what a well-formed object was encoded to gives the object as it is written;
/// for a canonical object, the object itself.
pub proof fn lemma_decode_encoded(x: ObjectView, compressed: Seq<u8>)
    requires
        x.wf(),
        x.body().len() <= u64::MAX,
        zlib_inflated(compressed) == Some(x.envelope()),
    ensures
        decode_spec(compressed) == Ok::<ObjectView, StoreError>(x.canonical()),
        x.is_canonical() ==> decode_spec(compressed) == Ok::<ObjectView, StoreError>(x),
{
    lemma_parse_object_envelope(x);
    if x.is_canonical() {
        x.lemma_canonical();
    }
}

/// What was decoded is well-formed and canonical. Where the stored envelope states the
/// length without a leading zero, it is the envelope of what was decoded, which then has
/// the identifier of what was stored.
pub proof fn lemma_decoded_envelope(compressed: Seq<u8>, x: ObjectView)
    requires
        decode_spec(compressed) == Ok::<ObjectView, StoreError>(x),
    ensures
        x.wf(),
        x.is_canonical(),
        zlib_inflated(compressed) matches Some(e) && (has_canonical_length(e) <==> x.envelope()
            == e),
        has_canonical_length(zlib_inflated(compressed)->Some_0) ==> stored_id_spec(compressed)
            == Ok::<Seq<u8>, StoreError>(id_of(x)),
{
    lemma_envelope_parse_object(zlib_inflated(compressed)->Some_0, x);
}

/// An envelope that lost the last byte of its body decodes to a size mismatch, never to
/// an object.
pub proof fn lemma_decode_truncated(x: ObjectView, compressed: Seq<u8>)
    requires
        0 < x.body().len() <= u64::MAX,
        zlib_inflated(compressed) == Some(x.envelope().drop_last()),
    ensures
        decode_spec(compressed) == Err::<ObjectView, StoreError>(
            StoreError::Corrupt(DecodeError::SizeMismatch),
        ),
{
    lemma_truncated_envelope(x.kind(), x.body());
}

/// Equal envelopes have equal identifiers, and so have objects that are written alike.
pub proof fn lemma_id_deterministic(x: ObjectView, y: ObjectView)
    requires
        x.canonical() == y.canonical(),
    ensures
        id_of(x) == id_of(y),
{
    x.lemma_canonical_same();
    y.lemma_canonical_same();
}

/// Reads the object in an inflated envelope; `None` stands for bytes that did not
/// inflate.
pub fn open(inflated: Option<Vec<u8>>) -> (r: Result<GitObject, StoreError>)
    ensures
        match r {
            Ok(object) => opened(
                match inflated {
                    Some(e) => Some(e@),
                    None => None,
                },
            ) == Ok::<ObjectView, StoreError>(object@),
            Err(error) => opened(
                match inflated {
                    Some(e) => Some(e@),
                    None => None,
                },
            ) == Err::<ObjectView, StoreError>(error),
        },
{
    match inflated {
        Some(e) => match GitObject::parse(e.as_slice()) {
            Ok(object) => Ok(object),
            Err(error) => Err(StoreError::Corrupt(error)),
        },
        None => Err(StoreError::Io),
    }
}

/// Decodes compressed bytes: inflates them and reads the object in the envelope.
pub fn decode(compressed: &[u8]) -> (r: Result<GitObject, StoreError>)
    ensures
        match r {
            Ok(object) => decode_spec(compressed@) == Ok::<ObjectView, StoreError>(object@),
            Err(error) => decode_spec(compressed@) == Err::<ObjectView, StoreError>(error),
        },
{
    open(inflate(compressed))
}

/// The identifier of an inflated envelope; `None` stands for bytes that did not inflate.
pub fn envelope_id(inflated: Option<Vec<u8>>) -> (r: Result<ObjectId, StoreError>)
    ensures
        match inflated {
            Some(e) => r matches Ok(id) && id@ == sha1_digest(e@),
            None => r == Err::<ObjectId, StoreError>(StoreError::Io),
        },
{
    match inflated {
        Some(e) => Ok(compute_id(e.as_slice())),
        None => Err(StoreError::Io),
    }
}

/// The identifier of the envelope that compressed bytes hold, whatever the envelope says.
pub fn stored_id(compressed: &[u8]) -> (r: Result<ObjectId, StoreError>)
    ensures
        match r {
            Ok(id) => stored_id_spec(compressed@) == Ok::<Seq<u8>, StoreError>(id@),
            Err(error) => stored_id_spec(compressed@) == Err::<Seq<u8>, StoreError>(error),
        },
{
    envelope_id(inflate(compressed))
}

/// Decodes compressed bytes, and returns with the object the identifier of the envelope
/// that it was read from.
pub fn decode_identified(compressed: &[u8]) -> (r: Result<(ObjectId, GitObject), StoreError>)
    ensures
        match r {
            Ok((id, object)) => decode_spec(compressed@) == Ok::<ObjectView, StoreError>(object@)
                && stored_id_spec(compressed@) == Ok::<Seq<u8>, StoreError>(id@),
            Err(error) => decode_spec(compressed@) == Err::<ObjectView, StoreError>(error),
        },
{
    match inflate(compressed) {
        Some(e) => {
            let id: ObjectId = compute_id(e.as_slice());
            match open(Some(e)) {
                Ok(object) => Ok((id, object)),
                Err(error) => Err(error),
            }
        },
        None => Err(StoreError::Io),
    }
}

/// An identifier with the compressed bytes that go under it; `None` stands for an
/// envelope that the compressor gave up on, which is an I/O error.
pub fn sealed(id: ObjectId, deflated: Option<Vec<u8>>) -> (r: Result<
    (ObjectId, Vec<u8>),
    StoreError,
>)
    ensures
        match deflated {
            Some(bytes) => r == Ok::<(ObjectId, Vec<u8>), StoreError>((id, bytes)),
            None => r == Err::<(ObjectId, Vec<u8>), StoreError>(StoreError::Io),
        },
{
    match deflated {
        Some(bytes) => Ok((id, bytes)),
        None => Err(StoreError::Io),
    }
}

/// Encodes an object: its identifier, and its envelope compressed.
///
/// The identifier is the digest of the envelope. The bytes are what the compressor makes
/// of the envelope, and inflate to it; the bytes of a well-formed object decode to the
/// object as it is written. Encoding fails, with `Io`, just where the compressor reports
/// an error on the envelope.
pub fn encode(object: &GitObject) -> (r: Result<(ObjectId, Vec<u8>), StoreError>)
    ensures
        match r {
            Ok((id, bytes)) => {
                &&& id@ == id_of(object@)
                &&& zlib_deflated(object@.envelope()) == Some(bytes@)
                &&& zlib_inflated(bytes@) == Some(object@.envelope())
                &&& object@.wf() ==> decode_spec(bytes@) == Ok::<ObjectView, StoreError>(
                    object@.canonical(),
                )
            },
            Err(error) => error == StoreError::Io && zlib_deflated(object@.envelope()) is None,
        },
        reads_back(object@.envelope()),
{
    let envelope: Vec<u8> = object.envelope();
    let id: ObjectId = compute_id(envelope.as_slice());
    let r = sealed(id, deflate(envelope.as_slice()));
    proof {
        if r is Ok && object@.wf() {
            assert(object@.body().len() <= envelope@.len() == envelope.len() <= usize::MAX);
            lemma_decode_encoded(object@, r->Ok_0.1@);
        }
    }
    r
}

} // verus!
