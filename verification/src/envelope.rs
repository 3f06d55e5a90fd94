//! The envelope: `<kind> <length>`, a NUL, then the body. It is what is hashed and what is
//! compressed.

use crate::bytes::{append, find, find_byte, lemma_find_byte, lemma_find_byte_is, NUL, SP};
use crate::decimal::{
    decimal_digits, decimal_value, is_decimal, is_digits, lemma_decimal_digits_value,
    lemma_decimal_unique, push_decimal, read_numeral, Numeral,
};
use crate::error::DecodeError;
use crate::kind::ObjectKind;
use vstd::prelude::*;
use vstd::slice::slice_subrange;

verus! {

/// How many bytes from the start of an envelope are searched for the NUL that ends the
/// header.
pub const SCAN_WINDOW: usize = 64;

/// The header of an object of the given kind whose body has `len` bytes.
pub open spec fn header_of(kind: ObjectKind, len: nat) -> Seq<u8> {
    kind.name_spec() + seq![32u8] + decimal_digits(len) + seq![0u8]
}

/// The envelope of an object of the given kind and body.
pub open spec fn envelope_of(kind: ObjectKind, body: Seq<u8>) -> Seq<u8> {
    header_of(kind, body.len()) + body
}

/// Where the header of `e` ends: the index of the first NUL among the first 64 bytes, or
/// the number of bytes that were searched if there is none.
pub open spec fn header_end(e: Seq<u8>) -> int {
    find_byte(
        e,
        0,
        0,
        if e.len() < 64 {
            e.len() as int
        } else {
            64
        },
    )
}

/// Where the header of `e` is split: the index of its first space, or `header_end(e)` if
/// there is none.
pub open spec fn header_split(e: Seq<u8>) -> int {
    find_byte(e, 32, 0, header_end(e))
}

/// The second word of the header of `e`: what stands for the body's length.
pub open spec fn length_digits(e: Seq<u8>) -> Seq<u8> {
    e.subrange(header_split(e) + 1, header_end(e))
}

/// Whether the header of `e` states the length as an envelope is written: without a
/// leading zero.
pub open spec fn has_canonical_length(e: Seq<u8>) -> bool {
    is_decimal(length_digits(e))
}

/// The kind and the body that an envelope frames, or why it frames none.
///
/// The header ends at the first NUL among the first 64 bytes and is split at its first
/// space. Its first word is a kind's name. Its second is a decimal numeral, leading zeros
/// allowed, of the number of bytes that follow the NUL.
pub open spec fn parse_envelope(e: Seq<u8>) -> Result<(ObjectKind, Seq<u8>), DecodeError> {
    let nul = header_end(e);
    let sp = header_split(e);
    if nul >= e.len() || nul >= 64 || sp >= nul {
        Err(DecodeError::MalformedHeader)
    } else {
        match ObjectKind::named(e.subrange(0, sp)) {
            None => Err(DecodeError::UnknownKind),
            Some(kind) => {
                if !is_digits(length_digits(e)) {
                    Err(DecodeError::InvalidLength)
                } else if decimal_value(length_digits(e)) != e.len() - nul - 1 {
                    Err(DecodeError::SizeMismatch)
                } else {
                    Ok((kind, e.subrange(nul + 1, e.len() as int)))
                }
            },
        }
    }
}

/// Ten to the power of `k`.
pub open spec fn pow10(k: nat) -> nat
    decreases k,
{
    if k == 0 {
        1
    } else {
        10 * pow10((k - 1) as nat)
    }
}

/// A number below ten to the `k` has at most `k` digits.
proof fn lemma_digits_len(n: nat, k: nat)
    requires
        k >= 1,
        n < pow10(k),
    ensures
        decimal_digits(n).len() <= k,
    decreases n,
{
    if n >= 10 {
        reveal_with_fuel(pow10, 2);
        lemma_digits_len(n / 10, (k - 1) as nat);
    }
}

/// The numeral of a number that fits in 64 bits has at most twenty digits.
pub proof fn lemma_digits_fit(n: nat)
    requires
        n <= u64::MAX,
    ensures
        decimal_digits(n).len() <= 20,
{
    reveal_with_fuel(pow10, 21);
    assert(pow10(20) == 100000000000000000000);
    lemma_digits_len(n, 20);
}

/// What is read from `kind`'s name, a space, the numeral `digits`, a NUL and `rest`, where
/// the header fits the scan window: `kind` and `rest` if `digits` denotes the length of
/// `rest`, with or without leading zeros, and a size mismatch if it does not.
pub proof fn lemma_parse_numeral_framed(kind: ObjectKind, digits: Seq<u8>, rest: Seq<u8>)
    requires
        is_digits(digits),
        kind.name_spec().len() + 1 + digits.len() < 64,
    ensures
        parse_envelope(kind.name_spec() + seq![32u8] + digits + seq![0u8] + rest)
            == if decimal_value(digits) == rest.len() {
            Ok::<(ObjectKind, Seq<u8>), DecodeError>((kind, rest))
        } else {
            Err::<(ObjectKind, Seq<u8>), DecodeError>(DecodeError::SizeMismatch)
        },
        length_digits(kind.name_spec() + seq![32u8] + digits + seq![0u8] + rest) == digits,
{
    let name = kind.name_spec();
    let e = name + seq![32u8] + digits + seq![0u8] + rest;
    let sp = name.len() as int;
    let nul = sp + 1 + digits.len();
    let window = if e.len() < 64 {
        e.len() as int
    } else {
        64
    };
    kind.lemma_name();
    assert forall|j: int| 0 <= j < nul implies e[j] != 0 by {
        if j < sp {
            assert(e[j] == name[j]);
        } else if j > sp {
            assert(e[j] == digits[j - sp - 1]);
        }
    }
    assert(e[nul] == 0);
    lemma_find_byte_is(e, 0, 0, window, nul);
    assert forall|j: int| 0 <= j < sp implies e[j] != 32 by {
        assert(e[j] == name[j]);
    }
    assert(e[sp] == 32);
    lemma_find_byte_is(e, 32, 0, nul, sp);
    assert(e.subrange(0, sp) =~= name);
    assert(e.subrange(sp + 1, nul) =~= digits);
    assert(e.subrange(nul + 1, e.len() as int) =~= rest);
}

/// What is read from a header of `kind` and `len` with `rest` behind it: `kind` and `rest`
/// if `rest` has `len` bytes, and a size mismatch if it has not.
pub proof fn lemma_parse_framed(kind: ObjectKind, len: nat, rest: Seq<u8>)
    requires
        len <= u64::MAX,
    ensures
        parse_envelope(header_of(kind, len) + rest) == if rest.len() == len {
            Ok::<(ObjectKind, Seq<u8>), DecodeError>((kind, rest))
        } else {
            Err::<(ObjectKind, Seq<u8>), DecodeError>(DecodeError::SizeMismatch)
        },
        has_canonical_length(header_of(kind, len) + rest),
{
    kind.lemma_name();
    lemma_digits_fit(len);
    lemma_decimal_digits_value(len);
    lemma_parse_numeral_framed(kind, decimal_digits(len), rest);
}

/// An envelope frames its kind and body.
pub proof fn lemma_parse_envelope_of(kind: ObjectKind, body: Seq<u8>)
    requires
        body.len() <= u64::MAX,
    ensures
        parse_envelope(envelope_of(kind, body)) == Ok::<(ObjectKind, Seq<u8>), DecodeError>(
            (kind, body),
        ),
{
    lemma_parse_framed(kind, body.len(), body);
}

/// What frames a kind and a body holds that kind's name and that body, and where it
/// states the length without a leading zero it is the envelope of that kind and body: no
/// two such envelopes frame the same object.
pub proof fn lemma_envelope_of_parse(e: Seq<u8>, kind: ObjectKind, body: Seq<u8>)
    requires
        parse_envelope(e) == Ok::<(ObjectKind, Seq<u8>), DecodeError>((kind, body)),
    ensures
        e == kind.name_spec() + seq![32u8] + length_digits(e) + seq![0u8] + body,
        decimal_value(length_digits(e)) == body.len(),
        has_canonical_length(e) <==> envelope_of(kind, body) == e,
{
    let window = if e.len() < 64 {
        e.len() as int
    } else {
        64
    };
    let nul = header_end(e);
    let sp = header_split(e);
    lemma_find_byte(e, 0, 0, window);
    lemma_find_byte(e, 32, 0, nul);
    let digits = length_digits(e);
    assert(e.subrange(0, sp) == kind.name_spec());
    assert(e =~= kind.name_spec() + seq![32u8] + digits + seq![0u8] + body);
    lemma_decimal_digits_value(body.len());
    if has_canonical_length(e) {
        lemma_decimal_unique(digits, body.len());
        assert(envelope_of(kind, body) =~= e);
    }
    if envelope_of(kind, body) == e {
        let canonical = decimal_digits(body.len());
        let name = kind.name_spec();
        assert(digits.len() == canonical.len()) by {
            assert(e.len() == name.len() + 1 + digits.len() + 1 + body.len());
            assert(envelope_of(kind, body).len() == name.len() + 1 + canonical.len() + 1
                + body.len());
        }
        assert(digits =~= canonical) by {
            assert forall|i: int| 0 <= i < digits.len() implies digits[i] == canonical[i] by {
                assert(digits[i] == e[sp + 1 + i]);
                assert(envelope_of(kind, body)[name.len() + 1 + i] == canonical[i]);
            }
        }
    }
}

/// An envelope that lost the last byte of its body is a size mismatch.
pub proof fn lemma_truncated_envelope(kind: ObjectKind, body: Seq<u8>)
    requires
        0 < body.len() <= u64::MAX,
    ensures
        parse_envelope(envelope_of(kind, body).drop_last()) == Err::<
            (ObjectKind, Seq<u8>),
            DecodeError,
        >(DecodeError::SizeMismatch),
{
    assert(envelope_of(kind, body).drop_last() =~= header_of(kind, body.len())
        + body.drop_last());
    lemma_parse_framed(kind, body.len(), body.drop_last());
}

/// Builds the envelope of an object of the given kind and body.
pub fn envelope(kind: ObjectKind, body: &[u8]) -> (out: Vec<u8>)
    ensures
        out@ == envelope_of(kind, body@),
{
    let mut out: Vec<u8> = kind.name();
    out.push(SP);
    push_decimal(&mut out, body.len());
    out.push(NUL);
    append(&mut out, body);
    out
}

/// Reads the header of an envelope and checks the body's length against it. Returns the
/// kind and the index at which the body starts.
pub fn read_header(e: &[u8]) -> (r: Result<(ObjectKind, usize), DecodeError>)
    ensures
        match r {
            Ok((kind, start)) => start <= e@.len() && parse_envelope(e@) == Ok::<
                (ObjectKind, Seq<u8>),
                DecodeError,
            >((kind, e@.subrange(start as int, e@.len() as int))),
            Err(err) => parse_envelope(e@) == Err::<(ObjectKind, Seq<u8>), DecodeError>(err),
        },
{
    let window: usize = if e.len() < SCAN_WINDOW {
        e.len()
    } else {
        SCAN_WINDOW
    };
    let nul: usize = find(e, NUL, 0, window);
    if nul >= window {
        return Err(DecodeError::MalformedHeader);
    }
    let sp: usize = find(e, SP, 0, nul);
    if sp >= nul {
        return Err(DecodeError::MalformedHeader);
    }
    let kind: ObjectKind = match ObjectKind::from_name(slice_subrange(e, 0, sp)) {
        Some(kind) => kind,
        None => {
            return Err(DecodeError::UnknownKind);
        },
    };
    match read_numeral(e, sp + 1, nul) {
        Numeral::Invalid => Err(DecodeError::InvalidLength),
        Numeral::Overflow => Err(DecodeError::SizeMismatch),
        Numeral::Value(stated) => {
            if stated != e.len() - nul - 1 {
                Err(DecodeError::SizeMismatch)
            } else {
                Ok((kind, nul + 1))
            }
        },
    }
}

} // verus!
