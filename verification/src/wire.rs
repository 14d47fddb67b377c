//! The protobuf wire format, as the `prost` crate reads it: one field at a time off
//! the front of a buffer.
//!
//! Every reader here hands its buffer to `prost` and gives back the value and what is
//! left of the buffer. What a skipped group leaves of it is named, not spelled out.
use prost::encoding::{DecodeContext, WireType};
use prost::DecodeError;
use vstd::prelude::*;
use vstd::utf8;

verus! {

/// The wire type of a varint.
pub const VARINT: u8 = 0;

/// The wire type of a value of eight bytes.
pub const SIXTY_FOUR_BIT: u8 = 1;

/// The wire type of a value whose length stands before it.
pub const DELIMITED: u8 = 2;

/// The wire type at the beginning of a group.
pub const START_GROUP: u8 = 3;

/// The wire type of a value of four bytes.
pub const THIRTY_TWO_BIT: u8 = 5;

/// A protobuf decoding error, as `prost` reports it.
#[verifier::external_type_specification]
#[verifier::external_body]
pub struct ExDecodeError(prost::DecodeError);

/// The number that the first bytes of a buffer write, seven bits to a byte from the lowest
/// on, and the rest of the buffer. All bytes of a number but its last are 128 or more, and
/// there are no more than `most`.
pub open spec fn digits(bytes: Seq<u8>, most: nat) -> Option<(nat, Seq<u8>)>
    decreases most,
{
    if bytes.len() == 0 || most == 0 {
        None
    } else if bytes[0] < 128 {
        Some((bytes[0] as nat, bytes.skip(1)))
    } else {
        match digits(bytes.skip(1), (most - 1) as nat) {
            Some((high, rest)) => Some(((bytes[0] - 128 + 128 * high) as nat, rest)),
            None => None,
        }
    }
}

/// The varint at the front of a buffer, and the rest: a number of at most ten bytes that
/// fits 64 bits.
pub open spec fn varint(bytes: Seq<u8>) -> Option<(u64, Seq<u8>)> {
    match digits(bytes, 10) {
        Some((v, rest)) if v <= u64::MAX => Some((v as u64, rest)),
        _ => None,
    }
}

/// The field key at the front of a buffer: tag, wire type and the rest of the buffer. A key
/// is a varint of 32 bits, with the wire type in its lowest three bits and the tag, which is
/// not 0, above them.
pub open spec fn key_read(bytes: Seq<u8>) -> Option<(u32, u8, Seq<u8>)> {
    match varint(bytes) {
        Some((key, rest)) if key <= u32::MAX && key % 8 <= 5 && key / 8 >= 1 => Some(
            ((key / 8) as u32, (key % 8) as u8, rest),
        ),
        _ => None,
    }
}

/// The `int32` value of a given wire type at the front of a buffer, and the rest: the lowest
/// 32 bits of a varint.
pub open spec fn int32_read(wire: u8, bytes: Seq<u8>) -> Option<(i32, Seq<u8>)> {
    match varint(bytes) {
        Some((v, rest)) if wire == VARINT => Some((v as i32, rest)),
        _ => None,
    }
}

/// The `bool` value of a given wire type at the front of a buffer, and the rest: whether a
/// varint is not 0.
pub open spec fn bool_read(wire: u8, bytes: Seq<u8>) -> Option<(bool, Seq<u8>)> {
    match varint(bytes) {
        Some((v, rest)) if wire == VARINT => Some((v != 0, rest)),
        _ => None,
    }
}

/// The bytes at the front of a buffer that a varint before them counts, and the rest.
pub open spec fn delimited(bytes: Seq<u8>) -> Option<(Seq<u8>, Seq<u8>)> {
    match varint(bytes) {
        Some((n, rest)) if n <= rest.len() => Some((rest.take(n as int), rest.skip(n as int))),
        _ => None,
    }
}

/// The `string` value of a given wire type at the front of a buffer, and the rest: as many
/// bytes as a varint counts, which are UTF-8.
pub open spec fn string_read(wire: u8, bytes: Seq<u8>) -> Option<(Seq<char>, Seq<u8>)> {
    match delimited(bytes) {
        Some((text, rest)) if wire == DELIMITED && utf8::valid_utf8(text) => Some(
            (utf8::decode_utf8(text), rest),
        ),
        _ => None,
    }
}

/// What is left of a buffer once a group of a given tag is skipped.
pub uninterp spec fn group_read(tag: u32, bytes: Seq<u8>) -> Option<Seq<u8>>;

/// What is left of a buffer once a field of a given wire type is skipped, where `group` is
/// what is left of it once a group is.
pub open spec fn skip_read(wire: u8, bytes: Seq<u8>, group: Option<Seq<u8>>) -> Option<Seq<u8>> {
    if wire == VARINT {
        match varint(bytes) {
            Some((_, rest)) => Some(rest),
            None => None,
        }
    } else if wire == SIXTY_FOUR_BIT && bytes.len() >= 8 {
        Some(bytes.skip(8))
    } else if wire == DELIMITED {
        match delimited(bytes) {
            Some((_, rest)) => Some(rest),
            None => None,
        }
    } else if wire == START_GROUP {
        group
    } else if wire == THIRTY_TWO_BIT && bytes.len() >= 4 {
        Some(bytes.skip(4))
    } else {
        None
    }
}

/// A number takes at least one byte.
proof fn lemma_digits_take(bytes: Seq<u8>, most: nat)
    ensures
        digits(bytes, most) matches Some((_, rest)) ==> rest.len() < bytes.len(),
    decreases most,
{
    if bytes.len() > 0 && most > 0 {
        lemma_digits_take(bytes.skip(1), (most - 1) as nat);
    }
}

/// A key takes at least one byte, and no value is longer than its buffer.
pub proof fn lemma_reads_take(wire: u8, bytes: Seq<u8>)
    ensures
        key_read(bytes) matches Some((_, _, rest)) ==> rest.len() < bytes.len(),
        int32_read(wire, bytes) matches Some((_, rest)) ==> rest.len() <= bytes.len(),
        bool_read(wire, bytes) matches Some((_, rest)) ==> rest.len() <= bytes.len(),
        string_read(wire, bytes) matches Some((_, rest)) ==> rest.len() <= bytes.len(),
{
    lemma_digits_take(bytes, 10);
}

/// `prost::encoding::decode_key`: the tag and the wire type's number at the front of
/// `bytes`, and the rest; an error where the bytes hold no key.
#[verifier::external_body]
pub(crate) fn decode_key(bytes: &[u8]) -> (r: Result<(u32, u8, &[u8]), DecodeError>)
    ensures
        r is Ok == key_read(bytes@) is Some,
        r matches Ok(k) ==> key_read(bytes@) == Some((k.0, k.1, k.2@)),
{
    let mut rest = bytes;
    let (tag, wire) = prost::encoding::decode_key(&mut rest)?;
    Ok((tag, wire as u8, rest))
}

/// `prost::encoding::int32::merge`: the value at the front of `bytes`, and the rest; an
/// error for any wire type but a varint's, and where the bytes hold no varint.
#[verifier::external_body]
pub(crate) fn decode_int32(wire: u8, bytes: &[u8]) -> (r: Result<(i32, &[u8]), DecodeError>)
    ensures
        r is Ok == int32_read(wire, bytes@) is Some,
        r matches Ok(v) ==> int32_read(wire, bytes@) == Some((v.0, v.1@)),
{
    let mut rest = bytes;
    let mut value: i32 = 0;
    let wire_type = WireType::try_from(wire as u64)?;
    prost::encoding::int32::merge(wire_type, &mut value, &mut rest, DecodeContext::default())?;
    Ok((value, rest))
}

/// `prost::encoding::bool::merge`: the value at the front of `bytes`, and the rest; an
/// error for any wire type but a varint's, and where the bytes hold no varint.
#[verifier::external_body]
pub(crate) fn decode_bool(wire: u8, bytes: &[u8]) -> (r: Result<(bool, &[u8]), DecodeError>)
    ensures
        r is Ok == bool_read(wire, bytes@) is Some,
        r matches Ok(v) ==> bool_read(wire, bytes@) == Some((v.0, v.1@)),
{
    let mut rest = bytes;
    let mut value = false;
    let wire_type = WireType::try_from(wire as u64)?;
    prost::encoding::bool::merge(wire_type, &mut value, &mut rest, DecodeContext::default())?;
    Ok((value, rest))
}

/// `prost::encoding::string::merge`: the text at the front of `bytes`, and the rest; an
/// error for any wire type but a delimited value's, where the bytes are fewer than they are
/// said to be, and where they are not UTF-8.
#[verifier::external_body]
pub(crate) fn decode_string(wire: u8, bytes: &[u8]) -> (r: Result<(String, &[u8]), DecodeError>)
    ensures
        r is Ok == string_read(wire, bytes@) is Some,
        r matches Ok(v) ==> string_read(wire, bytes@) == Some((v.0@, v.1@)),
{
    let mut rest = bytes;
    let mut value = String::new();
    let wire_type = WireType::try_from(wire as u64)?;
    prost::encoding::string::merge(wire_type, &mut value, &mut rest, DecodeContext::default())?;
    Ok((value, rest))
}

/// `prost::encoding::skip_field`: what is left of `bytes` after a field of the given
/// wire type and tag, which is no longer than `bytes`; an error where the bytes hold no such
/// field. What a group leaves depends on its tag and the bytes alone.
#[verifier::external_body]
pub(crate) fn skip_field(wire: u8, tag: u32, bytes: &[u8]) -> (r: Result<&[u8], DecodeError>)
    ensures
        r is Ok == skip_read(wire, bytes@, group_read(tag, bytes@)) is Some,
        r matches Ok(rest) ==> skip_read(wire, bytes@, group_read(tag, bytes@)) == Some(rest@),
        r matches Ok(rest) ==> rest@.len() <= bytes@.len(),
{
    let mut rest = bytes;
    let wire_type = WireType::try_from(wire as u64)?;
    prost::encoding::skip_field(wire_type, tag, &mut rest, DecodeContext::default())?;
    Ok(rest)
}

} // verus!
