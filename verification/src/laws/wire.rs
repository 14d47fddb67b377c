//! The reads of the wire format give back what is written in it.
use crate::wire;
use vstd::prelude::*;
use vstd::utf8;

verus! {

/// A number, written in base 128: the lowest digits first, with the top bit set in all bytes but
/// the last.
pub open spec fn varint_bytes(v: nat) -> Seq<u8>
    decreases v,
{
    if v < 128 {
        seq![v as u8]
    } else {
        seq![(v % 128 + 128) as u8] + varint_bytes(v / 128)
    }
}

proof fn lemma_digits(v: nat, rest: Seq<u8>, most: nat)
    requires
        fits(v, most),
    ensures
        wire::digits(varint_bytes(v) + rest, most) == Some((v, rest)),
    decreases v,
{
    let bytes = varint_bytes(v) + rest;
    if v < 128 {
        assert(bytes[0] == v);
        assert(bytes.skip(1) =~= rest);
    } else {
        let low = (v % 128 + 128) as u8;
        assert(bytes[0] == low);
        assert(bytes.skip(1) =~= varint_bytes(v / 128) + rest);
        lemma_digits(v / 128, rest, (most - 1) as nat);
        assert(low - 128 + 128 * (v / 128) == v);
    }
}

/// Whether a number has at most so many digits in base 128.
spec fn fits(v: nat, most: nat) -> bool
    decreases most,
{
    most > 0 && (v < 128 || fits(v / 128, (most - 1) as nat))
}

proof fn lemma_fits(v: nat)
    requires
        v <= u64::MAX,
    ensures
        fits(v, 10),
{
    reveal_with_fuel(fits, 11);
}

/// A varint reads back as the number that it writes, and leaves what follows it.
pub proof fn law_varint_reads_back(v: u64, rest: Seq<u8>)
    ensures
        wire::varint(varint_bytes(v as nat) + rest) == Some((v, rest)),
{
    lemma_fits(v as nat);
    lemma_digits(v as nat, rest, 10);
}

/// A field key reads back as the tag and the wire type that it is made of.
pub proof fn law_key_reads_back(tag: u32, kind: u8, rest: Seq<u8>)
    requires
        1 <= tag < 0x2000_0000,
        kind <= 5,
    ensures
        wire::key_read(varint_bytes((tag * 8 + kind) as nat) + rest) == Some((tag, kind, rest)),
{
    let key = (tag * 8 + kind) as u64;
    law_varint_reads_back(key, rest);
    assert(key / 8 == tag && key % 8 == kind);
}

/// An `int32` reads back as the number that it writes, a negative one in 64 bits.
pub proof fn law_int32_reads_back(v: i32, rest: Seq<u8>)
    ensures
        wire::int32_read(0, varint_bytes((v as i64) as u64 as nat) + rest) == Some((v, rest)),
{
    let wide = (v as i64) as u64;
    assert(((v as i64) as u64) as i32 == v) by (bit_vector);
    law_varint_reads_back(wide, rest);
}

/// A `bool` reads back as set where it is written as a number that is not 0.
pub proof fn law_bool_reads_back(v: u64, rest: Seq<u8>)
    ensures
        wire::bool_read(0, varint_bytes(v as nat) + rest) == Some((v != 0, rest)),
{
    law_varint_reads_back(v, rest);
}

/// A `string` reads back as the text that it writes: its length in bytes, and the bytes.
pub proof fn law_string_reads_back(text: Seq<char>, rest: Seq<u8>)
    requires
        utf8::encode_utf8(text).len() <= u64::MAX,
    ensures
        ({
            let bytes = utf8::encode_utf8(text);
            wire::string_read(2, varint_bytes(bytes.len()) + (bytes + rest)) == Some((text, rest))
        }),
{
    let bytes = utf8::encode_utf8(text);
    law_varint_reads_back(bytes.len() as u64, bytes + rest);
    assert((bytes + rest).take(bytes.len() as int) =~= bytes);
    assert((bytes + rest).skip(bytes.len() as int) =~= rest);
    utf8::encode_utf8_valid_utf8(text);
    utf8::encode_utf8_decode_utf8(text);
}

/// A value of another wire type than the one that is asked for does not read.
pub proof fn law_wire_types(kind: u8, bytes: Seq<u8>)
    ensures
        kind != 0 ==> wire::int32_read(kind, bytes) is None && wire::bool_read(kind, bytes) is None,
        kind != 2 ==> wire::string_read(kind, bytes) is None,
{
}

/// Skipping a value leaves what follows it: a varint, eight bytes, as many bytes as a varint
/// counts, what a group leaves, or four bytes.
pub proof fn law_skips(v: u64, some: Seq<u8>, rest: Seq<u8>, group: Option<Seq<u8>>)
    ensures
        wire::skip_read(0, varint_bytes(v as nat) + rest, group) == Some(rest),
        some.len() == 8 ==> wire::skip_read(1, some + rest, group) == Some(rest),
        some.len() == v ==> wire::skip_read(2, varint_bytes(v as nat) + (some + rest), group)
            == Some(rest),
        wire::skip_read(3, rest, group) == group,
        wire::skip_read(4, rest, group) is None,
        some.len() == 4 ==> wire::skip_read(5, some + rest, group) == Some(rest),
{
    law_varint_reads_back(v, rest);
    law_varint_reads_back(v, some + rest);
    assert((some + rest).skip(some.len() as int) =~= rest);
}

} // verus!
