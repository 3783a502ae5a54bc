//! Integers as they lie in memory, in the byte order of the machine.

use vstd::prelude::*;
use zerocopy::{FromBytes, IntoBytes};

verus! {

/// The number that `bytes` spell, the least significant byte first.
pub open spec fn le_value(bytes: Seq<u8>) -> nat
    decreases bytes.len(),
{
    if bytes.len() == 0 {
        0
    } else {
        bytes[0] as nat + 256 * le_value(bytes.drop_first())
    }
}

/// The `len` lowest bytes of `value`, the least significant byte first.
pub open spec fn le_bytes(value: nat, len: nat) -> Seq<u8>
    decreases len,
{
    if len == 0 {
        Seq::empty()
    } else {
        seq![(value % 256) as u8] + le_bytes(value / 256, (len - 1) as nat)
    }
}

/// The number of values that `len` bytes can spell.
pub open spec fn byte_values(len: nat) -> nat
    decreases len,
{
    if len == 0 {
        1
    } else {
        256 * byte_values((len - 1) as nat)
    }
}

/// The number that `bytes` spell in the machine's byte order.
pub open spec fn native_value(bytes: Seq<u8>) -> nat {
    match vstd::endian::endianness() {
        vstd::endian::Endian::Little => le_value(bytes),
        vstd::endian::Endian::Big => le_value(bytes.reverse()),
    }
}

/// The `len` lowest bytes of `value` in the machine's byte order.
pub open spec fn native_bytes(value: nat, len: nat) -> Seq<u8> {
    match vstd::endian::endianness() {
        vstd::endian::Endian::Little => le_bytes(value, len),
        vstd::endian::Endian::Big => le_bytes(value, len).reverse(),
    }
}

/// The signed number whose two's complement is `bits`.
pub open spec fn i64_of_bits(bits: nat) -> i64 {
    if bits < 0x8000_0000_0000_0000 {
        bits as i64
    } else {
        (bits - 0x1_0000_0000_0000_0000) as i64
    }
}

/// The two's complement of `value`.
pub open spec fn bits_of_i64(value: i64) -> nat {
    if value >= 0 {
        value as nat
    } else {
        (value + 0x1_0000_0000_0000_0000) as nat
    }
}

pub(crate) proof fn lemma_le_bytes(value: nat, len: nat)
    requires
        value < byte_values(len),
    ensures
        le_bytes(value, len).len() == len,
        le_value(le_bytes(value, len)) == value,
    decreases len,
{
    if len > 0 {
        let rest = le_bytes(value / 256, (len - 1) as nat);
        lemma_le_bytes(value / 256, (len - 1) as nat);
        assert(le_bytes(value, len).drop_first() == rest);
    }
}

proof fn lemma_le_value(bytes: Seq<u8>)
    ensures
        le_value(bytes) < byte_values(bytes.len()),
        le_bytes(le_value(bytes), bytes.len()) == bytes,
    decreases bytes.len(),
{
    if bytes.len() > 0 {
        lemma_le_value(bytes.drop_first());
        assert(le_bytes(le_value(bytes), bytes.len()) == bytes);
    }
}

/// `byte_values` at the widths of the integer types.
pub(crate) proof fn lemma_byte_values()
    ensures
        byte_values(1) == 0x100,
        byte_values(4) == 0x1_0000_0000,
        byte_values(8) == 0x1_0000_0000_0000_0000,
        byte_values(16) == 0x1_0000_0000_0000_0000_0000_0000_0000_0000,
{
    reveal_with_fuel(byte_values, 17);
}

/// The bytes of a number spell that number.
pub proof fn law_value_of_bytes(value: nat, len: nat)
    requires
        value < byte_values(len),
    ensures
        native_bytes(value, len).len() == len,
        native_value(native_bytes(value, len)) == value,
{
    lemma_le_bytes(value, len);
    assert(le_bytes(value, len).reverse().reverse() == le_bytes(value, len));
}

/// The number that bytes spell has those bytes.
pub proof fn law_bytes_of_value(bytes: Seq<u8>)
    ensures
        native_value(bytes) < byte_values(bytes.len()),
        native_bytes(native_value(bytes), bytes.len()) == bytes,
{
    lemma_le_value(bytes);
    lemma_le_value(bytes.reverse());
    assert(bytes.reverse().reverse() == bytes);
}

/// Two's complement loses nothing.
pub proof fn law_i64_bits(value: i64, bits: nat)
    requires
        bits < byte_values(8),
    ensures
        bits_of_i64(value) < byte_values(8),
        i64_of_bits(bits_of_i64(value)) == value,
        bits_of_i64(i64_of_bits(bits)) == bits,
{
    lemma_byte_values();
}

/// Reads a `u32` from the start of `data`, by `zerocopy::FromBytes::read_from_prefix`.
///
/// Trusted: it copies the first four bytes as a `u32` of the machine's byte order and returns it
/// with the bytes behind it; it fails just where there are fewer bytes. It needs no alignment.
#[verifier::external_body]
pub(crate) fn read_u32(data: &[u8]) -> (read: Option<(u32, &[u8])>)
    ensures
        read is Some <==> data@.len() >= 4,
        read matches Some((value, rest)) ==> value == native_value(data@.take(4)) && rest@
            == data@.skip(4),
{
    u32::read_from_prefix(data).ok()
}

/// Reads a `u64` from the start of `data`, by `zerocopy::FromBytes::read_from_prefix`.
///
/// Trusted: as for [`read_u32`], with eight bytes.
#[verifier::external_body]
pub(crate) fn read_u64(data: &[u8]) -> (read: Option<(u64, &[u8])>)
    ensures
        read is Some <==> data@.len() >= 8,
        read matches Some((value, rest)) ==> value == native_value(data@.take(8)) && rest@
            == data@.skip(8),
{
    u64::read_from_prefix(data).ok()
}

/// Reads an `i64` from the start of `data`, by `zerocopy::FromBytes::read_from_prefix`.
///
/// Trusted: as for [`read_u32`], with eight bytes in two's complement.
#[verifier::external_body]
pub(crate) fn read_i64(data: &[u8]) -> (read: Option<(i64, &[u8])>)
    ensures
        read is Some <==> data@.len() >= 8,
        read matches Some((value, rest)) ==> value == i64_of_bits(native_value(data@.take(8)))
            && rest@ == data@.skip(8),
{
    i64::read_from_prefix(data).ok()
}

/// Reads a `u128` from the start of `data`, by `zerocopy::FromBytes::read_from_prefix`.
///
/// Trusted: as for [`read_u32`], with sixteen bytes.
#[verifier::external_body]
pub(crate) fn read_u128(data: &[u8]) -> (read: Option<(u128, &[u8])>)
    ensures
        read is Some <==> data@.len() >= 16,
        read matches Some((value, rest)) ==> value == native_value(data@.take(16)) && rest@
            == data@.skip(16),
{
    u128::read_from_prefix(data).ok()
}

/// The bytes of an `i64` in memory, by `zerocopy::IntoBytes::as_bytes`.
///
/// Trusted: they are its two's complement in the machine's byte order.
#[verifier::external_body]
pub(crate) fn i64_as_bytes(value: &i64) -> (bytes: &[u8])
    ensures
        bytes@ == native_bytes(bits_of_i64(*value), 8),
{
    value.as_bytes()
}

/// The bytes of a `u128` in memory, by `zerocopy::IntoBytes::as_bytes`.
///
/// Trusted: they are its bytes in the machine's byte order.
#[verifier::external_body]
pub(crate) fn u128_as_bytes(value: &u128) -> (bytes: &[u8])
    ensures
        bytes@ == native_bytes(*value as nat, 16),
{
    value.as_bytes()
}

} // verus!
