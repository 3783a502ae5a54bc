//! What holds of strings and numbers as keys: how they are stored, and in which bucket they are found.

use crate::file;
use crate::file::DataError;
use crate::keys;
use crate::keys::{Key, ReadError};
use crate::lookup;
use crate::native;
use crate::phf;
use crate::state::{PartialEntryKind, StoredEntry};
use crate::universal_hashmap;
use crate::universal_hashmap::MapModel;
use crate::values::Value;
use vstd::prelude::*;

verus! {

/// The bucket of a string is the one that the hash function gives its characters, for every string.
pub proof fn law_str_bucket(key: &str, levels: Seq<u64>, words: Seq<u64>)
    ensures
        key.slot(levels, words) == phf::phf_slot_str(levels, words, key@),
{
}

/// The bucket of a number is the one that the hash function gives its bytes in memory, for every
/// number.
pub proof fn law_i64_bucket(key: i64, levels: Seq<u64>, words: Seq<u64>)
    ensures
        key.slot(levels, words) == phf::phf_slot_i64(
            levels,
            words,
            native::native_bytes(native::bits_of_i64(key), 8),
        ),
{
}

/// The bucket of a number is the one that the hash function gives its bytes in memory, for every
/// number.
pub proof fn law_u128_bucket(key: u128, levels: Seq<u64>, words: Seq<u64>)
    ensures
        key.slot(levels, words) == phf::phf_slot_u128(
            levels,
            words,
            native::native_bytes(key as nat, 16),
        ),
{
}

/// A string is stored as its UTF-8, with a sentinel behind it that does not occur in it. It is read
/// back as the string that was stored, and as no other.
pub proof fn law_str_is_stored(key: &str, read: String)
    ensures
        key.encoding() == vstd::utf8::encode_utf8(key@).push(0xFF),
        forall|i: int| 0 <= i < key.encoding().len() - 1 ==> key.encoding()[i] != 0xFF,
        <str as Key>::owned_encoding(read) == key.encoding() <==> read@ == key@,
{
    let bytes = vstd::utf8::encode_utf8(key@);
    vstd::utf8::encode_utf8_valid_utf8(key@);
    assert forall|i: int| 0 <= i < key.encoding().len() - 1 implies key.encoding()[i] != 0xFF by {
        keys::law_utf8_has_no_sentinel(bytes, i);
    }
    if <str as Key>::owned_encoding(read) == key.encoding() {
        keys::law_str_encoding_is_unique(read@, key@);
    }
}

/// A number is stored as its eight bytes in memory. It is read back as the number that was stored,
/// and as no other.
pub proof fn law_i64_is_stored(key: i64, read: i64)
    ensures
        key.encoding().len() == 8,
        native::native_value(key.encoding()) == (if key >= 0 {
            key as int
        } else {
            key + 0x1_0000_0000_0000_0000
        }),
        <i64 as Key>::owned_encoding(read) == key.encoding() <==> read == key,
{
    native::lemma_byte_values();
    native::law_i64_bits(key, 0);
    native::law_value_of_bytes(native::bits_of_i64(key), 8);
    if <i64 as Key>::owned_encoding(read) == key.encoding() {
        keys::law_i64_encoding_is_unique(read, key);
    }
}

/// A number is stored as its sixteen bytes in memory. It is read back as the number that was stored,
/// and as no other.
pub proof fn law_u128_is_stored(key: u128, read: u128)
    ensures
        key.encoding().len() == 16,
        native::native_value(key.encoding()) == key,
        <u128 as Key>::owned_encoding(read) == key.encoding() <==> read == key,
{
    native::lemma_byte_values();
    native::law_value_of_bytes(key as nat, 16);
    if <u128 as Key>::owned_encoding(read) == key.encoding() {
        keys::law_u128_encoding_is_unique(read, key);
    }
}

/// A string ends at the first sentinel: what is in front of it is the string, or can never be one
/// where it is no UTF-8.
pub proof fn law_str_ends_at_sentinel(buf: Seq<u8>, addr: int, end: int)
    requires
        0 <= end < buf.len(),
        buf[end] == 0xFF,
        forall|i: int| 0 <= i < end ==> buf[i] != 0xFF,
    ensures
        <str as Key>::scan(buf, addr, 0) == (if vstd::utf8::valid_utf8(buf.take(end)) {
            Ok::<nat, ReadError>((end + 1) as nat)
        } else {
            Err(ReadError::Invalid)
        }),
{
    keys::lemma_first_sentinel_is(buf, 0, end);
}

/// Where there is no sentinel yet, more bytes of a string may come.
pub proof fn law_str_without_sentinel_is_incomplete(buf: Seq<u8>, addr: int)
    requires
        forall|i: int| 0 <= i < buf.len() ==> buf[i] != 0xFF,
    ensures
        <str as Key>::scan(buf, addr, 0) == Err::<nat, ReadError>(ReadError::Incomplete),
{
    keys::lemma_first_sentinel(buf, 0);
}

/// A number at an aligned address is read once its eight bytes are there, and never at another.
pub proof fn law_i64_needs_its_bytes(buf: Seq<u8>, addr: int, prev_size: nat)
    ensures
        <i64 as Key>::scan(buf, addr, prev_size) == (if addr % (vstd::layout::align_of::<
            i64,
        >() as int) != 0 {
            Err(ReadError::Invalid)
        } else if buf.len() < 8 {
            Err(ReadError::Incomplete)
        } else {
            Ok::<nat, ReadError>(8)
        }),
{
}

/// A number at an aligned address is read once its sixteen bytes are there, and never at another.
pub proof fn law_u128_needs_its_bytes(buf: Seq<u8>, addr: int, prev_size: nat)
    ensures
        <u128 as Key>::scan(buf, addr, prev_size) == (if addr % (vstd::layout::align_of::<
            u128,
        >() as int) != 0 {
            Err(ReadError::Invalid)
        } else if buf.len() < 16 {
            Err(ReadError::Incomplete)
        } else {
            Ok::<nat, ReadError>(16)
        }),
{
}

/// The names of the key types in a header, and what their keys are guessed to take. Numbers take
/// just that.
pub proof fn law_names_and_sizes(number: i64, wide: u128)
    ensures
        <str as Key>::NAME@ == seq![0x73u8, 0x74u8, 0x72u8, 0u8, 0u8, 0u8, 0u8, 0u8],
        <i64 as Key>::NAME@ == seq![0x69u8, 0x36u8, 0x34u8, 0u8, 0u8, 0u8, 0u8, 0u8],
        <u128 as Key>::NAME@ == seq![0x75u8, 0x31u8, 0x32u8, 0x38u8, 0u8, 0u8, 0u8, 0u8],
        <str as Key>::VALUE_SIZE_EST == 512,
        <i64 as Key>::VALUE_SIZE_EST == number.encoding().len(),
        <u128 as Key>::VALUE_SIZE_EST == wide.encoding().len(),
{
    <str as Key>::law_layout();
    <i64 as Key>::law_layout();
    <u128 as Key>::law_layout();
    law_i64_is_stored(number, number);
    law_u128_is_stored(wide, wide);
}

/// Whether the bucket of number `hash` holds `offset`, as its eight bytes in memory.
pub open spec fn bucket_holds(map: MapModel, file: Seq<u8>, hash: u64, offset: u64) -> bool {
    let bucket = map.buckets_pos + 8 * hash;
    &&& bucket <= u64::MAX
    &&& bucket + 8 <= file.len()
    &&& file.subrange(bucket, bucket + 8) == native::native_bytes(offset as nat, 8)
}

/// What a bucket holds is where the entry of a key that has this bucket is looked for.
proof fn lemma_bucket_points<K: Key + ?Sized>(
    map: MapModel,
    file: Seq<u8>,
    key: &K,
    hash: u64,
    offset: u64,
)
    requires
        key.slot(map.levels, map.words) == Some(hash),
        bucket_holds(map, file, hash, offset),
        map.entries_start + offset <= u64::MAX,
    ensures
        lookup::points_to(map, file, key, map.entries_start + offset),
{
    native::lemma_byte_values();
    native::law_value_of_bytes(offset as nat, 8);
    assert(hash * file::BUCKET_OFFSET_SIZE == 8 * hash);
}

/// The values of a string are found where they have been stored: at the offset that the bucket of the
/// string holds, for every string.
pub proof fn law_str_is_found_in_its_bucket<'a, V: Value>(
    map: MapModel,
    bytes: Seq<u8>,
    hash: u64,
    offset: u64,
    stored: StoredEntry<'a, str, V>,
)
    requires
        phf::phf_slot_str(map.levels, map.words, stored.key@) == Some(hash),
        bucket_holds(map, bytes, hash, offset),
        map.entries_start + offset <= u64::MAX,
        lookup::holds_entry(
            bytes,
            map.entries_start + offset,
            stored,
            PartialEntryKind::KeyAndValues(1),
        ),
        stored.key.encoding().len() <= usize::MAX,
    ensures
        universal_hashmap::stored_values::<str, V>(map, bytes, stored.key) == Ok::<
            Option<Seq<V>>,
            DataError,
        >(Some(stored.values)),
        universal_hashmap::stored_count::<str, V>(map, bytes, stored.key) == Ok::<
            Option<usize>,
            DataError,
        >(Some(stored.values.len() as usize)),
{
    lemma_bucket_points(map, bytes, stored.key, hash, offset);
    universal_hashmap::law_stored_values_are_given(
        map,
        bytes,
        map.entries_start + offset,
        stored,
    );
}

/// The values of a number are found where they have been stored: at the offset that the bucket of the
/// number holds, for every number.
pub proof fn law_i64_is_found_in_its_bucket<'a, V: Value>(
    map: MapModel,
    bytes: Seq<u8>,
    hash: u64,
    offset: u64,
    stored: StoredEntry<'a, i64, V>,
)
    requires
        phf::phf_slot_i64(
            map.levels,
            map.words,
            native::native_bytes(native::bits_of_i64(*stored.key), 8),
        ) == Some(hash),
        bucket_holds(map, bytes, hash, offset),
        map.entries_start + offset <= u64::MAX,
        lookup::holds_entry(
            bytes,
            map.entries_start + offset,
            stored,
            PartialEntryKind::KeyAndValues(1),
        ),
    ensures
        universal_hashmap::stored_values::<i64, V>(map, bytes, stored.key) == Ok::<
            Option<Seq<V>>,
            DataError,
        >(Some(stored.values)),
        universal_hashmap::stored_count::<i64, V>(map, bytes, stored.key) == Ok::<
            Option<usize>,
            DataError,
        >(Some(stored.values.len() as usize)),
{
    law_i64_is_stored(*stored.key, *stored.key);
    lemma_bucket_points(map, bytes, stored.key, hash, offset);
    universal_hashmap::law_stored_values_are_given(
        map,
        bytes,
        map.entries_start + offset,
        stored,
    );
}

/// The values of a number are found where they have been stored: at the offset that the bucket of the
/// number holds, for every number.
pub proof fn law_u128_is_found_in_its_bucket<'a, V: Value>(
    map: MapModel,
    bytes: Seq<u8>,
    hash: u64,
    offset: u64,
    stored: StoredEntry<'a, u128, V>,
)
    requires
        phf::phf_slot_u128(
            map.levels,
            map.words,
            native::native_bytes(*stored.key as nat, 16),
        ) == Some(hash),
        bucket_holds(map, bytes, hash, offset),
        map.entries_start + offset <= u64::MAX,
        lookup::holds_entry(
            bytes,
            map.entries_start + offset,
            stored,
            PartialEntryKind::KeyAndValues(1),
        ),
    ensures
        universal_hashmap::stored_values::<u128, V>(map, bytes, stored.key) == Ok::<
            Option<Seq<V>>,
            DataError,
        >(Some(stored.values)),
        universal_hashmap::stored_count::<u128, V>(map, bytes, stored.key) == Ok::<
            Option<usize>,
            DataError,
        >(Some(stored.values.len() as usize)),
{
    law_u128_is_stored(*stored.key, *stored.key);
    lemma_bucket_points(map, bytes, stored.key, hash, offset);
    universal_hashmap::law_stored_values_are_given(
        map,
        bytes,
        map.entries_start + offset,
        stored,
    );
}

} // verus!
