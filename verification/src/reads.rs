//! Which ranges a lookup reads, one after the other.

use crate::file;
use crate::file::{MapError, ReadRange};
use crate::keys::Key;
use crate::lookup;
use crate::lookup::Lookup;
use crate::native;
use crate::record::ReadCall;
use crate::sparse;
use crate::sparse::Request;
use crate::state::{PartialEntryKind, PartialModel};
use crate::universal_hashmap;
use crate::universal_hashmap::MapModel;
use crate::values;
use crate::values::Value;
use crate::visit;
use vstd::prelude::*;

verus! {

/// How far a lookup has come before its read of number `i`, and what that read is.
proof fn lemma_read_is_of_lookup<
    'k,
    E,
    R: FnMut(ReadRange) -> Result<Vec<u8>, E>,
    K: Key + ?Sized,
    V: Value,
>(
    map: MapModel,
    request: Request<'k, K>,
    kind: PartialEntryKind,
    file_len: u64,
    read: R,
    replies: Seq<Seq<u8>>,
    reads: Seq<ReadCall<E>>,
    answer: Result<Option<PartialModel<V>>, MapError<E>>,
    i: int,
)
    requires
        lookup::follows_lookup::<E, R, K, V>(map, request, kind, file_len, read, replies),
        lookup::ends_lookup::<E, R, V>(
            lookup::lookup_after::<K, V>(map, request, kind, replies),
            file_len,
            read,
            answer,
        ),
        reads == lookup::lookup_reads::<E, K, V>(map, request, kind, file_len, replies, answer),
        0 <= i < reads.len(),
    ensures
        i <= replies.len(),
        ({
            let before = lookup::lookup_after::<K, V>(map, request, kind, replies.take(i));
            &&& !(before is Told)
            &&& reads[i].range == before.range(file_len)
            &&& i < replies.len() ==> {
                &&& reads[i].reply == Ok::<Seq<u8>, E>(replies[i])
                &&& file::read_gives::<E, R>(read, before.range(file_len), replies[i])
                &&& lookup::lookup_after::<K, V>(map, request, kind, replies.take(i + 1))
                    == lookup::next_lookup::<K, V>(map, kind, before, replies[i])
            }
        }),
{
    if i < replies.len() {
        assert(lookup::is_reply::<E, R, K, V>(map, request, kind, file_len, read, replies, i));
        assert(replies.take(i + 1).drop_last() == replies.take(i));
        assert(replies.take(i + 1).last() == replies[i]);
    } else {
        assert(replies.take(i) == replies);
    }
}

/// The lookup of a key first reads the bucket that the hash function gives the key: eight bytes behind
/// as many for each bucket in front of it. Then it reads the entry, from the position that the bucket
/// holds, as far as it is guessed to go. Where the key has no bucket, nothing is read.
pub proof fn law_lookup_starts_with_bucket<
    'k,
    E,
    R: FnMut(ReadRange) -> Result<Vec<u8>, E>,
    K: Key + ?Sized,
    V: Value,
>(
    map: MapModel,
    key: &'k K,
    kind: PartialEntryKind,
    file_len: u64,
    read: R,
    reads: Seq<ReadCall<E>>,
    answer: Result<Option<PartialModel<V>>, MapError<E>>,
)
    requires
        kind.spec_est_size::<K, V>() <= usize::MAX,
        lookup::lookup_is_logged::<E, R, K, V>(
            map,
            Request::Key(key),
            kind,
            file_len,
            read,
            reads,
            answer,
        ),
    ensures
        match key.slot(map.levels, map.words) {
            Some(hash) => map.buckets_pos + 8 * hash <= u64::MAX ==> reads.len() > 0
                && reads[0].range == (ReadRange {
                byte_offset: (map.buckets_pos + 8 * hash) as u64,
                length: 8,
            }).clamped(file_len),
            None => reads.len() == 0,
        },
        reads.len() > 1 ==> {
            &&& reads[0].reply matches Ok(bucket)
            &&& bucket.len() == 8
            &&& map.entries_start + native::native_value(bucket) <= u64::MAX
            &&& reads[1].range == (ReadRange {
                byte_offset: (map.entries_start + native::native_value(bucket)) as u64,
                length: kind.spec_est_size::<K, V>() as u64,
            }).clamped(file_len)
        },
{
    let request = Request::Key(key);
    let replies = choose|replies: Seq<Seq<u8>>| #[trigger]
        lookup::follows_lookup::<E, R, K, V>(map, request, kind, file_len, read, replies)
            && lookup::ends_lookup::<E, R, V>(
            lookup::lookup_after::<K, V>(map, request, kind, replies),
            file_len,
            read,
            answer,
        ) && reads == lookup::lookup_reads::<E, K, V>(
            map,
            request,
            kind,
            file_len,
            replies,
            answer,
        );
    K::law_layout();
    V::law_layout();
    assert(replies.take(0) == Seq::<Seq<u8>>::empty());
    if reads.len() > 0 {
        lemma_read_is_of_lookup::<E, R, K, V>(
            map,
            request,
            kind,
            file_len,
            read,
            replies,
            reads,
            answer,
            0,
        );
    } else {
        assert(replies == Seq::<Seq<u8>>::empty());
    }
    if reads.len() > 1 {
        lemma_read_is_of_lookup::<E, R, K, V>(
            map,
            request,
            kind,
            file_len,
            read,
            replies,
            reads,
            answer,
            1,
        );
        native::lemma_byte_values();
        native::law_bytes_of_value(replies[0]);
        assert(kind matches PartialEntryKind::KeyAndValues(count) ==> 0
            <= values::value_size::<V>() * count) by (nonlinear_arith)
            requires
                values::value_size::<V>() >= 0,
        ;
    }
}

/// The lookup of an entry at an offset reads that entry, as far as it is guessed to go.
pub proof fn law_lookup_starts_with_entry<
    'k,
    E,
    R: FnMut(ReadRange) -> Result<Vec<u8>, E>,
    K: Key + ?Sized,
    V: Value,
>(
    map: MapModel,
    offset: u64,
    kind: PartialEntryKind,
    file_len: u64,
    read: R,
    reads: Seq<ReadCall<E>>,
    answer: Result<Option<PartialModel<V>>, MapError<E>>,
)
    requires
        kind.spec_est_size::<K, V>() <= usize::MAX,
        lookup::lookup_is_logged::<E, R, K, V>(
            map,
            Request::<K>::Offset(offset),
            kind,
            file_len,
            read,
            reads,
            answer,
        ),
    ensures
        reads.len() > 0 <==> map.entries_start + offset <= u64::MAX,
        reads.len() > 0 ==> reads[0].range == (ReadRange {
            byte_offset: (map.entries_start + offset) as u64,
            length: kind.spec_est_size::<K, V>() as u64,
        }).clamped(file_len),
{
    let request = Request::<K>::Offset(offset);
    let replies = choose|replies: Seq<Seq<u8>>| #[trigger]
        lookup::follows_lookup::<E, R, K, V>(map, request, kind, file_len, read, replies)
            && lookup::ends_lookup::<E, R, V>(
            lookup::lookup_after::<K, V>(map, request, kind, replies),
            file_len,
            read,
            answer,
        ) && reads == lookup::lookup_reads::<E, K, V>(
            map,
            request,
            kind,
            file_len,
            replies,
            answer,
        );
    K::law_layout();
    V::law_layout();
    assert(kind matches PartialEntryKind::KeyAndValues(count) ==> 0 <= values::value_size::<
        V,
    >() * count) by (nonlinear_arith)
        requires
            values::value_size::<V>() >= 0,
    ;
    assert(replies.take(0) == Seq::<Seq<u8>>::empty());
    if reads.len() > 0 {
        lemma_read_is_of_lookup::<E, R, K, V>(
            map,
            request,
            kind,
            file_len,
            read,
            replies,
            reads,
            answer,
            0,
        );
    } else {
        assert(replies == Seq::<Seq<u8>>::empty());
    }
}

/// A lookup reads an entry in one go, without a gap, and nothing twice: each read of it starts where
/// the one in front of it ended. With each it asks for as many bytes of the entry as the next power of
/// two, which is no more than twice what it has, or as a key is guessed to have where that is more, or
/// for all up to the end of the file.
pub proof fn law_lookup_reads_on<
    'k,
    E,
    R: FnMut(ReadRange) -> Result<Vec<u8>, E>,
    K: Key + ?Sized,
    V: Value,
>(
    map: MapModel,
    request: Request<'k, K>,
    kind: PartialEntryKind,
    file_len: u64,
    read: R,
    reads: Seq<ReadCall<E>>,
    answer: Result<Option<PartialModel<V>>, MapError<E>>,
    bytes: Seq<u8>,
    i: int,
)
    requires
        lookup::lookup_is_logged::<E, R, K, V>(map, request, kind, file_len, read, reads, answer),
        file::reads_file::<E, R>(read, bytes),
        bytes.len() == file_len,
        (if request is Key {
            1int
        } else {
            0
        }) <= i,
        i + 1 < reads.len(),
    ensures
        ({
            let first = reads[if request is Key {
                1
            } else {
                0
            }].range;
            let next = reads[i + 1].range;
            let before = next.byte_offset - first.byte_offset;
            let after = before + next.length;
            &&& reads[i].range.length > 0
            &&& next.byte_offset == reads[i].range.byte_offset + reads[i].range.length
            &&& next.byte_offset + next.length <= file_len
            &&& after <= 2 * before || after <= K::spec_value_size_est()
            &&& next.byte_offset + next.length == file_len || after > before && (
            vstd::arithmetic::power2::is_pow2(after) || after == K::spec_value_size_est())
        }),
{
    let replies = choose|replies: Seq<Seq<u8>>| #[trigger]
        lookup::follows_lookup::<E, R, K, V>(map, request, kind, file_len, read, replies)
            && lookup::ends_lookup::<E, R, V>(
            lookup::lookup_after::<K, V>(map, request, kind, replies),
            file_len,
            read,
            answer,
        ) && reads == lookup::lookup_reads::<E, K, V>(
            map,
            request,
            kind,
            file_len,
            replies,
            answer,
        );
    let first = if request is Key {
        1int
    } else {
        0
    };
    lemma_entry_is_read_on::<E, R, K, V>(
        map,
        request,
        kind,
        file_len,
        read,
        replies,
        reads,
        answer,
        bytes,
        first,
        i + 1,
    );
    lemma_entry_is_read_on::<E, R, K, V>(
        map,
        request,
        kind,
        file_len,
        read,
        replies,
        reads,
        answer,
        bytes,
        first,
        first,
    );
    let next = lookup::lookup_after::<K, V>(map, request, kind, replies.take(i + 1));
    let len = next->buf.len();
    sparse::law_grown_len_doubles::<K>(len);
    sparse::law_grown_len_grows::<K>(len);
    sparse::lemma_grown_len_fits::<K>(len);
}

/// Where a lookup reads an entry, it reads it from one position on, and has all bytes from there on.
proof fn lemma_entry_is_read_on<
    'k,
    E,
    R: FnMut(ReadRange) -> Result<Vec<u8>, E>,
    K: Key + ?Sized,
    V: Value,
>(
    map: MapModel,
    request: Request<'k, K>,
    kind: PartialEntryKind,
    file_len: u64,
    read: R,
    replies: Seq<Seq<u8>>,
    reads: Seq<ReadCall<E>>,
    answer: Result<Option<PartialModel<V>>, MapError<E>>,
    bytes: Seq<u8>,
    first: int,
    i: int,
)
    requires
        lookup::follows_lookup::<E, R, K, V>(map, request, kind, file_len, read, replies),
        lookup::ends_lookup::<E, R, V>(
            lookup::lookup_after::<K, V>(map, request, kind, replies),
            file_len,
            read,
            answer,
        ),
        reads == lookup::lookup_reads::<E, K, V>(map, request, kind, file_len, replies, answer),
        file::reads_file::<E, R>(read, bytes),
        bytes.len() == file_len,
        first == (if request is Key {
            1int
        } else {
            0
        }),
        first <= i < reads.len(),
    ensures
        i > first ==> reads[first].range.byte_offset == lookup::lookup_after::<K, V>(
            map,
            request,
            kind,
            replies.take(first),
        )->byte_offset,
        ({
            let start = lookup::lookup_after::<K, V>(map, request, kind, replies.take(first));
            let here = lookup::lookup_after::<K, V>(map, request, kind, replies.take(i));
            &&& start is Bytes && start->buf.len() == 0
            &&& here is Bytes && here->byte_offset == start->byte_offset
            &&& reads[i].range == sparse::missing_range(
                here->byte_offset,
                here->buf.len(),
                here->expected_len,
            ).clamped(file_len)
            &&& i > first ==> {
                &&& 0 < here->buf.len() <= isize::MAX
                &&& here->byte_offset + here->buf.len() <= file_len
                &&& reads[i - 1].range.length > 0
                &&& reads[i - 1].range.byte_offset + reads[i - 1].range.length
                    == here->byte_offset + here->buf.len()
                &&& reads[i].range.byte_offset == here->byte_offset + here->buf.len()
                &&& here->expected_len == sparse::grown_len::<K>(here->buf.len()) as u64
            }
        }),
    decreases i,
{
    lemma_read_is_of_lookup::<E, R, K, V>(
        map,
        request,
        kind,
        file_len,
        read,
        replies,
        reads,
        answer,
        i,
    );
    if i == 0 {
        assert(replies.take(0) == Seq::<Seq<u8>>::empty());
    } else {
        lemma_read_is_of_lookup::<E, R, K, V>(
            map,
            request,
            kind,
            file_len,
            read,
            replies,
            reads,
            answer,
            i - 1,
        );
        if i > first {
            lemma_entry_is_read_on::<E, R, K, V>(
                map,
                request,
                kind,
                file_len,
                read,
                replies,
                reads,
                answer,
                bytes,
                first,
                i - 1,
            );
            let earlier = lookup::lookup_after::<K, V>(map, request, kind, replies.take(i - 1));
            let range = sparse::missing_range(
                earlier->byte_offset,
                earlier->buf.len(),
                earlier->expected_len,
            );
            file::law_clamped_range(range, bytes, file_len);
            assert(replies[i - 1] == range.of(bytes));
        } else {
            assert(replies.take(0) == Seq::<Seq<u8>>::empty());
        }
    }
}

/// The values of a key are looked for in its bucket first, and then in its entry, of which as much is
/// read as it takes with a key of the size that is guessed and one value, whatever the paddings.
pub proof fn law_values_are_read_with_one_guess<
    E,
    R: FnMut(ReadRange) -> Result<Vec<u8>, E>,
    K: Key + ?Sized,
    V: Value,
>(
    map: MapModel,
    key: &K,
    file_len: u64,
    read: R,
    reads: Seq<ReadCall<E>>,
    values: Result<Option<Seq<V>>, MapError<E>>,
)
    requires
        universal_hashmap::values_are_logged::<E, R, K, V>(
            map,
            key,
            file_len,
            read,
            reads,
            values,
        ),
        K::VALUE_SIZE_EST + 3 * values::value_size::<V>() + 2 <= usize::MAX,
    ensures
        key.slot(map.levels, map.words) is None ==> reads.len() == 0,
        key.slot(map.levels, map.words) matches Some(hash) ==> (map.buckets_pos + 8 * hash
            <= u64::MAX ==> reads.len() > 0 && reads[0].range == (ReadRange {
            byte_offset: (map.buckets_pos + 8 * hash) as u64,
            length: 8,
        }).clamped(file_len)),
        reads.len() > 1 ==> {
            &&& reads[0].reply matches Ok(bucket)
            &&& reads[1].range == (ReadRange {
                byte_offset: (map.entries_start + native::native_value(bucket)) as u64,
                length: (K::VALUE_SIZE_EST + 3 * values::value_size::<V>() + 2) as u64,
            }).clamped(file_len)
        },
{
    let kind = PartialEntryKind::KeyAndValues(1);
    let answer = choose|answer: Result<Option<PartialModel<V>>, MapError<E>>| #[trigger]
        lookup::lookup_is_logged::<E, R, K, V>(
            map,
            Request::Key(key),
            kind,
            file_len,
            read,
            reads,
            answer,
        ) && values == universal_hashmap::values_of(answer);
    let v_size = values::value_size::<V>();
    assert(v_size * 1u32 == v_size) by (nonlinear_arith);
    K::law_layout();
    law_lookup_starts_with_bucket::<E, R, K, V>(
        map,
        key,
        kind,
        file_len,
        read,
        reads,
        answer,
    );
}

/// The number of values of a key is looked for in its bucket first, and then in its entry, of which as
/// much is read as it takes in front of the values with a key of the size that is guessed, whatever
/// the padding.
pub proof fn law_count_is_read_without_values<
    E,
    R: FnMut(ReadRange) -> Result<Vec<u8>, E>,
    K: Key + ?Sized,
    V: Value,
>(
    map: MapModel,
    key: &K,
    file_len: u64,
    read: R,
    reads: Seq<ReadCall<E>>,
    count: Result<Option<usize>, MapError<E>>,
)
    requires
        universal_hashmap::count_is_logged::<E, R, K, V>(
            map,
            key,
            file_len,
            read,
            reads,
            count,
        ),
        K::VALUE_SIZE_EST + values::value_size::<V>() + 3 <= usize::MAX,
    ensures
        key.slot(map.levels, map.words) is None ==> reads.len() == 0,
        key.slot(map.levels, map.words) matches Some(hash) ==> (map.buckets_pos + 8 * hash
            <= u64::MAX ==> reads.len() > 0 && reads[0].range == (ReadRange {
            byte_offset: (map.buckets_pos + 8 * hash) as u64,
            length: 8,
        }).clamped(file_len)),
        reads.len() > 1 ==> {
            &&& reads[0].reply matches Ok(bucket)
            &&& reads[1].range == (ReadRange {
                byte_offset: (map.entries_start + native::native_value(bucket)) as u64,
                length: (K::VALUE_SIZE_EST + values::value_size::<V>() + 3) as u64,
            }).clamped(file_len)
        },
{
    let kind = PartialEntryKind::KeyAndValuesLen;
    let answer = choose|answer: Result<Option<PartialModel<V>>, MapError<E>>| #[trigger]
        lookup::lookup_is_logged::<E, R, K, V>(
            map,
            Request::Key(key),
            kind,
            file_len,
            read,
            reads,
            answer,
        ) && count == universal_hashmap::count_of(answer);
    K::law_layout();
    law_lookup_starts_with_bucket::<E, R, K, V>(
        map,
        key,
        kind,
        file_len,
        read,
        reads,
        answer,
    );
}

/// Of the entry at an offset, as much is read for its key as a key is guessed to have.
pub proof fn law_key_is_read_alone<
    E,
    R: FnMut(ReadRange) -> Result<Vec<u8>, E>,
    K: Key + ?Sized,
    V: Value,
>(
    map: MapModel,
    offset: u64,
    file_len: u64,
    read: R,
    reads: Seq<ReadCall<E>>,
    key: Result<Seq<u8>, MapError<E>>,
)
    requires
        visit::key_is_logged::<E, R, K, V>(map, offset, file_len, read, reads, key),
    ensures
        reads.len() > 0 <==> map.entries_start + offset <= u64::MAX,
        reads.len() > 0 ==> reads[0].range == (ReadRange {
            byte_offset: (map.entries_start + offset) as u64,
            length: K::VALUE_SIZE_EST as u64,
        }).clamped(file_len),
{
    let kind = PartialEntryKind::KeyOnly;
    let answer = choose|answer: Result<Option<PartialModel<V>>, MapError<E>>| #[trigger]
        lookup::lookup_is_logged::<E, R, K, V>(
            map,
            Request::<K>::Offset(offset),
            kind,
            file_len,
            read,
            reads,
            answer,
        ) && key == visit::key_of(answer);
    K::law_layout();
    law_lookup_starts_with_entry::<E, R, K, V>(
        map,
        offset,
        kind,
        file_len,
        read,
        reads,
        answer,
    );
}

} // verus!
