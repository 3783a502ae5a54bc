//! Visiting all keys of a map.

use crate::aligned;
use crate::file;
use crate::file::{DataError, MapError, ReadRange};
use crate::keys::Key;
use crate::lookup;
use crate::native;
use crate::record;
use crate::record::{KeyCall, ReadCall, Recorded};
use crate::sparse::Request;
use crate::state::{PartialEntry, PartialEntryKind, PartialModel, StoredEntry};
use crate::universal_hashmap;
use crate::universal_hashmap::{MapModel, UniversalHashMap};
use crate::values::Value;
use vstd::prelude::*;

verus! {

/// Sorts numbers, by `<[u64]>::sort_unstable`.
///
/// Trusted: they are the same numbers, each as often as before, in ascending order.
#[verifier::external_body]
fn sort_unstable(numbers: &mut Vec<u64>)
    ensures
        is_sorted(final(numbers)@),
        final(numbers)@.to_multiset() == old(numbers)@.to_multiset(),
{
    numbers.sort_unstable()
}

/// Whether the numbers ascend.
pub open spec fn is_sorted(numbers: Seq<u64>) -> bool {
    forall|i: int, j: int| 0 <= i <= j < numbers.len() ==> numbers[i] <= numbers[j]
}

/// The offsets of the entries that `bytes` are, without what is left over.
pub open spec fn offsets_in(bytes: Seq<u8>) -> Seq<u64> {
    Seq::new(bytes.len() / 8, |i: int| file::bucket_offset(bytes.subrange(8 * i, 8 * i + 8)))
}

/// Reads the offsets of the entries that `bytes` are.
fn read_offsets(bytes: &[u8]) -> (offsets: Vec<u64>)
    ensures
        offsets@ == offsets_in(bytes@),
{
    let mut offsets: Vec<u64> = Vec::new();
    let len: usize = bytes.len();
    let count: usize = len / 8;
    let mut i: usize = 0;
    while i < count
        invariant
            len == bytes@.len(),
            count == len / 8,
            i <= count,
            offsets@ == offsets_in(bytes@).take(i as int),
        decreases count - i,
    {
        let chunk = vstd::slice::slice_subrange(bytes, 8 * i, 8 * i + 8);
        match file::parse_entry_offset(chunk) {
            Ok(offset) => offsets.push(offset),
            Err(_) => {
                assert(false);
            },
        }
        i = i + 1;
        assert(offsets@ == offsets_in(bytes@).take(i as int));
    }
    assert(offsets_in(bytes@).take(count as int) == offsets_in(bytes@));
    offsets
}

/// Whether `order` are the offsets that `bytes` are, in ascending order.
pub open spec fn is_order_of(bytes: Seq<u8>, order: Seq<u64>) -> bool {
    &&& is_sorted(order)
    &&& order.to_multiset() == offsets_in(bytes).to_multiset()
}

/// Whether `order` are the offsets that `bytes` hold, in ascending order.
pub open spec fn is_visiting_order(map: MapModel, bytes: Seq<u8>, order: Seq<u64>) -> bool {
    is_order_of(universal_hashmap::bucket_range(map).of(bytes), order)
}

/// The offsets of the entries that `bytes` are, in ascending order.
pub fn visiting_order(bytes: &[u8]) -> (order: Vec<u64>)
    ensures
        is_order_of(bytes@, order@),
{
    let mut offsets = read_offsets(bytes);
    sort_unstable(&mut offsets);
    offsets
}

/// The encoding of the key that `file` holds at an offset.
pub open spec fn stored_key<K: Key + ?Sized, V: Value>(
    map: MapModel,
    file: Seq<u8>,
    offset: u64,
) -> Result<Seq<u8>, DataError> {
    let request = Request::<K>::Offset(offset);
    let kind = PartialEntryKind::KeyOnly;
    match lookup::told(lookup::request_answer::<K, V>(map, file, request, kind)) {
        Ok(found) => Ok(found->0.key()),
        Err(error) => Err(error),
    }
}

/// The encoding of the key that a lookup gives.
pub open spec fn key_of<E, V>(answer: Result<Option<PartialModel<V>>, MapError<E>>) -> Result<
    Seq<u8>,
    MapError<E>,
> {
    match answer {
        Ok(found) => Ok(found->0.key()),
        Err(error) => Err(error),
    }
}

/// Whether `key` is what comes of a lookup of the key at an offset.
pub open spec fn key_looked_up<
    E,
    R: FnMut(ReadRange) -> Result<Vec<u8>, E>,
    K: Key + ?Sized,
    V: Value,
>(map: MapModel, offset: u64, file_len: u64, read: R, key: Result<Seq<u8>, MapError<E>>) -> bool {
    exists|answer: Result<Option<PartialModel<V>>, MapError<E>>| #[trigger]
        lookup::looked_up::<E, R, K, V>(
            map,
            Request::<K>::Offset(offset),
            PartialEntryKind::KeyOnly,
            file_len,
            read,
            answer,
        ) && key == key_of(answer)
}

/// Whether `key` is what comes of a lookup of the key at an offset, and `reads` are all reads that it
/// made.
pub open spec fn key_is_logged<
    E,
    R: FnMut(ReadRange) -> Result<Vec<u8>, E>,
    K: Key + ?Sized,
    V: Value,
>(
    map: MapModel,
    offset: u64,
    file_len: u64,
    read: R,
    reads: Seq<ReadCall<E>>,
    key: Result<Seq<u8>, MapError<E>>,
) -> bool {
    exists|answer: Result<Option<PartialModel<V>>, MapError<E>>| #[trigger]
        lookup::lookup_is_logged::<E, R, K, V>(
            map,
            Request::<K>::Offset(offset),
            PartialEntryKind::KeyOnly,
            file_len,
            read,
            reads,
            answer,
        ) && key == key_of(answer)
}

/// A lookup of a key whose reads are logged is a lookup of that key.
proof fn lemma_logged_key_is_looked_up<
    E,
    R: FnMut(ReadRange) -> Result<Vec<u8>, E>,
    K: Key + ?Sized,
    V: Value,
>(
    map: MapModel,
    offset: u64,
    file_len: u64,
    read: R,
    reads: Seq<ReadCall<E>>,
    key: Result<Seq<u8>, MapError<E>>,
)
    requires
        key_is_logged::<E, R, K, V>(map, offset, file_len, read, reads, key),
    ensures
        key_looked_up::<E, R, K, V>(map, offset, file_len, read, key),
{
    let answer = choose|answer: Result<Option<PartialModel<V>>, MapError<E>>| #[trigger]
        lookup::lookup_is_logged::<E, R, K, V>(
            map,
            Request::<K>::Offset(offset),
            PartialEntryKind::KeyOnly,
            file_len,
            read,
            reads,
            answer,
        ) && key == key_of(answer);
    assert(lookup::looked_up::<E, R, K, V>(
        map,
        Request::<K>::Offset(offset),
        PartialEntryKind::KeyOnly,
        file_len,
        read,
        answer,
    ));
}

/// What a lookup of a key gives is what is stored.
pub proof fn law_key_looked_up_is_stored<
    E,
    R: FnMut(ReadRange) -> Result<Vec<u8>, E>,
    K: Key + ?Sized,
    V: Value,
>(map: MapModel, offset: u64, file_len: u64, read: R, key: Result<Seq<u8>, MapError<E>>)
    requires
        key_looked_up::<E, R, K, V>(map, offset, file_len, read, key),
    ensures
        universal_hashmap::tells::<E, R, Seq<u8>>(
            read,
            file_len,
            key,
            |bytes: Seq<u8>| stored_key::<K, V>(map, bytes, offset),
        ),
{
    let kind = PartialEntryKind::KeyOnly;
    let request = Request::<K>::Offset(offset);
    let answer = choose|answer: Result<Option<PartialModel<V>>, MapError<E>>| #[trigger]
        lookup::looked_up::<E, R, K, V>(map, request, kind, file_len, read, answer) && key
            == key_of(answer);
    K::law_layout();
    assert forall|bytes: Seq<u8>| #[trigger]
        file::reads_file::<E, R>(read, bytes) && bytes.len() == file_len implies match key {
        Ok(given) => stored_key::<K, V>(map, bytes, offset) == Ok::<Seq<u8>, DataError>(given),
        Err(MapError::Data(error)) => stored_key::<K, V>(map, bytes, offset) == Err::<
            Seq<u8>,
            DataError,
        >(error) || error == DataError::TooLarge && !aligned::fits_buffer(bytes.len() as int),
        Err(MapError::Caller(_)) => true,
    } by {
        lookup::law_lookup_tells_the_truth::<E, R, K, V>(
            map,
            request,
            kind,
            file_len,
            read,
            answer,
            bytes,
        );
    }
}

/// Whether `f` took a key of this encoding.
pub open spec fn took_key<E, K: Key + ?Sized, F: FnMut(&K) -> Result<(), E>>(
    f: F,
    encoding: Seq<u8>,
) -> bool {
    exists|key: &K| #[trigger]
        call_ensures(f, (key,), Ok::<(), E>(())) && key.encoding() == encoding
}

/// Whether `f` can fail with `error` when it is handed a key of this encoding.
pub open spec fn refuses_key<E, K: Key + ?Sized, F: FnMut(&K) -> Result<(), E>>(
    f: F,
    encoding: Seq<u8>,
    error: E,
) -> bool {
    exists|key: &K| #[trigger]
        call_ensures(f, (key,), Err::<(), E>(error)) && key.encoding() == encoding
}

/// Whether the key at an offset has been looked up, and `f` took it.
pub open spec fn took_visited<
    E,
    R: FnMut(ReadRange) -> Result<Vec<u8>, E>,
    K: Key + ?Sized,
    V: Value,
    F: FnMut(&K) -> Result<(), E>,
>(map: MapModel, file_len: u64, read: R, f: F, offset: u64) -> bool {
    exists|encoding: Seq<u8>| #[trigger]
        key_looked_up::<E, R, K, V>(map, offset, file_len, read, Ok(encoding)) && took_key::<
            E,
            K,
            F,
        >(f, encoding)
}

/// Whether the work on the key at an offset ends with `error`: its lookup fails, or `f` refuses it.
pub open spec fn fails_at_offset<
    E,
    R: FnMut(ReadRange) -> Result<Vec<u8>, E>,
    K: Key + ?Sized,
    V: Value,
    F: FnMut(&K) -> Result<(), E>,
>(map: MapModel, file_len: u64, read: R, f: F, offset: u64, error: MapError<E>) -> bool {
    ||| key_looked_up::<E, R, K, V>(map, offset, file_len, read, Err(error))
    ||| error matches MapError::Caller(error) && exists|encoding: Seq<u8>| #[trigger]
        key_looked_up::<E, R, K, V>(map, offset, file_len, read, Ok(encoding)) && refuses_key::<
            E,
            K,
            F,
        >(f, encoding, error)
}

/// Whether the keys at the offsets have been looked up, one after the other, and `f` took them, up
/// to the first at which the work ends with an error.
pub open spec fn visit_ends<
    E,
    R: FnMut(ReadRange) -> Result<Vec<u8>, E>,
    K: Key + ?Sized,
    V: Value,
    F: FnMut(&K) -> Result<(), E>,
>(
    map: MapModel,
    file_len: u64,
    read: R,
    f: F,
    order: Seq<u64>,
    done: Result<(), MapError<E>>,
) -> bool {
    match done {
        Ok(()) => forall|i: int|
            0 <= i < order.len() ==> took_visited::<E, R, K, V, F>(
                map,
                file_len,
                read,
                f,
                #[trigger] order[i],
            ),
        Err(error) => exists|count: int|
            #![trigger order[count]]
            0 <= count < order.len() && fails_at_offset::<E, R, K, V, F>(
                map,
                file_len,
                read,
                f,
                order[count],
                error,
            ) && forall|i: int|
                0 <= i < count ==> took_visited::<E, R, K, V, F>(
                    map,
                    file_len,
                    read,
                    f,
                    #[trigger] order[i],
                ),
    }
}

/// Whether the work comes to the offset of number `i`: the keys at those in front of it have been
/// looked up, and `f` took them.
pub open spec fn reaches_offset<
    E,
    R: FnMut(ReadRange) -> Result<Vec<u8>, E>,
    K: Key + ?Sized,
    V: Value,
    F: FnMut(&K) -> Result<(), E>,
>(map: MapModel, file_len: u64, read: R, f: F, order: Seq<u64>, i: int) -> bool {
    &&& 0 <= i < order.len()
    &&& forall|j: int|
        0 <= j < i ==> took_visited::<E, R, K, V, F>(map, file_len, read, f, #[trigger] order[j])
}

/// Whether `f` is to be handed a key of this encoding when the offsets are visited: it is what comes
/// of a lookup at one of them, and `f` took what came of those in front of it.
pub open spec fn comes_of_offsets<
    E,
    R: FnMut(ReadRange) -> Result<Vec<u8>, E>,
    K: Key + ?Sized,
    V: Value,
    F: FnMut(&K) -> Result<(), E>,
>(
    map: MapModel,
    file_len: u64,
    read: R,
    f: F,
    order: Seq<u64>,
    encoding: Seq<u8>,
) -> bool {
    exists|i: int| #[trigger]
        reaches_offset::<E, R, K, V, F>(map, file_len, read, f, order, i) && key_looked_up::<
            E,
            R,
            K,
            V,
        >(map, order[i], file_len, read, Ok(encoding))
}

/// Whether `read` may be called on the ranges that the lookups at the offsets ask for, each when the
/// work comes to its offset, and `f` may be called on the keys that they give.
pub open spec fn may_visit_offsets<
    E,
    R: FnMut(ReadRange) -> Result<Vec<u8>, E>,
    K: Key + ?Sized,
    V: Value,
    F: FnMut(&K) -> Result<(), E>,
>(map: MapModel, file_len: u64, read: R, f: F, order: Seq<u64>) -> bool {
    &&& forall|i: int| #[trigger]
        reaches_offset::<E, R, K, V, F>(map, file_len, read, f, order, i) ==> lookup::allows_lookup::<
            E,
            R,
            K,
            V,
        >(map, Request::<K>::Offset(order[i]), PartialEntryKind::KeyOnly, file_len, read)
    &&& forall|key: &K|
        comes_of_offsets::<E, R, K, V, F>(map, file_len, read, f, order, key.encoding())
            ==> #[trigger] call_requires(f, (key,))
}

/// Whether `f` is to be handed a key of this encoding: it comes of the offsets that are read first,
/// in ascending order.
pub open spec fn comes_of_visit<
    E,
    R: FnMut(ReadRange) -> Result<Vec<u8>, E>,
    K: Key + ?Sized,
    V: Value,
    F: FnMut(&K) -> Result<(), E>,
>(map: MapModel, file_len: u64, read: R, f: F, encoding: Seq<u8>) -> bool {
    exists|bytes: Seq<u8>, order: Seq<u64>|
        #[trigger]
        file::read_gives::<E, R>(read, universal_hashmap::bucket_range(map), bytes)
            && #[trigger] is_order_of(bytes, order) && comes_of_offsets::<E, R, K, V, F>(
            map,
            file_len,
            read,
            f,
            order,
            encoding,
        )
}

/// Whether `read` may be called on the range of the offsets, and on the ranges that the lookups at
/// the offsets ask for, each when the work comes to its offset, and `f` may be called on the keys
/// that they give. Neither is called on anything else.
pub open spec fn allow_visit<
    E,
    R: FnMut(ReadRange) -> Result<Vec<u8>, E>,
    K: Key + ?Sized,
    V: Value,
    F: FnMut(&K) -> Result<(), E>,
>(map: MapModel, file_len: u64, read: R, f: F) -> bool {
    &&& call_requires(read, (universal_hashmap::bucket_range(map),))
    &&& forall|bytes: Seq<u8>, order: Seq<u64>, i: int|
        #[trigger]
        file::read_gives::<E, R>(read, universal_hashmap::bucket_range(map), bytes)
            && #[trigger] is_order_of(bytes, order) && #[trigger] reaches_offset::<E, R, K, V, F>(
            map,
            file_len,
            read,
            f,
            order,
            i,
        ) ==> lookup::allows_lookup::<E, R, K, V>(
            map,
            Request::<K>::Offset(order[i]),
            PartialEntryKind::KeyOnly,
            file_len,
            read,
        )
    &&& forall|key: &K|
        comes_of_visit::<E, R, K, V, F>(map, file_len, read, f, key.encoding())
            ==> #[trigger] call_requires(f, (key,))
}

/// Whether the two functions [`allow_visit`]. [`law_functions_may_visit`] shows it.
pub closed spec fn may_visit_keys<
    E,
    R: FnMut(ReadRange) -> Result<Vec<u8>, E>,
    K: Key + ?Sized,
    V: Value,
    F: FnMut(&K) -> Result<(), E>,
>(map: MapModel, file_len: u64, read: R, f: F) -> bool {
    allow_visit::<E, R, K, V, F>(map, file_len, read, f)
}

/// Whether `f` may be called on every key.
pub open spec fn takes_all_keys<E, K: Key + ?Sized, F: FnMut(&K) -> Result<(), E>>(f: F) -> bool {
    forall|key: &K| call_requires(f, (key,))
}

/// Whether the keys may be visited with these functions: both may be called on everything, or on
/// what they are called on.
pub open spec fn may_visit<
    E,
    R: FnMut(ReadRange) -> Result<Vec<u8>, E>,
    K: Key + ?Sized,
    V: Value,
    F: FnMut(&K) -> Result<(), E>,
>(map: MapModel, file_len: u64, read: R, f: F) -> bool {
    ||| file::reads_all::<E, R>(read) && takes_all_keys::<E, K, F>(f)
    ||| may_visit_keys::<E, R, K, V, F>(map, file_len, read, f)
}

/// Functions that allow all calls of a visit may be used for it.
pub proof fn law_functions_may_visit<
    E,
    R: FnMut(ReadRange) -> Result<Vec<u8>, E>,
    K: Key + ?Sized,
    V: Value,
    F: FnMut(&K) -> Result<(), E>,
>(map: MapModel, file_len: u64, read: R, f: F)
    requires
        allow_visit::<E, R, K, V, F>(map, file_len, read, f),
    ensures
        may_visit::<E, R, K, V, F>(map, file_len, read, f),
{
}

/// The calls with which keys are handed on, one for each, in their order, if all are taken.
pub open spec fn key_calls<E>(keys: Seq<Seq<u8>>) -> Seq<KeyCall<E>> {
    Seq::new(keys.len(), |i: int| KeyCall { key: keys[i], answer: Ok::<(), E>(()) })
}

/// Whether the key at the offset of number `i` is looked up by the reads of number `i`.
pub open spec fn is_key_at<
    E,
    R: FnMut(ReadRange) -> Result<Vec<u8>, E>,
    K: Key + ?Sized,
    V: Value,
>(
    map: MapModel,
    file_len: u64,
    read: R,
    order: Seq<u64>,
    reads: Seq<Seq<ReadCall<E>>>,
    keys: Seq<Seq<u8>>,
    i: int,
) -> bool {
    key_is_logged::<E, R, K, V>(map, order[i], file_len, read, reads[i], Ok(keys[i]))
}

/// Whether these are all reads, in one part for each offset that is visited, and all calls of a visit
/// of the offsets that finds `keys` and ends with `done`: each offset is visited once, in its order,
/// and each key is handed on once. A lookup that fails, and a call that is answered with an error, is
/// the last.
pub open spec fn visit_is_logged<
    E,
    R: FnMut(ReadRange) -> Result<Vec<u8>, E>,
    K: Key + ?Sized,
    V: Value,
>(
    map: MapModel,
    file_len: u64,
    read: R,
    order: Seq<u64>,
    reads: Seq<Seq<ReadCall<E>>>,
    keys: Seq<Seq<u8>>,
    calls: Seq<KeyCall<E>>,
    done: Result<(), MapError<E>>,
) -> bool {
    &&& keys.len() <= order.len()
    &&& keys.len() <= reads.len()
    &&& forall|i: int|
        0 <= i < keys.len() ==> #[trigger] is_key_at::<E, R, K, V>(
            map,
            file_len,
            read,
            order,
            reads,
            keys,
            i,
        )
    &&& match done {
        Ok(()) => {
            &&& keys.len() == order.len()
            &&& reads.len() == keys.len()
            &&& calls == key_calls::<E>(keys)
        },
        Err(error) => {
            ||| {
                &&& keys.len() < order.len()
                &&& reads.len() == keys.len() + 1
                &&& key_is_logged::<E, R, K, V>(
                    map,
                    order[keys.len() as int],
                    file_len,
                    read,
                    reads.last(),
                    Err(error),
                )
                &&& calls == key_calls::<E>(keys)
            }
            ||| {
                &&& error is Caller
                &&& keys.len() > 0
                &&& reads.len() == keys.len()
                &&& calls == key_calls::<E>(keys.drop_last()).push(
                    KeyCall { key: keys.last(), answer: Err(error->Caller_0) },
                )
            }
        },
    }
}

/// Whether these are all reads and all calls of a visit of the keys that ends with `done`: the range
/// of the offsets is read once, and then the offsets in it are visited in ascending order.
pub open spec fn keys_are_logged<
    E,
    R: FnMut(ReadRange) -> Result<Vec<u8>, E>,
    K: Key + ?Sized,
    V: Value,
>(
    map: MapModel,
    file_len: u64,
    read: R,
    reads: Seq<ReadCall<E>>,
    calls: Seq<KeyCall<E>>,
    done: Result<(), MapError<E>>,
) -> bool {
    let range = universal_hashmap::bucket_range(map);
    &&& reads.len() > 0
    &&& reads[0].range == range
    &&& match reads[0].reply {
        Err(error) => {
            &&& file::read_fails::<E, R>(read, range, error)
            &&& reads.len() == 1
            &&& calls.len() == 0
            &&& done == Err::<(), MapError<E>>(MapError::Caller(error))
        },
        Ok(bytes) => {
            &&& file::read_gives::<E, R>(read, range, bytes)
            &&& exists|order: Seq<u64>, later: Seq<Seq<ReadCall<E>>>, keys: Seq<Seq<u8>>|
                #[trigger]
                is_order_of(bytes, order) && reads.skip(1) == #[trigger] later.flatten_alt()
                    && #[trigger] visit_is_logged::<E, R, K, V>(
                    map,
                    file_len,
                    read,
                    order,
                    later,
                    keys,
                    calls,
                    done,
                )
        },
    }
}

/// Whether the keys have been visited in ascending order of the offsets that are read first.
pub open spec fn keys_end<
    E,
    R: FnMut(ReadRange) -> Result<Vec<u8>, E>,
    K: Key + ?Sized,
    V: Value,
    F: FnMut(&K) -> Result<(), E>,
>(map: MapModel, file_len: u64, read: R, f: F, done: Result<(), MapError<E>>) -> bool {
    ||| done matches Err(MapError::Caller(error)) && file::read_fails::<E, R>(
        read,
        universal_hashmap::bucket_range(map),
        error,
    )
    ||| exists|bytes: Seq<u8>, order: Seq<u64>|
        #[trigger]
        file::read_gives::<E, R>(read, universal_hashmap::bucket_range(map), bytes)
            && #[trigger] is_order_of(bytes, order) && visit_ends::<E, R, K, V, F>(
            map,
            file_len,
            read,
            f,
            order,
            done,
        )
}

/// Whether `f` took the keys that `bytes` hold at the first `count` offsets.
pub open spec fn visited<E, K: Key + ?Sized, V: Value, F: FnMut(&K) -> Result<(), E>>(
    map: MapModel,
    bytes: Seq<u8>,
    order: Seq<u64>,
    f: F,
    count: int,
) -> bool {
    forall|i: int|
        0 <= i < count ==> {
            let offset = #[trigger] order[i];
            stored_key::<K, V>(map, bytes, offset) matches Ok(encoding) && took_key::<E, K, F>(
                f,
                encoding,
            )
        }
}

/// Whether `f` was handed the keys that `bytes` hold, in the order in which they are stored, up to
/// the first that is damaged, or refused by `f`, or not to be read.
pub open spec fn visit_is_true<
    E,
    R: FnMut(ReadRange) -> Result<Vec<u8>, E>,
    K: Key + ?Sized,
    V: Value,
    F: FnMut(&K) -> Result<(), E>,
>(
    map: MapModel,
    bytes: Seq<u8>,
    read: R,
    f: F,
    order: Seq<u64>,
    done: Result<(), MapError<E>>,
) -> bool {
    match done {
        Ok(()) => visited::<E, K, V, F>(map, bytes, order, f, order.len() as int),
        Err(error) => exists|count: int|
            #![trigger order[count]]
            0 <= count < order.len() && visited::<E, K, V, F>(map, bytes, order, f, count) && {
                let offset = order[count];
                let stored = stored_key::<K, V>(map, bytes, offset);
                match error {
                    MapError::Data(error) => stored == Err::<Seq<u8>, DataError>(error) || error
                        == DataError::TooLarge && !aligned::fits_buffer(bytes.len() as int),
                    MapError::Caller(error) => {
                        ||| stored matches Ok(encoding) && refuses_key::<E, K, F>(
                            f,
                            encoding,
                            error,
                        )
                        ||| key_looked_up::<E, R, K, V>(
                            map,
                            offset,
                            bytes.len() as u64,
                            read,
                            Err(MapError::Caller(error)),
                        )
                    },
                }
            },
    }
}

/// What has been looked up at the offsets, and taken by `f`, are the keys that are stored there.
proof fn lemma_taken_keys_are_stored<
    E,
    R: FnMut(ReadRange) -> Result<Vec<u8>, E>,
    K: Key + ?Sized,
    V: Value,
    F: FnMut(&K) -> Result<(), E>,
>(map: MapModel, bytes: Seq<u8>, read: R, f: F, order: Seq<u64>, count: int)
    requires
        bytes.len() <= u64::MAX,
        file::reads_file::<E, R>(read, bytes),
        count <= order.len(),
        forall|i: int|
            0 <= i < count ==> took_visited::<E, R, K, V, F>(
                map,
                bytes.len() as u64,
                read,
                f,
                #[trigger] order[i],
            ),
    ensures
        visited::<E, K, V, F>(map, bytes, order, f, count),
{
    let file_len = bytes.len() as u64;
    assert forall|i: int| 0 <= i < count implies {
        let offset = #[trigger] order[i];
        stored_key::<K, V>(map, bytes, offset) matches Ok(encoding) && took_key::<E, K, F>(
            f,
            encoding,
        )
    } by {
        let encoding = choose|encoding: Seq<u8>| #[trigger]
            key_looked_up::<E, R, K, V>(map, order[i], file_len, read, Ok(encoding)) && took_key::<
                E,
                K,
                F,
            >(f, encoding);
        law_key_looked_up_is_stored::<E, R, K, V>(map, order[i], file_len, read, Ok(encoding));
    }
}

/// Visiting offsets, one after the other, hands on the keys that are stored there.
pub proof fn law_visit_is_true<
    E,
    R: FnMut(ReadRange) -> Result<Vec<u8>, E>,
    K: Key + ?Sized,
    V: Value,
    F: FnMut(&K) -> Result<(), E>,
>(
    map: MapModel,
    bytes: Seq<u8>,
    read: R,
    f: F,
    order: Seq<u64>,
    done: Result<(), MapError<E>>,
)
    requires
        bytes.len() <= u64::MAX,
        file::reads_file::<E, R>(read, bytes),
        visit_ends::<E, R, K, V, F>(map, bytes.len() as u64, read, f, order, done),
    ensures
        visit_is_true::<E, R, K, V, F>(map, bytes, read, f, order, done),
{
    let file_len = bytes.len() as u64;
    if done is Ok {
        lemma_taken_keys_are_stored::<E, R, K, V, F>(
            map,
            bytes,
            read,
            f,
            order,
            order.len() as int,
        );
    }
    if let Err(error) = done {
        let count = choose|count: int|
            #![trigger order[count]]
            0 <= count < order.len() && fails_at_offset::<E, R, K, V, F>(
                map,
                file_len,
                read,
                f,
                order[count],
                error,
            ) && forall|i: int|
                0 <= i < count ==> took_visited::<E, R, K, V, F>(
                    map,
                    file_len,
                    read,
                    f,
                    #[trigger] order[i],
                );
        let offset = order[count];
        lemma_taken_keys_are_stored::<E, R, K, V, F>(map, bytes, read, f, order, count);
        if key_looked_up::<E, R, K, V>(map, offset, file_len, read, Err(error)) {
            law_key_looked_up_is_stored::<E, R, K, V>(map, offset, file_len, read, Err(error));
        } else {
            let encoding = choose|encoding: Seq<u8>| #[trigger]
                key_looked_up::<E, R, K, V>(map, offset, file_len, read, Ok(encoding))
                    && refuses_key::<E, K, F>(f, encoding, error->Caller_0);
            law_key_looked_up_is_stored::<E, R, K, V>(map, offset, file_len, read, Ok(encoding));
        }
    }
}

/// Visiting all keys hands on those that are stored at the offsets in the buckets, in ascending order
/// of the offsets, unless the offsets cannot be read.
pub proof fn law_keys_are_true<
    E,
    R: FnMut(ReadRange) -> Result<Vec<u8>, E>,
    K: Key + ?Sized,
    V: Value,
    F: FnMut(&K) -> Result<(), E>,
>(map: MapModel, bytes: Seq<u8>, read: R, f: F, done: Result<(), MapError<E>>)
    requires
        bytes.len() <= u64::MAX,
        file::reads_file::<E, R>(read, bytes),
        keys_end::<E, R, K, V, F>(map, bytes.len() as u64, read, f, done),
    ensures
        ({
            ||| done matches Err(MapError::Caller(error)) && file::read_fails::<E, R>(
                read,
                universal_hashmap::bucket_range(map),
                error,
            )
            ||| exists|order: Seq<u64>| #[trigger]
                is_visiting_order(map, bytes, order) && visit_is_true::<E, R, K, V, F>(
                    map,
                    bytes,
                    read,
                    f,
                    order,
                    done,
                )
        }),
{
    let file_len = bytes.len() as u64;
    let range = universal_hashmap::bucket_range(map);
    if exists|given: Seq<u8>, order: Seq<u64>|
        #[trigger]
        file::read_gives::<E, R>(read, range, given) && #[trigger] is_order_of(given, order)
            && visit_ends::<E, R, K, V, F>(map, file_len, read, f, order, done) {
        let (given, order) = choose|given: Seq<u8>, order: Seq<u64>|
            #[trigger]
            file::read_gives::<E, R>(read, range, given) && #[trigger] is_order_of(given, order)
                && visit_ends::<E, R, K, V, F>(map, file_len, read, f, order, done);
        assert(given == range.of(bytes));
        assert(is_visiting_order(map, bytes, order));
        law_visit_is_true::<E, R, K, V, F>(map, bytes, read, f, order, done);
    }
}

/// Nothing is handed to `f` but the keys that a file holds at the offsets in its buckets, each when
/// `f` took all that are in front of it, where reads give the bytes of the file.
pub proof fn law_only_stored_keys_are_visited<
    E,
    R: FnMut(ReadRange) -> Result<Vec<u8>, E>,
    K: Key + ?Sized,
    V: Value,
    F: FnMut(&K) -> Result<(), E>,
>(map: MapModel, bytes: Seq<u8>, order: Seq<u64>, read: R, f: F, encoding: Seq<u8>)
    requires
        bytes.len() <= u64::MAX,
        is_visiting_order(map, bytes, order),
        file::reads_file::<E, R>(read, bytes),
        comes_of_visit::<E, R, K, V, F>(map, bytes.len() as u64, read, f, encoding),
    ensures
        exists|i: int|
            0 <= i < order.len() && stored_key::<K, V>(map, bytes, #[trigger] order[i]) == Ok::<
                Seq<u8>,
                DataError,
            >(encoding) && visited::<E, K, V, F>(map, bytes, order, f, i),
{
    let file_len = bytes.len() as u64;
    let range = universal_hashmap::bucket_range(map);
    let (given, taken) = choose|given: Seq<u8>, taken: Seq<u64>|
        #[trigger]
        file::read_gives::<E, R>(read, range, given) && #[trigger] is_order_of(given, taken)
            && comes_of_offsets::<E, R, K, V, F>(map, file_len, read, f, taken, encoding);
    law_visiting_order_is_unique(map, bytes, order, taken);
    let i = choose|i: int| #[trigger]
        reaches_offset::<E, R, K, V, F>(map, file_len, read, f, order, i) && key_looked_up::<
            E,
            R,
            K,
            V,
        >(map, order[i], file_len, read, Ok(encoding));
    law_key_looked_up_is_stored::<E, R, K, V>(map, order[i], file_len, read, Ok(encoding));
    lemma_taken_keys_are_stored::<E, R, K, V, F>(map, bytes, read, f, order, i);
    let offset = order[i];
}

/// All keys that a file holds are handed to `f`, in the order of their offsets, where reads give the
/// bytes of the file and never fail, `f` takes whatever it is handed, no key is damaged, and memory
/// can hold the file.
pub proof fn law_all_stored_keys_are_visited<
    E,
    R: FnMut(ReadRange) -> Result<Vec<u8>, E>,
    K: Key + ?Sized,
    V: Value,
    F: FnMut(&K) -> Result<(), E>,
>(
    map: MapModel,
    bytes: Seq<u8>,
    order: Seq<u64>,
    read: R,
    f: F,
    done: Result<(), MapError<E>>,
)
    requires
        bytes.len() <= u64::MAX,
        aligned::fits_buffer(bytes.len() as int),
        is_visiting_order(map, bytes, order),
        forall|i: int|
            0 <= i < order.len() ==> stored_key::<K, V>(map, bytes, #[trigger] order[i]) is Ok,
        file::reads_file::<E, R>(read, bytes),
        file::never_fails::<E, R>(read),
        forall|encoding: Seq<u8>, error: E|
            !(#[trigger] refuses_key::<E, K, F>(f, encoding, error)),
        keys_end::<E, R, K, V, F>(map, bytes.len() as u64, read, f, done),
    ensures
        done is Ok,
        visited::<E, K, V, F>(map, bytes, order, f, order.len() as int),
{
    let file_len = bytes.len() as u64;
    let range = universal_hashmap::bucket_range(map);
    let (given, taken) = choose|given: Seq<u8>, taken: Seq<u64>|
        #[trigger]
        file::read_gives::<E, R>(read, range, given) && #[trigger] is_order_of(given, taken)
            && visit_ends::<E, R, K, V, F>(map, file_len, read, f, taken, done);
    law_visiting_order_is_unique(map, bytes, order, taken);
    law_visit_is_true::<E, R, K, V, F>(map, bytes, read, f, order, done);
    if let Err(error) = done {
        let count = choose|count: int|
            #![trigger order[count]]
            0 <= count < order.len() && fails_at_offset::<E, R, K, V, F>(
                map,
                file_len,
                read,
                f,
                order[count],
                error,
            ) && forall|i: int|
                0 <= i < count ==> took_visited::<E, R, K, V, F>(
                    map,
                    file_len,
                    read,
                    f,
                    #[trigger] order[i],
                );
        let request = Request::<K>::Offset(order[count]);
        let kind = PartialEntryKind::KeyOnly;
        let answer = choose|answer: Result<Option<PartialModel<V>>, MapError<E>>| #[trigger]
            lookup::looked_up::<E, R, K, V>(map, request, kind, file_len, read, answer)
                && Err::<Seq<u8>, MapError<E>>(error) == key_of(answer);
        lookup::law_lookup_fails_by_read::<E, R, K, V>(
            map,
            request,
            kind,
            file_len,
            read,
            answer,
        );
        law_key_looked_up_is_stored::<E, R, K, V>(
            map,
            order[count],
            file_len,
            read,
            Err(error),
        );
    }
}

/// Where a key is found, no read has failed; and a lookup that ends with the error of a caller ends so
/// by its last read.
proof fn lemma_logged_key_fails_by_last_read<
    E,
    R: FnMut(ReadRange) -> Result<Vec<u8>, E>,
    K: Key + ?Sized,
    V: Value,
>(
    map: MapModel,
    offset: u64,
    file_len: u64,
    read: R,
    reads: Seq<ReadCall<E>>,
    key: Result<Seq<u8>, MapError<E>>,
)
    requires
        key_is_logged::<E, R, K, V>(map, offset, file_len, read, reads, key),
    ensures
        forall|i: int|
            0 <= i < reads.len() ==> ((#[trigger] reads[i]).reply matches Err(error) ==> i
                == reads.len() - 1 && key == Err::<Seq<u8>, MapError<E>>(MapError::Caller(error))),
        key matches Err(MapError::Caller(error)) ==> reads.len() > 0 && reads.last().reply == Err::<
            Seq<u8>,
            E,
        >(error),
{
    let answer = choose|answer: Result<Option<PartialModel<V>>, MapError<E>>| #[trigger]
        lookup::lookup_is_logged::<E, R, K, V>(
            map,
            Request::<K>::Offset(offset),
            PartialEntryKind::KeyOnly,
            file_len,
            read,
            reads,
            answer,
        ) && key == key_of(answer);
    lookup::law_failing_read_is_last::<E, R, K, V>(
        map,
        Request::<K>::Offset(offset),
        PartialEntryKind::KeyOnly,
        file_len,
        read,
        reads,
        answer,
    );
}

/// What a visit of offsets hands on are the keys that a file holds there, where reads give the bytes of
/// the file.
proof fn lemma_logged_visit_is_stored<
    E,
    R: FnMut(ReadRange) -> Result<Vec<u8>, E>,
    K: Key + ?Sized,
    V: Value,
>(
    map: MapModel,
    bytes: Seq<u8>,
    order: Seq<u64>,
    read: R,
    reads: Seq<Seq<ReadCall<E>>>,
    keys: Seq<Seq<u8>>,
    calls: Seq<KeyCall<E>>,
    done: Result<(), MapError<E>>,
)
    requires
        bytes.len() <= u64::MAX,
        file::reads_file::<E, R>(read, bytes),
        visit_is_logged::<E, R, K, V>(
            map,
            bytes.len() as u64,
            read,
            order,
            reads,
            keys,
            calls,
            done,
        ),
    ensures
        forall|i: int|
            0 <= i < keys.len() ==> stored_key::<K, V>(map, bytes, order[i]) == Ok::<
                Seq<u8>,
                DataError,
            >(#[trigger] keys[i]),
        done matches Err(MapError::Data(error)) ==> keys.len() < order.len() && (stored_key::<K, V>(
            map,
            bytes,
            order[keys.len() as int],
        ) == Err::<Seq<u8>, DataError>(error) || error == DataError::TooLarge
            && !aligned::fits_buffer(bytes.len() as int)),
{
    let file_len = bytes.len() as u64;
    assert forall|i: int| 0 <= i < keys.len() implies stored_key::<K, V>(map, bytes, order[i])
        == Ok::<Seq<u8>, DataError>(#[trigger] keys[i]) by {
        let key = Ok::<Seq<u8>, MapError<E>>(keys[i]);
        assert(is_key_at::<E, R, K, V>(map, file_len, read, order, reads, keys, i));
        lemma_logged_key_is_looked_up::<E, R, K, V>(map, order[i], file_len, read, reads[i], key);
        law_key_looked_up_is_stored::<E, R, K, V>(map, order[i], file_len, read, key);
    }
    if let Err(MapError::Data(error)) = done {
        let offset = order[keys.len() as int];
        let key = Err::<Seq<u8>, MapError<E>>(MapError::Data(error));
        lemma_logged_key_is_looked_up::<E, R, K, V>(
            map,
            offset,
            file_len,
            read,
            reads.last(),
            key,
        );
        law_key_looked_up_is_stored::<E, R, K, V>(map, offset, file_len, read, key);
    }
}

/// A read that fails ends a visit of offsets with its error, and nothing is read behind it.
proof fn lemma_logged_visit_fails_by_last_read<
    E,
    R: FnMut(ReadRange) -> Result<Vec<u8>, E>,
    K: Key + ?Sized,
    V: Value,
>(
    map: MapModel,
    file_len: u64,
    order: Seq<u64>,
    read: R,
    reads: Seq<Seq<ReadCall<E>>>,
    keys: Seq<Seq<u8>>,
    calls: Seq<KeyCall<E>>,
    done: Result<(), MapError<E>>,
)
    requires
        visit_is_logged::<E, R, K, V>(map, file_len, read, order, reads, keys, calls, done),
    ensures
        ({
            let all = reads.flatten_alt();
            &&& forall|i: int|
                0 <= i < all.len() ==> ((#[trigger] all[i]).reply matches Err(error) ==> i
                    == all.len() - 1 && done == Err::<(), MapError<E>>(MapError::Caller(error)))
            &&& done matches Err(MapError::Caller(error)) ==> (calls.len() > 0
                && calls.last().answer == Err::<(), E>(error)) || (all.len() > 0
                && all.last().reply == Err::<Seq<u8>, E>(error))
        }),
{
    let fine = reads.take(keys.len() as int);
    assert forall|i: int, j: int| 0 <= i < fine.len() && 0 <= j < fine[i].len() implies (
    #[trigger] fine[i][j]).reply is Ok by {
        assert(is_key_at::<E, R, K, V>(map, file_len, read, order, reads, keys, i));
        lemma_logged_key_fails_by_last_read::<E, R, K, V>(
            map,
            order[i],
            file_len,
            read,
            reads[i],
            Ok(keys[i]),
        );
        let call = reads[i][j];
    }
    record::lemma_no_part_fails(fine);
    if reads.len() == keys.len() {
        assert(fine == reads);
    } else {
        let last = reads.last();
        lemma_logged_key_fails_by_last_read::<E, R, K, V>(
            map,
            order[keys.len() as int],
            file_len,
            read,
            last,
            Err(done->Err_0),
        );
        assert(reads == fine.push(last));
        record::lemma_parts_go_on(fine, last);
        let all = reads.flatten_alt();
        let len = fine.flatten_alt().len();
        assert forall|i: int| 0 <= i < all.len() implies ((
        #[trigger] all[i]).reply matches Err(error) ==> i == all.len() - 1 && done == Err::<
            (),
            MapError<E>,
        >(MapError::Caller(error))) by {
            if i < len {
                assert(all[i] == fine.flatten_alt()[i]);
            } else {
                assert(all[i] == last[i - len]);
            }
        }
        if done->Err_0 is Caller {
            assert(all.last() == last.last());
        }
    }
}

/// What a visit hands on are the keys that a file holds at the offsets in its buckets, where reads
/// give the bytes of the file: one call for each, in ascending order of the offsets, up to the first
/// that is answered with an error. A visit that ends well has handed all of them on. The error of any
/// call, and of any read, ends the visit with that error, and nothing is called behind it.
pub proof fn law_recorded_keys_are_stored<
    E,
    R: FnMut(ReadRange) -> Result<Vec<u8>, E>,
    K: Key + ?Sized,
    V: Value,
>(
    map: MapModel,
    bytes: Seq<u8>,
    order: Seq<u64>,
    read: R,
    reads: Seq<ReadCall<E>>,
    calls: Seq<KeyCall<E>>,
    done: Result<(), MapError<E>>,
)
    requires
        bytes.len() <= u64::MAX,
        is_visiting_order(map, bytes, order),
        file::reads_file::<E, R>(read, bytes),
        keys_are_logged::<E, R, K, V>(map, bytes.len() as u64, read, reads, calls, done),
    ensures
        calls.len() <= order.len(),
        forall|i: int|
            #![trigger calls[i]]
            0 <= i < calls.len() ==> stored_key::<K, V>(map, bytes, order[i]) == Ok::<
                Seq<u8>,
                DataError,
            >(calls[i].key),
        done is Ok ==> calls.len() == order.len(),
        forall|i: int|
            0 <= i < calls.len() ==> ((#[trigger] calls[i]).answer matches Err(error) ==> i
                == calls.len() - 1 && done == Err::<(), MapError<E>>(MapError::Caller(error))),
        forall|i: int|
            0 <= i < reads.len() ==> ((#[trigger] reads[i]).reply matches Err(error) ==> i
                == reads.len() - 1 && done == Err::<(), MapError<E>>(MapError::Caller(error))),
        done matches Err(MapError::Caller(error)) ==> (calls.len() > 0 && calls.last().answer
            == Err::<(), E>(error)) || (reads.len() > 0 && reads.last().reply == Err::<Seq<u8>, E>(
            error,
        )),
        done matches Err(MapError::Data(error)) ==> calls.len() < order.len() && (stored_key::<
            K,
            V,
        >(map, bytes, order[calls.len() as int]) == Err::<Seq<u8>, DataError>(error) || error
            == DataError::TooLarge && !aligned::fits_buffer(bytes.len() as int)),
{
    let file_len = bytes.len() as u64;
    let range = universal_hashmap::bucket_range(map);
    if let Ok(given) = reads[0].reply {
        assert(given == range.of(bytes));
        let (taken, later, keys) = choose|
            taken: Seq<u64>,
            later: Seq<Seq<ReadCall<E>>>,
            keys: Seq<Seq<u8>>,
        |
            #[trigger]
            is_order_of(given, taken) && reads.skip(1) == #[trigger] later.flatten_alt()
                && #[trigger] visit_is_logged::<E, R, K, V>(
                map,
                file_len,
                read,
                taken,
                later,
                keys,
                calls,
                done,
            );
        assert(is_visiting_order(map, bytes, taken));
        law_visiting_order_is_unique(map, bytes, order, taken);
        lemma_logged_visit_is_stored::<E, R, K, V>(
            map,
            bytes,
            order,
            read,
            later,
            keys,
            calls,
            done,
        );
        lemma_logged_visit_fails_by_last_read::<E, R, K, V>(
            map,
            file_len,
            order,
            read,
            later,
            keys,
            calls,
            done,
        );
        let all = later.flatten_alt();
        assert(reads.len() == all.len() + 1);
        assert forall|i: int| 0 <= i < reads.len() implies ((
        #[trigger] reads[i]).reply matches Err(error) ==> i == reads.len() - 1 && done == Err::<
            (),
            MapError<E>,
        >(MapError::Caller(error))) by {
            if i > 0 {
                assert(reads[i] == all[i - 1]);
            }
        }
        assert(all.len() > 0 ==> reads.last() == all.last());
    }
}

/// A visit of all keys that ends well hands on just as many keys as the hash map has, if the file holds
/// all their offsets.
pub proof fn law_recorded_keys_are_counted<
    E,
    R: FnMut(ReadRange) -> Result<Vec<u8>, E>,
    K: Key + ?Sized,
    V: Value,
>(
    map: &UniversalHashMap<K, V>,
    bytes: Seq<u8>,
    order: Seq<u64>,
    read: R,
    reads: Seq<ReadCall<E>>,
    calls: Seq<KeyCall<E>>,
)
    requires
        map.wf(),
        map@.entries_start <= bytes.len() <= u64::MAX,
        is_visiting_order(map@, bytes, order),
        file::reads_file::<E, R>(read, bytes),
        keys_are_logged::<E, R, K, V>(map@, bytes.len() as u64, read, reads, calls, Ok(())),
    ensures
        calls.len() == map@.buckets_count,
        forall|i: int| 0 <= i < calls.len() ==> (#[trigger] calls[i]).answer is Ok,
{
    law_keys_count_is_visited(map, bytes, order);
    law_recorded_keys_are_stored::<E, R, K, V>(map@, bytes, order, read, reads, calls, Ok(()));
}

impl<K: Key + ?Sized, V: Value> UniversalHashMap<K, V> {
    /// Hands each key on, in the order in which they are stored, as
    /// [`UniversalHashMap::for_each_key`] does. The logs of the two functions tell how.
    pub fn for_each_key_recorded<
        E,
        R: FnMut(ReadRange) -> Result<Vec<u8>, E>,
        F: FnMut(&K) -> Result<(), E>,
    >(
        &self,
        file_len: u64,
        read: &mut Recorded<R, ReadCall<E>>,
        f: &mut Recorded<F, KeyCall<E>>,
    ) -> (done: Result<(), MapError<E>>)
        requires
            self.wf(),
            old(read).wf(),
            old(read).log().len() == 0,
            old(f).wf(),
            old(f).log().len() == 0,
            may_visit::<E, R, K, V, F>(self@, file_len, old(read).function(), old(f).function()),
        ensures
            final(read).wf(),
            final(read).function() == old(read).function(),
            final(f).wf(),
            final(f).function() == old(f).function(),
            keys_end::<E, R, K, V, F>(
                self@,
                file_len,
                old(read).function(),
                old(f).function(),
                done,
            ),
            keys_are_logged::<E, R, K, V>(
                self@,
                file_len,
                old(read).function(),
                final(read).log(),
                final(f).log(),
                done,
            ),
    {
        let ghost reader = read.function();
        let ghost taker = f.function();
        assert(allow_visit::<E, R, K, V, F>(self@, file_len, reader, taker));
        let range = self.bucket_range();
        let bytes = match read.read(range) {
            Ok(bytes) => bytes,
            Err(error) => {
                assert(file::read_fails::<E, R>(reader, range, error));
                return Err(MapError::Caller(error));
            },
        };
        assert(call_ensures(reader, (range,), Ok::<Vec<u8>, E>(bytes)));
        assert(file::read_gives::<E, R>(reader, range, bytes@));
        let offsets = visiting_order(&bytes);
        assert(may_visit_offsets::<E, R, K, V, F>(self@, file_len, reader, taker, offsets@));
        let ghost first = read.log();
        let done = self.visit(&offsets, file_len, read, f);
        proof {
            assert(read.log()[0] == first[0]) by {
                assert(read.log().take(1)[0] == first[0]);
            }
            assert(read.log().skip(1) == record::since(first, read.log()));
            let (later, keys) = choose|later: Seq<Seq<ReadCall<E>>>, keys: Seq<Seq<u8>>|
                record::since(first, read.log()) == #[trigger] later.flatten_alt()
                    && #[trigger] visit_is_logged::<E, R, K, V>(
                    self@,
                    file_len,
                    reader,
                    offsets@,
                    later,
                    keys,
                    f.log(),
                    done,
                );
            let opening = read.log()[0];
            assert(opening.range == universal_hashmap::bucket_range(self@));
            assert(opening.reply == Ok::<Seq<u8>, E>(bytes@));
            assert(file::read_gives::<E, R>(reader, opening.range, bytes@));
            assert(is_order_of(bytes@, offsets@) && read.log().skip(1) == later.flatten_alt()
                && visit_is_logged::<E, R, K, V>(
                self@,
                file_len,
                reader,
                offsets@,
                later,
                keys,
                f.log(),
                done,
            ));
        }
        done
    }

    /// Looks the keys at the offsets up, one after the other, and hands them to `f`.
    fn visit<E, R: FnMut(ReadRange) -> Result<Vec<u8>, E>, F: FnMut(&K) -> Result<(), E>>(
        &self,
        offsets: &Vec<u64>,
        file_len: u64,
        read: &mut Recorded<R, ReadCall<E>>,
        f: &mut Recorded<F, KeyCall<E>>,
    ) -> (done: Result<(), MapError<E>>)
        requires
            self.wf(),
            old(read).wf(),
            old(f).wf(),
            old(f).log().len() == 0,
            may_visit_offsets::<E, R, K, V, F>(
                self@,
                file_len,
                old(read).function(),
                old(f).function(),
                offsets@,
            ),
        ensures
            final(read).wf(),
            final(read).function() == old(read).function(),
            final(f).wf(),
            final(f).function() == old(f).function(),
            visit_ends::<E, R, K, V, F>(
                self@,
                file_len,
                old(read).function(),
                old(f).function(),
                offsets@,
                done,
            ),
            record::goes_on(old(read).log(), final(read).log()),
            exists|reads: Seq<Seq<ReadCall<E>>>, keys: Seq<Seq<u8>>|
                record::since(old(read).log(), final(read).log()) == #[trigger] reads.flatten_alt()
                    && #[trigger] visit_is_logged::<E, R, K, V>(
                    self@,
                    file_len,
                    old(read).function(),
                    offsets@,
                    reads,
                    keys,
                    final(f).log(),
                    done,
                ),
    {
        let ghost reader = read.function();
        let ghost taker = f.function();
        let ghost earlier = read.log();
        let ghost mut reads: Seq<Seq<ReadCall<E>>> = Seq::empty();
        let ghost mut keys: Seq<Seq<u8>> = Seq::empty();
        assert(f.log() == key_calls::<E>(keys));
        assert(read.log().take(earlier.len() as int) == earlier);
        assert(record::since(earlier, read.log()) == reads.flatten_alt());
        let mut i: usize = 0;
        while i < offsets.len()
            invariant
                self.wf(),
                may_visit_offsets::<E, R, K, V, F>(self@, file_len, reader, taker, offsets@),
                read.wf(),
                read.function() == reader,
                reader == old(read).function(),
                earlier == old(read).log(),
                f.wf(),
                f.function() == taker,
                taker == old(f).function(),
                i <= offsets@.len(),
                keys.len() == i,
                reads.len() == i,
                f.log() == key_calls::<E>(keys),
                record::goes_on(earlier, read.log()),
                record::since(earlier, read.log()) == reads.flatten_alt(),
                forall|j: int|
                    0 <= j < i ==> #[trigger] is_key_at::<E, R, K, V>(
                        self@,
                        file_len,
                        reader,
                        offsets@,
                        reads,
                        keys,
                        j,
                    ),
                forall|j: int|
                    0 <= j < i ==> took_visited::<E, R, K, V, F>(
                        self@,
                        file_len,
                        reader,
                        taker,
                        #[trigger] offsets@[j],
                    ),
            decreases offsets@.len() - i,
        {
            proof {
                K::law_layout();
            }
            let request = Request::Offset(offsets[i]);
            let ghost offset = offsets@[i as int];
            assert(reaches_offset::<E, R, K, V, F>(
                self@,
                file_len,
                reader,
                taker,
                offsets@,
                i as int,
            ));
            let ghost asked = read.log();
            let answer = self.answer(PartialEntryKind::KeyOnly, file_len, request, read);
            let ghost made = record::since(asked, read.log());
            let ghost reads_before = reads;
            let ghost keys_before = keys;
            proof {
                let key = key_of(universal_hashmap::answer_model(answer));
                assert(key_looked_up::<E, R, K, V>(self@, offset, file_len, reader, key));
                assert(key_is_logged::<E, R, K, V>(self@, offset, file_len, reader, made, key));
                reads = reads.push(made);
                assert(reads.drop_last() == reads_before);
                record::lemma_log_goes_on(earlier, asked, read.log());
                assert(record::since(earlier, read.log()) == reads.flatten_alt());
                if let Ok(found) = key {
                    keys = keys.push(found);
                    assert(keys.drop_last() == keys_before);
                }
                assert forall|j: int| 0 <= j < keys.len() implies #[trigger] is_key_at::<
                    E,
                    R,
                    K,
                    V,
                >(self@, file_len, reader, offsets@, reads, keys, j) by {
                    if j < i {
                        assert(is_key_at::<E, R, K, V>(
                            self@,
                            file_len,
                            reader,
                            offsets@,
                            reads_before,
                            keys_before,
                            j,
                        ));
                    }
                }
            }
            match answer {
                Ok(Some(PartialEntry::KeyOnly(key))) => {
                    let borrowed = K::borrow(&key);
                    let ghost encoding = K::owned_encoding(key);
                    assert(key_looked_up::<E, R, K, V>(
                        self@,
                        offset,
                        file_len,
                        reader,
                        Ok(encoding),
                    ));
                    assert(comes_of_offsets::<E, R, K, V, F>(
                        self@,
                        file_len,
                        reader,
                        taker,
                        offsets@,
                        borrowed.encoding(),
                    ));
                    match f.take_key(borrowed) {
                        Ok(unit) => {
                            assert(unit == ());
                            assert(call_ensures(taker, (borrowed,), Ok::<(), E>(())));
                            assert(took_key::<E, K, F>(taker, encoding));
                        },
                        Err(error) => {
                            assert(call_ensures(taker, (borrowed,), Err::<(), E>(error)));
                            assert(refuses_key::<E, K, F>(taker, encoding, error));
                            assert(fails_at_offset::<E, R, K, V, F>(
                                self@,
                                file_len,
                                reader,
                                taker,
                                offsets@[i as int],
                                MapError::Caller(error),
                            ));
                            assert(keys.drop_last() == keys_before);
                            assert(visit_is_logged::<E, R, K, V>(
                                self@,
                                file_len,
                                reader,
                                offsets@,
                                reads,
                                keys,
                                f.log(),
                                Err(MapError::Caller(error)),
                            ));
                            return Err(MapError::Caller(error));
                        },
                    }
                },
                Ok(_) => {
                    assert(false);
                },
                Err(error) => {
                    assert(fails_at_offset::<E, R, K, V, F>(
                        self@,
                        file_len,
                        reader,
                        taker,
                        offsets@[i as int],
                        error,
                    ));
                    assert(visit_is_logged::<E, R, K, V>(
                        self@,
                        file_len,
                        reader,
                        offsets@,
                        reads,
                        keys,
                        f.log(),
                        Err(error),
                    ));
                    return Err(error);
                },
            }
            assert(f.log() == key_calls::<E>(keys));
            i = i + 1;
        }
        assert(visit_is_logged::<E, R, K, V>(
            self@,
            file_len,
            reader,
            offsets@,
            reads,
            keys,
            f.log(),
            Ok(()),
        ));
        Ok(())
    }
}

/// Where the buckets hold these offsets, each as its eight bytes in memory, the keys are visited at
/// just these offsets, each as often as it is there, in ascending order.
pub proof fn law_stored_offsets_are_visited(bytes: Seq<u8>, offsets: Seq<u64>, order: Seq<u64>)
    requires
        bytes.len() == 8 * offsets.len(),
        forall|i: int|
            0 <= i < offsets.len() ==> bytes.subrange(8 * i, 8 * i + 8) == native::native_bytes(
                #[trigger] offsets[i] as nat,
                8,
            ),
    ensures
        is_order_of(bytes, order) <==> {
            &&& order.to_multiset() == offsets.to_multiset()
            &&& forall|i: int, j: int| 0 <= i < j < order.len() ==> order[i] <= order[j]
        },
{
    native::lemma_byte_values();
    assert forall|i: int| 0 <= i < offsets.len() implies offsets_in(bytes)[i] == offsets[i] by {
        native::law_value_of_bytes(offsets[i] as nat, 8);
    }
    assert(offsets_in(bytes) == offsets);
}

/// There is only one order in which keys are visited.
pub proof fn law_visiting_order_is_unique(
    map: MapModel,
    bytes: Seq<u8>,
    order: Seq<u64>,
    other: Seq<u64>,
)
    requires
        is_visiting_order(map, bytes, order),
        is_visiting_order(map, bytes, other),
    ensures
        order == other,
{
    let leq = |a: u64, b: u64| a <= b;
    assert(vstd::relations::sorted_by(order, leq));
    assert(vstd::relations::sorted_by(other, leq));
    vstd::seq_lib::lemma_sorted_unique(order, other, leq);
}

/// A key is visited at the offset at which its entry is stored.
pub proof fn law_stored_key_is_visited<'a, K: Key + ?Sized, V: Value>(
    map: MapModel,
    file: Seq<u8>,
    offset: u64,
    stored: StoredEntry<'a, K, V>,
)
    requires
        map.entries_start + offset <= u64::MAX,
        lookup::holds_entry(
            file,
            map.entries_start + offset,
            stored,
            PartialEntryKind::KeyOnly,
        ),
        stored.key.encoding().len() <= usize::MAX,
    ensures
        stored_key::<K, V>(map, file, offset) == Ok::<Seq<u8>, DataError>(stored.key.encoding()),
{
    lookup::law_stored_offset_is_looked_up(map, file, offset, stored, PartialEntryKind::KeyOnly);
}

/// As many keys are visited as the hash map has, if the file holds all their offsets.
pub proof fn law_keys_count_is_visited<K: Key + ?Sized, V: Value>(
    map: &UniversalHashMap<K, V>,
    file: Seq<u8>,
    order: Seq<u64>,
)
    requires
        map.wf(),
        map@.entries_start <= file.len(),
        is_visiting_order(map@, file, order),
    ensures
        order.len() == map@.buckets_count,
{
    let offsets = offsets_in(universal_hashmap::bucket_range(map@).of(file));
    map.law_entries_behind_buckets();
    order.to_multiset_ensures();
    offsets.to_multiset_ensures();
}

} // verus!
