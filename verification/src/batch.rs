//! Looking up many keys at once.

use crate::aligned;
use crate::file;
use crate::file::{DataError, MapError, ReadRange};
use crate::keys::Key;
use crate::lookup;
use crate::phf;
use crate::record;
pub use crate::record::seq_of_slice;
use crate::record::{AnswerCall, ReadCall, Recorded};
use crate::sparse::Request;
use crate::state::PartialEntryKind;
use crate::universal_hashmap;
use crate::universal_hashmap::{MapModel, UniversalHashMap};
use crate::values::Value;
use std::collections::VecDeque;
use vstd::prelude::*;

verus! {

/// Whether `f` took the answer to the request that its caller knows by `meta`.
pub open spec fn took_values<
    E,
    Meta,
    V,
    F: FnMut(Meta, Option<&[V]>) -> Result<(), E>,
>(f: F, meta: Meta, values: Option<Seq<V>>) -> bool {
    exists|slice: Option<&[V]>| #[trigger]
        call_ensures(f, (meta, slice), Ok::<(), E>(())) && seq_of_slice(slice) == values
}

/// Whether `f` can fail with `error` when it is handed the answer to the request that its caller
/// knows by `meta`.
pub open spec fn refuses_values<
    E,
    Meta,
    V,
    F: FnMut(Meta, Option<&[V]>) -> Result<(), E>,
>(f: F, meta: Meta, values: Option<Seq<V>>, error: E) -> bool {
    exists|slice: Option<&[V]>| #[trigger]
        call_ensures(f, (meta, slice), Err::<(), E>(error)) && seq_of_slice(slice) == values
}

/// Whether the values of a key have been looked up, and `f` took them.
pub open spec fn took_looked_up<
    'k,
    E,
    Meta,
    R: FnMut(ReadRange) -> Result<Vec<u8>, E>,
    K: Key + ?Sized,
    V: Value,
    F: FnMut(Meta, Option<&[V]>) -> Result<(), E>,
>(map: MapModel, file_len: u64, read: R, f: F, wanted: (Meta, &'k K)) -> bool {
    exists|values: Option<Seq<V>>| #[trigger]
        universal_hashmap::values_looked_up::<E, R, K, V>(map, wanted.1, file_len, read, Ok(values))
            && took_values::<E, Meta, V, F>(f, wanted.0, values)
}

/// Whether the work on a key ends with `error`: its lookup fails, or `f` refuses what it gave.
pub open spec fn fails_at_key<
    'k,
    E,
    Meta,
    R: FnMut(ReadRange) -> Result<Vec<u8>, E>,
    K: Key + ?Sized,
    V: Value,
    F: FnMut(Meta, Option<&[V]>) -> Result<(), E>,
>(map: MapModel, file_len: u64, read: R, f: F, wanted: (Meta, &'k K), error: MapError<E>) -> bool {
    ||| universal_hashmap::values_looked_up::<E, R, K, V>(map, wanted.1, file_len, read, Err(error))
    ||| error matches MapError::Caller(error) && exists|values: Option<Seq<V>>| #[trigger]
        universal_hashmap::values_looked_up::<E, R, K, V>(map, wanted.1, file_len, read, Ok(values))
            && refuses_values::<E, Meta, V, F>(f, wanted.0, values, error)
}

/// Whether the keys have been looked up, one after the other, and `f` took what that gave, up to
/// the first key at which the work ends with an error.
pub open spec fn batch_ends<
    'k,
    E,
    Meta,
    R: FnMut(ReadRange) -> Result<Vec<u8>, E>,
    K: Key + ?Sized,
    V: Value,
    F: FnMut(Meta, Option<&[V]>) -> Result<(), E>,
>(
    map: MapModel,
    file_len: u64,
    read: R,
    f: F,
    keys: Seq<(Meta, &'k K)>,
    done: Result<(), MapError<E>>,
) -> bool {
    match done {
        Ok(()) => forall|i: int|
            0 <= i < keys.len() ==> took_looked_up::<E, Meta, R, K, V, F>(
                map,
                file_len,
                read,
                f,
                #[trigger] keys[i],
            ),
        Err(error) => exists|count: int|
            #![trigger keys[count]]
            0 <= count < keys.len() && fails_at_key::<E, Meta, R, K, V, F>(
                map,
                file_len,
                read,
                f,
                keys[count],
                error,
            ) && forall|i: int|
                0 <= i < count ==> took_looked_up::<E, Meta, R, K, V, F>(
                    map,
                    file_len,
                    read,
                    f,
                    #[trigger] keys[i],
                ),
    }
}

/// Whether the work comes to the key of number `i`: those in front of it have been looked up, and
/// `f` took what that gave.
pub open spec fn reaches_key<
    'k,
    E,
    Meta,
    R: FnMut(ReadRange) -> Result<Vec<u8>, E>,
    K: Key + ?Sized,
    V: Value,
    F: FnMut(Meta, Option<&[V]>) -> Result<(), E>,
>(map: MapModel, file_len: u64, read: R, f: F, keys: Seq<(Meta, &'k K)>, i: int) -> bool {
    &&& 0 <= i < keys.len()
    &&& forall|j: int|
        0 <= j < i ==> took_looked_up::<E, Meta, R, K, V, F>(
            map,
            file_len,
            read,
            f,
            #[trigger] keys[j],
        )
}

/// Whether `f` is to be handed these values with `meta`: they are what comes of a lookup of a key
/// that goes by that name, and `f` took what came of those in front of it.
pub open spec fn comes_of_batch<
    'k,
    E,
    Meta,
    R: FnMut(ReadRange) -> Result<Vec<u8>, E>,
    K: Key + ?Sized,
    V: Value,
    F: FnMut(Meta, Option<&[V]>) -> Result<(), E>,
>(
    map: MapModel,
    file_len: u64,
    read: R,
    f: F,
    keys: Seq<(Meta, &'k K)>,
    meta: Meta,
    values: Option<Seq<V>>,
) -> bool {
    exists|i: int| #[trigger]
        reaches_key::<E, Meta, R, K, V, F>(map, file_len, read, f, keys, i) && keys[i].0 == meta
            && universal_hashmap::values_looked_up::<E, R, K, V>(
            map,
            keys[i].1,
            file_len,
            read,
            Ok(values),
        )
}

/// Whether `read` may be called on the ranges that the lookups of the keys ask for, each when the
/// work comes to its key, and `f` may be called on what they give. Neither is called on anything
/// else.
pub open spec fn allow_batch<
    'k,
    E,
    Meta,
    R: FnMut(ReadRange) -> Result<Vec<u8>, E>,
    K: Key + ?Sized,
    V: Value,
    F: FnMut(Meta, Option<&[V]>) -> Result<(), E>,
>(map: MapModel, file_len: u64, read: R, f: F, keys: Seq<(Meta, &'k K)>) -> bool {
    &&& forall|i: int| #[trigger]
        reaches_key::<E, Meta, R, K, V, F>(map, file_len, read, f, keys, i) ==> lookup::allows_lookup::<
            E,
            R,
            K,
            V,
        >(map, Request::Key(keys[i].1), PartialEntryKind::KeyAndValues(1), file_len, read)
    &&& forall|meta: Meta, values: Option<&[V]>|
        comes_of_batch::<E, Meta, R, K, V, F>(
            map,
            file_len,
            read,
            f,
            keys,
            meta,
            seq_of_slice(values),
        ) ==> #[trigger] call_requires(f, (meta, values))
}

/// Whether the two functions [`allow_batch`]. [`law_functions_may_batch`] shows it.
pub closed spec fn may_batch_keys<
    'k,
    E,
    Meta,
    R: FnMut(ReadRange) -> Result<Vec<u8>, E>,
    K: Key + ?Sized,
    V: Value,
    F: FnMut(Meta, Option<&[V]>) -> Result<(), E>,
>(map: MapModel, file_len: u64, read: R, f: F, keys: Seq<(Meta, &'k K)>) -> bool {
    allow_batch::<E, Meta, R, K, V, F>(map, file_len, read, f, keys)
}

/// Whether `f` may be called on every answer.
pub open spec fn takes_all_answers<E, Meta, V, F: FnMut(Meta, Option<&[V]>) -> Result<(), E>>(
    f: F,
) -> bool {
    forall|meta: Meta, values: Option<&[V]>| call_requires(f, (meta, values))
}

/// Whether the keys may be looked up with these functions: both may be called on everything, or on
/// what they are called on.
pub open spec fn may_batch<
    'k,
    E,
    Meta,
    R: FnMut(ReadRange) -> Result<Vec<u8>, E>,
    K: Key + ?Sized,
    V: Value,
    F: FnMut(Meta, Option<&[V]>) -> Result<(), E>,
>(map: MapModel, file_len: u64, read: R, f: F, keys: Seq<(Meta, &'k K)>) -> bool {
    ||| file::reads_all::<E, R>(read) && takes_all_answers::<E, Meta, V, F>(f)
    ||| may_batch_keys::<E, Meta, R, K, V, F>(map, file_len, read, f, keys)
}

/// Functions that allow all calls of a batch may be used for it.
pub proof fn law_functions_may_batch<
    'k,
    E,
    Meta,
    R: FnMut(ReadRange) -> Result<Vec<u8>, E>,
    K: Key + ?Sized,
    V: Value,
    F: FnMut(Meta, Option<&[V]>) -> Result<(), E>,
>(map: MapModel, file_len: u64, read: R, f: F, keys: Seq<(Meta, &'k K)>)
    requires
        allow_batch::<E, Meta, R, K, V, F>(map, file_len, read, f, keys),
    ensures
        may_batch::<E, Meta, R, K, V, F>(map, file_len, read, f, keys),
{
}

/// The calls with which answers are handed on, one for each of the first keys, in their order, if all
/// are taken.
pub open spec fn answer_calls<'k, E, Meta, K: ?Sized, V>(
    keys: Seq<(Meta, &'k K)>,
    answers: Seq<Option<Seq<V>>>,
) -> Seq<AnswerCall<Meta, V, E>> {
    Seq::new(
        answers.len(),
        |i: int| AnswerCall { meta: keys[i].0, values: answers[i], answer: Ok::<(), E>(()) },
    )
}

/// Whether the key of number `i` is looked up by the reads of number `i`.
pub open spec fn is_answer_of<
    'k,
    E,
    Meta,
    R: FnMut(ReadRange) -> Result<Vec<u8>, E>,
    K: Key + ?Sized,
    V: Value,
>(
    map: MapModel,
    file_len: u64,
    read: R,
    keys: Seq<(Meta, &'k K)>,
    reads: Seq<Seq<ReadCall<E>>>,
    answers: Seq<Option<Seq<V>>>,
    i: int,
) -> bool {
    universal_hashmap::values_are_logged::<E, R, K, V>(
        map,
        keys[i].1,
        file_len,
        read,
        reads[i],
        Ok(answers[i]),
    )
}

/// Whether these are all reads, in one part for each key that is looked up, and all calls of a batch
/// that finds `answers` and ends with `done`: each key is looked up once, in its order, and each
/// answer is handed on once, with its own name. A lookup that fails, and a call that is answered
/// with an error, is the last.
pub open spec fn batch_is_logged<
    'k,
    E,
    Meta,
    R: FnMut(ReadRange) -> Result<Vec<u8>, E>,
    K: Key + ?Sized,
    V: Value,
>(
    map: MapModel,
    file_len: u64,
    read: R,
    keys: Seq<(Meta, &'k K)>,
    reads: Seq<Seq<ReadCall<E>>>,
    answers: Seq<Option<Seq<V>>>,
    calls: Seq<AnswerCall<Meta, V, E>>,
    done: Result<(), MapError<E>>,
) -> bool {
    &&& answers.len() <= keys.len()
    &&& answers.len() <= reads.len()
    &&& forall|i: int|
        0 <= i < answers.len() ==> #[trigger] is_answer_of::<E, Meta, R, K, V>(
            map,
            file_len,
            read,
            keys,
            reads,
            answers,
            i,
        )
    &&& match done {
        Ok(()) => {
            &&& answers.len() == keys.len()
            &&& reads.len() == answers.len()
            &&& calls == answer_calls::<E, Meta, K, V>(keys, answers)
        },
        Err(error) => {
            ||| {
                &&& answers.len() < keys.len()
                &&& reads.len() == answers.len() + 1
                &&& universal_hashmap::values_are_logged::<E, R, K, V>(
                    map,
                    keys[answers.len() as int].1,
                    file_len,
                    read,
                    reads.last(),
                    Err(error),
                )
                &&& calls == answer_calls::<E, Meta, K, V>(keys, answers)
            }
            ||| {
                &&& error is Caller
                &&& answers.len() > 0
                &&& reads.len() == answers.len()
                &&& calls == answer_calls::<E, Meta, K, V>(keys, answers.drop_last()).push(
                    AnswerCall {
                        meta: keys[answers.len() - 1].0,
                        values: answers.last(),
                        answer: Err(error->Caller_0),
                    },
                )
            }
        },
    }
}

/// Whether the first `count` keys have been answered by what `bytes` hold.
pub open spec fn answered<
    'k,
    E,
    Meta,
    K: Key + ?Sized,
    V: Value,
    F: FnMut(Meta, Option<&[V]>) -> Result<(), E>,
>(map: MapModel, bytes: Seq<u8>, keys: Seq<(Meta, &'k K)>, f: F, count: int) -> bool {
    forall|i: int|
        0 <= i < count ==> {
            let (meta, key) = #[trigger] keys[i];
            let stored = universal_hashmap::stored_values::<K, V>(map, bytes, key);
            stored matches Ok(values) && took_values(f, meta, values)
        }
}

/// Whether `f` was handed what `bytes` hold under the keys, one after the other, up to the first
/// key whose values are damaged, or refused by `f`, or not to be read.
pub open spec fn batch_is_true<
    'k,
    E,
    Meta,
    R: FnMut(ReadRange) -> Result<Vec<u8>, E>,
    K: Key + ?Sized,
    V: Value,
    F: FnMut(Meta, Option<&[V]>) -> Result<(), E>,
>(
    map: MapModel,
    bytes: Seq<u8>,
    read: R,
    f: F,
    keys: Seq<(Meta, &'k K)>,
    done: Result<(), MapError<E>>,
) -> bool {
    match done {
        Ok(()) => answered(map, bytes, keys, f, keys.len() as int),
        Err(error) => exists|count: int|
            #![trigger keys[count]]
            0 <= count < keys.len() && answered(map, bytes, keys, f, count) && {
                let (meta, key) = keys[count];
                let stored = universal_hashmap::stored_values::<K, V>(map, bytes, key);
                match error {
                    MapError::Data(error) => stored == Err::<Option<Seq<V>>, DataError>(error)
                        || error == DataError::TooLarge && !aligned::fits_buffer(
                        bytes.len() as int,
                    ),
                    MapError::Caller(error) => {
                        ||| stored matches Ok(values) && refuses_values::<E, Meta, V, F>(
                            f,
                            meta,
                            values,
                            error,
                        )
                        ||| universal_hashmap::values_looked_up::<E, R, K, V>(
                            map,
                            key,
                            bytes.len() as u64,
                            read,
                            Err(MapError::Caller(error)),
                        )
                    },
                }
            },
    }
}

/// What has been looked up, and taken by `f`, is what is stored under the keys.
proof fn lemma_taken_values_are_stored<
    'k,
    E,
    Meta,
    R: FnMut(ReadRange) -> Result<Vec<u8>, E>,
    K: Key + ?Sized,
    V: Value,
    F: FnMut(Meta, Option<&[V]>) -> Result<(), E>,
>(map: MapModel, bytes: Seq<u8>, read: R, f: F, keys: Seq<(Meta, &'k K)>, count: int)
    requires
        PartialEntryKind::KeyAndValues(1).spec_est_size::<K, V>() <= usize::MAX,
        bytes.len() <= u64::MAX,
        file::reads_file::<E, R>(read, bytes),
        count <= keys.len(),
        forall|i: int|
            0 <= i < count ==> took_looked_up::<E, Meta, R, K, V, F>(
                map,
                bytes.len() as u64,
                read,
                f,
                #[trigger] keys[i],
            ),
    ensures
        answered(map, bytes, keys, f, count),
{
    let file_len = bytes.len() as u64;
    assert forall|i: int| 0 <= i < count implies {
        let (meta, key) = #[trigger] keys[i];
        let stored = universal_hashmap::stored_values::<K, V>(map, bytes, key);
        stored matches Ok(values) && took_values::<E, Meta, V, F>(f, meta, values)
    } by {
        let values = choose|values: Option<Seq<V>>| #[trigger]
            universal_hashmap::values_looked_up::<E, R, K, V>(
                map,
                keys[i].1,
                file_len,
                read,
                Ok(values),
            ) && took_values::<E, Meta, V, F>(f, keys[i].0, values);
        universal_hashmap::law_values_looked_up_are_stored::<E, R, K, V>(
            map,
            keys[i].1,
            file_len,
            read,
            Ok(values),
        );
    }
}

/// Looking keys up, one after the other, hands on what is stored under them.
pub proof fn law_batch_is_true<
    'k,
    E,
    Meta,
    R: FnMut(ReadRange) -> Result<Vec<u8>, E>,
    K: Key + ?Sized,
    V: Value,
    F: FnMut(Meta, Option<&[V]>) -> Result<(), E>,
>(
    map: MapModel,
    bytes: Seq<u8>,
    read: R,
    f: F,
    keys: Seq<(Meta, &'k K)>,
    done: Result<(), MapError<E>>,
)
    requires
        PartialEntryKind::KeyAndValues(1).spec_est_size::<K, V>() <= usize::MAX,
        bytes.len() <= u64::MAX,
        file::reads_file::<E, R>(read, bytes),
        batch_ends::<E, Meta, R, K, V, F>(map, bytes.len() as u64, read, f, keys, done),
    ensures
        batch_is_true::<E, Meta, R, K, V, F>(map, bytes, read, f, keys, done),
{
    let file_len = bytes.len() as u64;
    if done is Ok {
        lemma_taken_values_are_stored::<E, Meta, R, K, V, F>(
            map,
            bytes,
            read,
            f,
            keys,
            keys.len() as int,
        );
    }
    if let Err(error) = done {
        let count = choose|count: int|
            #![trigger keys[count]]
            0 <= count < keys.len() && fails_at_key::<E, Meta, R, K, V, F>(
                map,
                file_len,
                read,
                f,
                keys[count],
                error,
            ) && forall|i: int|
                0 <= i < count ==> took_looked_up::<E, Meta, R, K, V, F>(
                    map,
                    file_len,
                    read,
                    f,
                    #[trigger] keys[i],
                );
        let key = keys[count].1;
        lemma_taken_values_are_stored::<E, Meta, R, K, V, F>(map, bytes, read, f, keys, count);
        if universal_hashmap::values_looked_up::<E, R, K, V>(map, key, file_len, read, Err(error)) {
            universal_hashmap::law_values_looked_up_are_stored::<E, R, K, V>(
                map,
                key,
                file_len,
                read,
                Err(error),
            );
        } else {
            let values = choose|values: Option<Seq<V>>| #[trigger]
                universal_hashmap::values_looked_up::<E, R, K, V>(
                    map,
                    key,
                    file_len,
                    read,
                    Ok(values),
                ) && refuses_values::<E, Meta, V, F>(
                    f,
                    keys[count].0,
                    values,
                    error->Caller_0,
                );
            universal_hashmap::law_values_looked_up_are_stored::<E, R, K, V>(
                map,
                key,
                file_len,
                read,
                Ok(values),
            );
        }
    }
}

/// Nothing is handed to `f` but what is stored under the keys, each with its own name, when `f` took
/// what is stored under those in front of it, where reads give the bytes of a file.
pub proof fn law_only_stored_values_are_handed_on<
    'k,
    E,
    Meta,
    R: FnMut(ReadRange) -> Result<Vec<u8>, E>,
    K: Key + ?Sized,
    V: Value,
    F: FnMut(Meta, Option<&[V]>) -> Result<(), E>,
>(
    map: MapModel,
    bytes: Seq<u8>,
    read: R,
    f: F,
    keys: Seq<(Meta, &'k K)>,
    meta: Meta,
    values: Option<Seq<V>>,
)
    requires
        PartialEntryKind::KeyAndValues(1).spec_est_size::<K, V>() <= usize::MAX,
        bytes.len() <= u64::MAX,
        file::reads_file::<E, R>(read, bytes),
        comes_of_batch::<E, Meta, R, K, V, F>(
            map,
            bytes.len() as u64,
            read,
            f,
            keys,
            meta,
            values,
        ),
    ensures
        exists|i: int|
            #![trigger keys[i]]
            0 <= i < keys.len() && keys[i].0 == meta && universal_hashmap::stored_values::<K, V>(
                map,
                bytes,
                keys[i].1,
            ) == Ok::<Option<Seq<V>>, DataError>(values) && answered(map, bytes, keys, f, i),
{
    let file_len = bytes.len() as u64;
    let i = choose|i: int| #[trigger]
        reaches_key::<E, Meta, R, K, V, F>(map, file_len, read, f, keys, i) && keys[i].0 == meta
            && universal_hashmap::values_looked_up::<E, R, K, V>(
            map,
            keys[i].1,
            file_len,
            read,
            Ok(values),
        );
    universal_hashmap::law_values_looked_up_are_stored::<E, R, K, V>(
        map,
        keys[i].1,
        file_len,
        read,
        Ok(values),
    );
    lemma_taken_values_are_stored::<E, Meta, R, K, V, F>(map, bytes, read, f, keys, i);
    let key = keys[i];
}

/// What a batch hands on is what a file holds under the keys, where reads give the bytes of the file:
/// one call for each key, in their order, each with its own name, up to the first that is answered
/// with an error. A batch that ends well has handed all of it on. The error of any call ends the batch
/// with that error, and nothing is called behind it.
pub proof fn law_recorded_answers_are_stored<
    'k,
    E,
    Meta,
    R: FnMut(ReadRange) -> Result<Vec<u8>, E>,
    K: Key + ?Sized,
    V: Value,
>(
    map: MapModel,
    bytes: Seq<u8>,
    read: R,
    keys: Seq<(Meta, &'k K)>,
    reads: Seq<Seq<ReadCall<E>>>,
    answers: Seq<Option<Seq<V>>>,
    calls: Seq<AnswerCall<Meta, V, E>>,
    done: Result<(), MapError<E>>,
)
    requires
        PartialEntryKind::KeyAndValues(1).spec_est_size::<K, V>() <= usize::MAX,
        bytes.len() <= u64::MAX,
        file::reads_file::<E, R>(read, bytes),
        batch_is_logged::<E, Meta, R, K, V>(
            map,
            bytes.len() as u64,
            read,
            keys,
            reads,
            answers,
            calls,
            done,
        ),
    ensures
        calls.len() <= keys.len(),
        forall|i: int|
            #![trigger calls[i]]
            0 <= i < calls.len() ==> calls[i].meta == keys[i].0 && Ok::<Option<Seq<V>>, DataError>(
                calls[i].values,
            ) == universal_hashmap::stored_values::<K, V>(map, bytes, keys[i].1),
        done is Ok ==> calls.len() == keys.len(),
        forall|i: int|
            0 <= i < calls.len() ==> ((#[trigger] calls[i]).answer matches Err(error) ==> i
                == calls.len() - 1 && done == Err::<(), MapError<E>>(MapError::Caller(error))),
        done matches Err(MapError::Data(error)) ==> calls.len() < keys.len() && (
        universal_hashmap::stored_values::<K, V>(map, bytes, keys[calls.len() as int].1) == Err::<
            Option<Seq<V>>,
            DataError,
        >(error) || error == DataError::TooLarge && !aligned::fits_buffer(bytes.len() as int)),
{
    let file_len = bytes.len() as u64;
    assert forall|i: int| 0 <= i < answers.len() implies universal_hashmap::stored_values::<K, V>(
        map,
        bytes,
        keys[i].1,
    ) == Ok::<Option<Seq<V>>, DataError>(#[trigger] answers[i]) by {
        let key = keys[i].1;
        let values = Ok::<Option<Seq<V>>, MapError<E>>(answers[i]);
        assert(is_answer_of::<E, Meta, R, K, V>(map, file_len, read, keys, reads, answers, i));
        universal_hashmap::lemma_logged_values_are_looked_up::<E, R, K, V>(
            map,
            key,
            file_len,
            read,
            reads[i],
            values,
        );
        universal_hashmap::law_values_looked_up_are_stored::<E, R, K, V>(
            map,
            key,
            file_len,
            read,
            values,
        );
    }
    if let Err(MapError::Data(error)) = done {
        let key = keys[answers.len() as int].1;
        let values = Err::<Option<Seq<V>>, MapError<E>>(MapError::Data(error));
        universal_hashmap::lemma_logged_values_are_looked_up::<E, R, K, V>(
            map,
            key,
            file_len,
            read,
            reads.last(),
            values,
        );
        universal_hashmap::law_values_looked_up_are_stored::<E, R, K, V>(
            map,
            key,
            file_len,
            read,
            values,
        );
    }
}

impl<K: Key + ?Sized, V: Value> UniversalHashMap<K, V> {
    /// Hands the values of each key on, with what its caller knows the key by, as
    /// [`UniversalHashMap::batch_with_entry`] does. The logs of the two functions tell how.
    pub fn batch_with_entry_recorded<
        'k,
        Meta,
        E,
        R: FnMut(ReadRange) -> Result<Vec<u8>, E>,
        F: FnMut(Meta, Option<&[V]>) -> Result<(), E>,
    >(
        &self,
        keys: VecDeque<(Meta, &'k K)>,
        file_len: u64,
        read: &mut Recorded<R, ReadCall<E>>,
        f: &mut Recorded<F, AnswerCall<Meta, V, E>>,
    ) -> (done: Result<(), MapError<E>>)
        requires
            self.wf(),
            phf::usable_levels(self@.levels),
            PartialEntryKind::KeyAndValues(1).spec_est_size::<K, V>() <= usize::MAX,
            old(read).wf(),
            old(read).log().len() == 0,
            old(f).wf(),
            old(f).log().len() == 0,
            may_batch::<E, Meta, R, K, V, F>(
                self@,
                file_len,
                old(read).function(),
                old(f).function(),
                keys@,
            ),
        ensures
            final(read).wf(),
            final(read).function() == old(read).function(),
            final(f).wf(),
            final(f).function() == old(f).function(),
            batch_ends::<E, Meta, R, K, V, F>(
                self@,
                file_len,
                old(read).function(),
                old(f).function(),
                keys@,
                done,
            ),
            exists|reads: Seq<Seq<ReadCall<E>>>, answers: Seq<Option<Seq<V>>>|
                final(read).log() == #[trigger] reads.flatten_alt()
                    && #[trigger] batch_is_logged::<E, Meta, R, K, V>(
                    self@,
                    file_len,
                    old(read).function(),
                    keys@,
                    reads,
                    answers,
                    final(f).log(),
                    done,
                ),
            keys@.len() == 0 ==> done == Ok::<(), MapError<E>>(()),
    {
        self.batch(keys, file_len, read, f)
    }

    /// Looks the keys up, one after the other, and hands their values on.
    fn batch<
        'k,
        Meta,
        E,
        R: FnMut(ReadRange) -> Result<Vec<u8>, E>,
        F: FnMut(Meta, Option<&[V]>) -> Result<(), E>,
    >(
        &self,
        keys: VecDeque<(Meta, &'k K)>,
        file_len: u64,
        read: &mut Recorded<R, ReadCall<E>>,
        f: &mut Recorded<F, AnswerCall<Meta, V, E>>,
    ) -> (done: Result<(), MapError<E>>)
        requires
            self.wf(),
            phf::usable_levels(self@.levels),
            PartialEntryKind::KeyAndValues(1).spec_est_size::<K, V>() <= usize::MAX,
            old(read).wf(),
            old(read).log().len() == 0,
            old(f).wf(),
            old(f).log().len() == 0,
            may_batch::<E, Meta, R, K, V, F>(
                self@,
                file_len,
                old(read).function(),
                old(f).function(),
                keys@,
            ),
        ensures
            final(read).wf(),
            final(read).function() == old(read).function(),
            final(f).wf(),
            final(f).function() == old(f).function(),
            batch_ends::<E, Meta, R, K, V, F>(
                self@,
                file_len,
                old(read).function(),
                old(f).function(),
                keys@,
                done,
            ),
            exists|reads: Seq<Seq<ReadCall<E>>>, answers: Seq<Option<Seq<V>>>|
                final(read).log() == #[trigger] reads.flatten_alt()
                    && #[trigger] batch_is_logged::<E, Meta, R, K, V>(
                    self@,
                    file_len,
                    old(read).function(),
                    keys@,
                    reads,
                    answers,
                    final(f).log(),
                    done,
                ),
            keys@.len() == 0 ==> done == Ok::<(), MapError<E>>(()),
    {
        let ghost reader = read.function();
        let ghost taker = f.function();
        let ghost mut reads: Seq<Seq<ReadCall<E>>> = Seq::empty();
        let ghost mut answers: Seq<Option<Seq<V>>> = Seq::empty();
        assert(allow_batch::<E, Meta, R, K, V, F>(self@, file_len, reader, taker, keys@));
        let ghost all = keys@;
        let mut pending = keys;
        let ghost mut done: int = 0;
        assert(all.skip(0) == all);
        assert(f.log() == answer_calls::<E, Meta, K, V>(all, answers));
        assert(read.log() == reads.flatten_alt());
        loop
            invariant
                self.wf(),
                phf::usable_levels(self@.levels),
                PartialEntryKind::KeyAndValues(1).spec_est_size::<K, V>() <= usize::MAX,
                allow_batch::<E, Meta, R, K, V, F>(self@, file_len, reader, taker, all),
                read.wf(),
                read.function() == reader,
                reader == old(read).function(),
                f.wf(),
                f.function() == taker,
                taker == old(f).function(),
                all == keys@,
                answers.len() == done,
                reads.len() == done,
                f.log() == answer_calls::<E, Meta, K, V>(all, answers),
                read.log() == reads.flatten_alt(),
                forall|i: int|
                    0 <= i < done ==> #[trigger] is_answer_of::<E, Meta, R, K, V>(
                        self@,
                        file_len,
                        reader,
                        all,
                        reads,
                        answers,
                        i,
                    ),
                0 <= done <= all.len(),
                pending@ == all.skip(done),
                forall|i: int|
                    0 <= i < done ==> took_looked_up::<E, Meta, R, K, V, F>(
                        self@,
                        file_len,
                        reader,
                        taker,
                        #[trigger] all[i],
                    ),
            decreases all.len() - done,
        {
            let (meta, key) = match pending.pop_front() {
                Some(next) => next,
                None => {
                    assert(batch_is_logged::<E, Meta, R, K, V>(
                        self@,
                        file_len,
                        reader,
                        all,
                        reads,
                        answers,
                        f.log(),
                        Ok(()),
                    ));
                    return Ok(());
                },
            };
            assert((meta, key) == all[done]);
            assert(pending@ == all.skip(done + 1));
            let ghost this = meta;
            assert(reaches_key::<E, Meta, R, K, V, F>(
                self@,
                file_len,
                reader,
                taker,
                all,
                done,
            ));
            let ghost asked = read.log();
            let looked_up = self.get_shared(key, file_len, read);
            let ghost made = record::since(asked, read.log());
            let ghost reads_before = reads;
            let ghost answers_before = answers;
            proof {
                let values = universal_hashmap::seqs_of(looked_up);
                reads = reads.push(made);
                record::lemma_parts_go_on(reads_before, made);
                assert(read.log() == asked + made);
                assert(read.log() == reads.flatten_alt());
                if let Ok(found) = values {
                    answers = answers.push(found);
                    assert(answers.drop_last() == answers_before);
                }
                assert forall|i: int| 0 <= i < answers.len() implies #[trigger] is_answer_of::<
                    E,
                    Meta,
                    R,
                    K,
                    V,
                >(self@, file_len, reader, all, reads, answers, i) by {
                    if i < done {
                        assert(is_answer_of::<E, Meta, R, K, V>(
                            self@,
                            file_len,
                            reader,
                            all,
                            reads_before,
                            answers_before,
                            i,
                        ));
                    }
                }
            }
            let values = match looked_up {
                Ok(values) => values,
                Err(error) => {
                    assert(fails_at_key::<E, Meta, R, K, V, F>(
                        self@,
                        file_len,
                        reader,
                        taker,
                        all[done],
                        error,
                    ));
                    assert(batch_is_logged::<E, Meta, R, K, V>(
                        self@,
                        file_len,
                        reader,
                        all,
                        reads,
                        answers,
                        f.log(),
                        Err(error),
                    ));
                    return Err(error);
                },
            };
            let slice: Option<&[V]> = match &values {
                Some(values) => Some(values.as_slice()),
                None => None,
            };
            let ghost given = seq_of_slice(slice);
            assert(universal_hashmap::values_looked_up::<E, R, K, V>(
                self@,
                key,
                file_len,
                reader,
                Ok(given),
            ));
            assert(comes_of_batch::<E, Meta, R, K, V, F>(
                self@,
                file_len,
                reader,
                taker,
                all,
                meta,
                seq_of_slice(slice),
            ));
            match f.take_answer(meta, slice) {
                Ok(unit) => {
                    assert(unit == ());
                    assert(call_ensures(taker, (this, slice), Ok::<(), E>(())));
                    assert(took_values::<E, Meta, V, F>(taker, this, given));
                    assert(took_looked_up::<E, Meta, R, K, V, F>(
                        self@,
                        file_len,
                        reader,
                        taker,
                        all[done],
                    ));
                },
                Err(error) => {
                    assert(call_ensures(taker, (this, slice), Err::<(), E>(error)));
                    assert(refuses_values::<E, Meta, V, F>(taker, this, given, error));
                    assert(fails_at_key::<E, Meta, R, K, V, F>(
                        self@,
                        file_len,
                        reader,
                        taker,
                        all[done],
                        MapError::Caller(error),
                    ));
                    assert(answers.drop_last() == answers_before);
                    assert(batch_is_logged::<E, Meta, R, K, V>(
                        self@,
                        file_len,
                        reader,
                        all,
                        reads,
                        answers,
                        f.log(),
                        Err(MapError::Caller(error)),
                    ));
                    return Err(MapError::Caller(error));
                },
            }
            proof {
                done = done + 1;
            }
        }
    }
}

} // verus!
