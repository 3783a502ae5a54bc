//! Visiting all entries of a map.

use crate::aligned;
use crate::file;
use crate::file::{DataError, MapError, ReadRange};
use crate::keys::Key;
use crate::record::{EntryCall, ReadCall, Recorded};
use crate::scanner;
use crate::scanner::EntryScanner;
use crate::state::{State, StoredEntry};
use crate::universal_hashmap::UniversalHashMap;
use crate::values::Value;
use vstd::prelude::*;

verus! {

/// Whether `f` took an entry of this encoding of its key and these values.
pub open spec fn took_entry<E, K: Key + ?Sized, V: Value, F: FnMut(&K, &[V]) -> Result<(), E>>(
    f: F,
    entry: (Seq<u8>, Seq<V>),
) -> bool {
    exists|key: &K, values: &[V]| #[trigger]
        call_ensures(f, (key, values), Ok::<(), E>(())) && (key.encoding(), values@) == entry
}

/// Whether `f` can fail with `error` when it is handed an entry of this encoding of its key and
/// these values.
pub open spec fn refuses_entry<E, K: Key + ?Sized, V: Value, F: FnMut(&K, &[V]) -> Result<(), E>>(
    f: F,
    entry: (Seq<u8>, Seq<V>),
    error: E,
) -> bool {
    exists|key: &K, values: &[V]| #[trigger]
        call_ensures(f, (key, values), Err::<(), E>(error)) && (key.encoding(), values@) == entry
}

/// Whether `f` took all the entries.
pub open spec fn took_entries<E, K: Key + ?Sized, V: Value, F: FnMut(&K, &[V]) -> Result<(), E>>(
    f: F,
    entries: Seq<(Seq<u8>, Seq<V>)>,
) -> bool {
    forall|i: int| 0 <= i < entries.len() ==> took_entry::<E, K, V, F>(f, #[trigger] entries[i])
}

/// Whether `chunks[i]` is what `read` gives for a chunk of a file from `start` on, and nothing is
/// wrong with those in front of it.
pub open spec fn reads_chunk<
    E,
    R: FnMut(ReadRange) -> Result<Vec<u8>, E>,
    K: Key + ?Sized,
    V: Value,
>(start: u64, file_len: u64, chunk_len: u64, read: R, chunks: Seq<Seq<u8>>, i: int) -> bool {
    let (start, end, len) = (start as int, file_len as int, chunk_len as int);
    &&& scanner::chunk_start(start, end, len, i as nat) < end
    &&& scanner::scan_chunks::<K, V>(chunks.take(i)).error is None
    &&& file::read_gives::<E, R>(
        read,
        scanner::chunk_range(start, end, len, i as nat),
        chunks[i],
    )
}

/// Whether `chunks` are what `read` gives for the first chunks of a file from `start` on, and
/// nothing is wrong with those in front of the last.
pub open spec fn reads_chunks<
    E,
    R: FnMut(ReadRange) -> Result<Vec<u8>, E>,
    K: Key + ?Sized,
    V: Value,
>(start: u64, file_len: u64, chunk_len: u64, read: R, chunks: Seq<Seq<u8>>) -> bool {
    forall|i: int|
        0 <= i < chunks.len() ==> #[trigger] reads_chunk::<E, R, K, V>(
            start,
            file_len,
            chunk_len,
            read,
            chunks,
            i,
        )
}

/// Whether `f` took all entries of the chunks in front of that of number `i`.
pub open spec fn hands_on<E, K: Key + ?Sized, V: Value, F: FnMut(&K, &[V]) -> Result<(), E>>(
    f: F,
    chunks: Seq<Seq<u8>>,
    i: int,
) -> bool {
    let entries = scanner::scan_chunks::<K, V>(chunks).entries;
    0 <= i < entries.len() && took_entries::<E, K, V, F>(f, entries.take(i))
}

/// Whether `f` is to be handed this entry: it is found in the chunks that are read, and `f` took all
/// that are in front of it.
pub open spec fn comes_of_chunks<
    E,
    R: FnMut(ReadRange) -> Result<Vec<u8>, E>,
    K: Key + ?Sized,
    V: Value,
    F: FnMut(&K, &[V]) -> Result<(), E>,
>(
    start: u64,
    file_len: u64,
    chunk_len: u64,
    read: R,
    f: F,
    entry: (Seq<u8>, Seq<V>),
) -> bool {
    exists|chunks: Seq<Seq<u8>>, i: int| #[trigger]
        reads_chunks::<E, R, K, V>(start, file_len, chunk_len, read, chunks)
            && #[trigger] hands_on::<E, K, V, F>(f, chunks, i) && scanner::scan_chunks::<K, V>(
            chunks,
        ).entries[i] == entry
}

/// Whether `read` may be called on the range of each chunk when nothing is wrong with the chunks in
/// front of it and `f` took all their entries, and `f` may be called on each entry when it took all
/// that are in front of it. Neither is called on anything else.
pub open spec fn allow_scan<
    E,
    R: FnMut(ReadRange) -> Result<Vec<u8>, E>,
    K: Key + ?Sized,
    V: Value,
    F: FnMut(&K, &[V]) -> Result<(), E>,
>(start: u64, file_len: u64, chunk_len: u64, read: R, f: F) -> bool {
    &&& forall|chunks: Seq<Seq<u8>>| #[trigger]
        reads_chunks::<E, R, K, V>(start, file_len, chunk_len, read, chunks) ==> {
            let (first, end, len) = (start as int, file_len as int, chunk_len as int);
            let found = scanner::scan_chunks::<K, V>(chunks);
            found.error is None && scanner::chunk_start(first, end, len, chunks.len()) < end
                && took_entries::<E, K, V, F>(f, found.entries) ==> call_requires(
                read,
                (scanner::chunk_range(first, end, len, chunks.len()),),
            )
        }
    &&& forall|key: &K, values: &[V]|
        comes_of_chunks::<E, R, K, V, F>(
            start,
            file_len,
            chunk_len,
            read,
            f,
            (key.encoding(), values@),
        ) ==> #[trigger] call_requires(f, (key, values))
}

/// Whether the two functions [`allow_scan`]. [`law_functions_may_scan`] shows it.
pub closed spec fn may_scan_chunks<
    E,
    R: FnMut(ReadRange) -> Result<Vec<u8>, E>,
    K: Key + ?Sized,
    V: Value,
    F: FnMut(&K, &[V]) -> Result<(), E>,
>(start: u64, file_len: u64, chunk_len: u64, read: R, f: F) -> bool {
    allow_scan::<E, R, K, V, F>(start, file_len, chunk_len, read, f)
}

/// Whether `f` may be called on every entry.
pub open spec fn takes_all_entries<
    E,
    K: Key + ?Sized,
    V: Value,
    F: FnMut(&K, &[V]) -> Result<(), E>,
>(f: F) -> bool {
    forall|key: &K, values: &[V]| call_requires(f, (key, values))
}

/// Whether the entries may be scanned with these functions: both may be called on everything, or on
/// what they are called on.
pub open spec fn may_scan<
    E,
    R: FnMut(ReadRange) -> Result<Vec<u8>, E>,
    K: Key + ?Sized,
    V: Value,
    F: FnMut(&K, &[V]) -> Result<(), E>,
>(start: u64, file_len: u64, chunk_len: u64, read: R, f: F) -> bool {
    ||| file::reads_all::<E, R>(read) && takes_all_entries::<E, K, V, F>(f)
    ||| may_scan_chunks::<E, R, K, V, F>(start, file_len, chunk_len, read, f)
}

/// Functions that allow all calls of a scan may be used for it.
pub proof fn law_functions_may_scan<
    E,
    R: FnMut(ReadRange) -> Result<Vec<u8>, E>,
    K: Key + ?Sized,
    V: Value,
    F: FnMut(&K, &[V]) -> Result<(), E>,
>(start: u64, file_len: u64, chunk_len: u64, read: R, f: F)
    requires
        allow_scan::<E, R, K, V, F>(start, file_len, chunk_len, read, f),
    ensures
        may_scan::<E, R, K, V, F>(start, file_len, chunk_len, read, f),
{
}

/// The call with which an entry is handed on, and what it is answered.
pub open spec fn entry_call<V, E>(entry: (Seq<u8>, Seq<V>), answer: Result<(), E>) -> EntryCall<
    V,
    E,
> {
    EntryCall { key: entry.0, values: entry.1, answer }
}

/// The calls with which entries are handed on, one for each, in their order, if all are taken.
pub open spec fn taken_calls<V, E>(entries: Seq<(Seq<u8>, Seq<V>)>) -> Seq<EntryCall<V, E>> {
    Seq::new(entries.len(), |i: int| entry_call(entries[i], Ok::<(), E>(())))
}

/// The reads that give the chunks of a file from `start` on, one for each, in their order.
pub open spec fn chunk_reads<E>(
    start: u64,
    file_len: u64,
    chunk_len: u64,
    chunks: Seq<Seq<u8>>,
) -> Seq<ReadCall<E>> {
    Seq::new(
        chunks.len(),
        |i: int|
            ReadCall {
                range: scanner::chunk_range(
                    start as int,
                    file_len as int,
                    chunk_len as int,
                    i as nat,
                ),
                reply: Ok::<Seq<u8>, E>(chunks[i]),
            },
    )
}

/// Whether these are all reads and all calls of a scan that has read `chunks` and ends with `done`:
/// each chunk is read once, from front to back, and each entry in them is handed on once, in its
/// order. A read that fails, and a call that is answered with an error, is the last.
pub open spec fn scan_is_logged<E, K: Key + ?Sized, V: Value>(
    start: u64,
    file_len: u64,
    chunk_len: u64,
    chunks: Seq<Seq<u8>>,
    reads: Seq<ReadCall<E>>,
    calls: Seq<EntryCall<V, E>>,
    done: Result<(), MapError<E>>,
) -> bool {
    let (first, end, len) = (start as int, file_len as int, chunk_len as int);
    let found = scanner::scan_chunks::<K, V>(chunks);
    let all_read = scanner::chunk_start(first, end, len, chunks.len()) >= end;
    match done {
        Ok(()) => {
            &&& found.error is None && all_read && found.kept.len() == 0
            &&& reads == chunk_reads::<E>(start, file_len, chunk_len, chunks)
            &&& calls == taken_calls::<V, E>(found.entries)
        },
        Err(MapError::Data(error)) => {
            &&& found.error == Some(error) || found.error is None && all_read && found.kept.len()
                > 0 && error == DataError::TrailingBytes
            &&& reads == chunk_reads::<E>(start, file_len, chunk_len, chunks)
            &&& calls == taken_calls::<V, E>(found.entries)
        },
        Err(MapError::Caller(error)) => {
            ||| {
                &&& found.error is None && !all_read
                &&& reads == chunk_reads::<E>(start, file_len, chunk_len, chunks).push(
                    ReadCall {
                        range: scanner::chunk_range(first, end, len, chunks.len()),
                        reply: Err(error),
                    },
                )
                &&& calls == taken_calls::<V, E>(found.entries)
            }
            ||| {
                &&& 0 < calls.len() <= found.entries.len()
                &&& scanner::scan_chunks::<K, V>(chunks.drop_last()).entries.len() < calls.len()
                &&& reads == chunk_reads::<E>(start, file_len, chunk_len, chunks)
                &&& calls == taken_calls::<V, E>(found.entries.take(calls.len() - 1)).push(
                    entry_call(found.entries[calls.len() - 1], Err::<(), E>(error)),
                )
            }
        },
    }
}

/// Whether the work on the entries ends with `done` when `chunks` have been read: all is read and
/// `f` took all entries, or something is wrong behind the entries that `f` took, or the next read
/// fails, or `f` refuses an entry of the last chunk, having taken all in front of it.
pub open spec fn ends_with_chunks<
    E,
    R: FnMut(ReadRange) -> Result<Vec<u8>, E>,
    K: Key + ?Sized,
    V: Value,
    F: FnMut(&K, &[V]) -> Result<(), E>,
>(
    start: u64,
    file_len: u64,
    chunk_len: u64,
    read: R,
    f: F,
    chunks: Seq<Seq<u8>>,
    done: Result<(), MapError<E>>,
) -> bool {
    let (start, end, len) = (start as int, file_len as int, chunk_len as int);
    let found = scanner::scan_chunks::<K, V>(chunks);
    let all_read = scanner::chunk_start(start, end, len, chunks.len()) >= end;
    match done {
        Ok(()) => {
            &&& found.error is None && all_read && found.kept.len() == 0
            &&& took_entries::<E, K, V, F>(f, found.entries)
        },
        Err(MapError::Data(error)) => {
            &&& found.error == Some(error) || found.error is None && all_read && found.kept.len()
                > 0 && error == DataError::TrailingBytes
            &&& took_entries::<E, K, V, F>(f, found.entries)
        },
        Err(MapError::Caller(error)) => {
            ||| {
                &&& found.error is None && !all_read
                &&& took_entries::<E, K, V, F>(f, found.entries)
                &&& file::read_fails::<E, R>(
                    read,
                    scanner::chunk_range(start, end, len, chunks.len()),
                    error,
                )
            }
            ||| exists|count: int|
                #![trigger found.entries[count]]
                scanner::scan_chunks::<K, V>(chunks.drop_last()).entries.len() <= count
                    < found.entries.len() && took_entries::<E, K, V, F>(
                    f,
                    found.entries.take(count),
                ) && refuses_entry::<E, K, V, F>(f, found.entries[count], error)
        },
    }
}

/// Whether the entries from `start` on have been read in chunks, one after the other, and handed to
/// `f`, with this end.
pub open spec fn entries_end<
    E,
    R: FnMut(ReadRange) -> Result<Vec<u8>, E>,
    K: Key + ?Sized,
    V: Value,
    F: FnMut(&K, &[V]) -> Result<(), E>,
>(
    start: u64,
    file_len: u64,
    chunk_len: u64,
    read: R,
    f: F,
    done: Result<(), MapError<E>>,
) -> bool {
    exists|chunks: Seq<Seq<u8>>| #[trigger]
        reads_chunks::<E, R, K, V>(start, file_len, chunk_len, read, chunks) && ends_with_chunks::<
            E,
            R,
            K,
            V,
            F,
        >(start, file_len, chunk_len, read, f, chunks, done)
}

/// Whether `f` was handed the entries that `bytes` hold from `start` on, in the order in which they
/// are stored, up to the first that it refuses, or that is damaged, or that is not to be read.
pub open spec fn entries_are_true<
    E,
    R: FnMut(ReadRange) -> Result<Vec<u8>, E>,
    K: Key + ?Sized,
    V: Value,
    F: FnMut(&K, &[V]) -> Result<(), E>,
>(
    bytes: Seq<u8>,
    start: u64,
    chunk_len: u64,
    read: R,
    f: F,
    done: Result<(), MapError<E>>,
) -> bool {
    let (first, end, len) = (start as int, bytes.len() as int, chunk_len as int);
    let (entries, wrong) = scanner::scan_file::<K, V>(
        bytes,
        first,
        len,
        Seq::empty(),
        State::fresh(),
    );
    match done {
        Ok(()) => wrong is None && took_entries::<E, K, V, F>(f, entries),
        Err(MapError::Data(error)) => wrong == Some(error) && took_entries::<E, K, V, F>(
            f,
            entries,
        ),
        Err(MapError::Caller(error)) => {
            ||| exists|count: int|
                #![trigger entries[count]]
                0 <= count < entries.len() && took_entries::<E, K, V, F>(f, entries.take(count))
                    && refuses_entry::<E, K, V, F>(f, entries[count], error)
            ||| exists|i: nat|
                scanner::chunk_start(first, end, len, i) < end && file::read_fails::<E, R>(
                    read,
                    #[trigger] scanner::chunk_range(first, end, len, i),
                    error,
                )
        },
    }
}

/// What is found in the chunks that are read is what is found in the file that they are read from.
proof fn lemma_chunks_are_of_file<
    E,
    R: FnMut(ReadRange) -> Result<Vec<u8>, E>,
    K: Key + ?Sized,
    V: Value,
>(bytes: Seq<u8>, start: u64, chunk_len: u64, read: R, chunks: Seq<Seq<u8>>)
    requires
        start <= bytes.len() <= u64::MAX,
        chunk_len > 0,
        file::reads_file::<E, R>(read, bytes),
        reads_chunks::<E, R, K, V>(start, bytes.len() as u64, chunk_len, read, chunks),
    ensures
        ({
            let (first, len) = (start as int, chunk_len as int);
            let found = scanner::scan_chunks::<K, V>(chunks);
            let pos = scanner::chunk_start(first, bytes.len() as int, len, chunks.len());
            let whole = scanner::scan_file::<K, V>(
                bytes,
                first,
                len,
                Seq::empty(),
                State::fresh(),
            );
            match found.error {
                None => {
                    let rest = scanner::scan_file::<K, V>(bytes, pos, len, found.kept, found.known);
                    whole == (found.entries + rest.0, rest.1)
                },
                Some(error) => whole == (found.entries, Some(error)),
            }
        }),
{
    let file_len = bytes.len() as u64;
    let (first, len) = (start as int, chunk_len as int);
    assert forall|i: int| 0 <= i < chunks.len() implies #[trigger] scanner::is_chunk_of::<K, V>(
        bytes,
        first,
        len,
        chunks,
        i,
    ) by {
        assert(reads_chunk::<E, R, K, V>(start, file_len, chunk_len, read, chunks, i));
    }
    scanner::law_chunks_are_of_file::<K, V>(bytes, first, len, chunks);
}

/// Reading the entries of a file in chunks hands on the entries that are stored there.
pub proof fn law_entries_are_true<
    E,
    R: FnMut(ReadRange) -> Result<Vec<u8>, E>,
    K: Key + ?Sized,
    V: Value,
    F: FnMut(&K, &[V]) -> Result<(), E>,
>(bytes: Seq<u8>, start: u64, chunk_len: u64, read: R, f: F, done: Result<(), MapError<E>>)
    requires
        start <= bytes.len() <= u64::MAX,
        chunk_len > 0,
        file::reads_file::<E, R>(read, bytes),
        entries_end::<E, R, K, V, F>(start, bytes.len() as u64, chunk_len, read, f, done),
    ensures
        entries_are_true::<E, R, K, V, F>(bytes, start, chunk_len, read, f, done),
{
    let file_len = bytes.len() as u64;
    let (first, end, len) = (start as int, bytes.len() as int, chunk_len as int);
    let chunks = choose|chunks: Seq<Seq<u8>>| #[trigger]
        reads_chunks::<E, R, K, V>(start, file_len, chunk_len, read, chunks) && ends_with_chunks::<
            E,
            R,
            K,
            V,
            F,
        >(start, file_len, chunk_len, read, f, chunks, done);
    let found = scanner::scan_chunks::<K, V>(chunks);
    lemma_chunks_are_of_file::<E, R, K, V>(bytes, start, chunk_len, read, chunks);
    let pos = scanner::chunk_start(first, end, len, chunks.len());
    let (entries, wrong) = scanner::scan_file::<K, V>(
        bytes,
        first,
        len,
        Seq::empty(),
        State::fresh(),
    );
    assert(found.entries + Seq::<(Seq<u8>, Seq<V>)>::empty() == found.entries);
    if let Err(MapError::Caller(error)) = done {
        if exists|count: int|
            #![trigger found.entries[count]]
            scanner::scan_chunks::<K, V>(chunks.drop_last()).entries.len() <= count
                < found.entries.len() && took_entries::<E, K, V, F>(f, found.entries.take(count))
                && refuses_entry::<E, K, V, F>(f, found.entries[count], error) {
            let count = choose|count: int|
                #![trigger found.entries[count]]
                scanner::scan_chunks::<K, V>(chunks.drop_last()).entries.len() <= count
                    < found.entries.len() && took_entries::<E, K, V, F>(
                    f,
                    found.entries.take(count),
                ) && refuses_entry::<E, K, V, F>(f, found.entries[count], error);
            assert(entries[count] == found.entries[count]);
            assert(entries.take(count) == found.entries.take(count));
        }
    }
}

/// Nothing is handed to `f` but the entries that a file holds from `start` on, each when `f` took
/// all that are in front of it, where reads give the bytes of the file.
pub proof fn law_only_stored_entries_are_handed_on<
    E,
    R: FnMut(ReadRange) -> Result<Vec<u8>, E>,
    K: Key + ?Sized,
    V: Value,
    F: FnMut(&K, &[V]) -> Result<(), E>,
>(bytes: Seq<u8>, start: u64, chunk_len: u64, read: R, f: F, entry: (Seq<u8>, Seq<V>))
    requires
        start <= bytes.len() <= u64::MAX,
        chunk_len > 0,
        file::reads_file::<E, R>(read, bytes),
        comes_of_chunks::<E, R, K, V, F>(start, bytes.len() as u64, chunk_len, read, f, entry),
    ensures
        ({
            let (entries, _) = scanner::scan_file::<K, V>(
                bytes,
                start as int,
                chunk_len as int,
                Seq::empty(),
                State::fresh(),
            );
            exists|i: int|
                0 <= i < entries.len() && #[trigger] entries[i] == entry && took_entries::<
                    E,
                    K,
                    V,
                    F,
                >(f, entries.take(i))
        }),
{
    let file_len = bytes.len() as u64;
    let (first, len) = (start as int, chunk_len as int);
    let (chunks, i) = choose|chunks: Seq<Seq<u8>>, i: int| #[trigger]
        reads_chunks::<E, R, K, V>(start, file_len, chunk_len, read, chunks)
            && #[trigger] hands_on::<E, K, V, F>(f, chunks, i) && scanner::scan_chunks::<K, V>(
            chunks,
        ).entries[i] == entry;
    let found = scanner::scan_chunks::<K, V>(chunks);
    lemma_chunks_are_of_file::<E, R, K, V>(bytes, start, chunk_len, read, chunks);
    let (entries, _) = scanner::scan_file::<K, V>(bytes, first, len, Seq::empty(), State::fresh());
    assert(entries[i] == found.entries[i]);
    assert(entries.take(i) == found.entries.take(i));
}

/// All entries that a file holds from `start` on are handed to `f`, whatever the size of the chunks,
/// where reads give the bytes of the file and never fail, and `f` takes whatever it is handed. That
/// takes entries whose ends keep the alignment, and a file that memory can hold.
pub proof fn law_all_stored_entries_are_handed_on<
    'a,
    E,
    R: FnMut(ReadRange) -> Result<Vec<u8>, E>,
    K: Key + ?Sized,
    V: Value,
    F: FnMut(&K, &[V]) -> Result<(), E>,
>(
    bytes: Seq<u8>,
    start: u64,
    chunk_len: u64,
    read: R,
    f: F,
    done: Result<(), MapError<E>>,
    stored: Seq<StoredEntry<'a, K, V>>,
)
    requires
        start <= bytes.len() <= u64::MAX,
        chunk_len > 0,
        aligned::fits_buffer(bytes.len() as int),
        bytes.skip(start as int) == scanner::entries_bytes(stored),
        forall|i: int| 0 <= i < stored.len() ==> scanner::ends_aligned(#[trigger] stored[i]),
        file::reads_file::<E, R>(read, bytes),
        file::never_fails::<E, R>(read),
        forall|entry: (Seq<u8>, Seq<V>), error: E|
            !(#[trigger] refuses_entry::<E, K, V, F>(f, entry, error)),
        entries_end::<E, R, K, V, F>(start, bytes.len() as u64, chunk_len, read, f, done),
    ensures
        done is Ok,
        took_entries::<E, K, V, F>(
            f,
            stored.map_values(
                |entry: StoredEntry<'a, K, V>| (entry.key.encoding(), entry.values),
            ),
        ),
{
    scanner::law_all_stored_entries_are_given(bytes, start as int, chunk_len as int, stored);
    law_entries_are_true::<E, R, K, V, F>(bytes, start, chunk_len, read, f, done);
}

/// What a scan hands on are the entries that a file holds from `start` on, where reads give the bytes
/// of the file: one call for each, in the order in which they are stored, up to the first that is
/// answered with an error. All are handed on where the scan ends well, and where something is wrong
/// with the file, and then every call has been answered well. The error of any call, and of any
/// read, ends the scan with that error.
pub proof fn law_recorded_entries_are_those_of_file<
    E,
    R: FnMut(ReadRange) -> Result<Vec<u8>, E>,
    K: Key + ?Sized,
    V: Value,
>(
    bytes: Seq<u8>,
    start: u64,
    chunk_len: u64,
    read: R,
    chunks: Seq<Seq<u8>>,
    reads: Seq<ReadCall<E>>,
    calls: Seq<EntryCall<V, E>>,
    done: Result<(), MapError<E>>,
)
    requires
        start <= bytes.len() <= u64::MAX,
        chunk_len > 0,
        file::reads_file::<E, R>(read, bytes),
        reads_chunks::<E, R, K, V>(start, bytes.len() as u64, chunk_len, read, chunks),
        scan_is_logged::<E, K, V>(
            start,
            bytes.len() as u64,
            chunk_len,
            chunks,
            reads,
            calls,
            done,
        ),
    ensures
        ({
            let (entries, wrong) = scanner::scan_file::<K, V>(
                bytes,
                start as int,
                chunk_len as int,
                Seq::empty(),
                State::fresh(),
            );
            &&& calls.len() <= entries.len()
            &&& forall|i: int|
                #![trigger calls[i]]
                0 <= i < calls.len() ==> (calls[i].key, calls[i].values) == entries[i]
            &&& done is Ok ==> calls.len() == entries.len() && wrong is None
            &&& done matches Err(MapError::Data(error)) ==> calls.len() == entries.len() && wrong
                == Some(error)
            &&& !(done matches Err(MapError::Caller(_))) ==> forall|i: int|
                0 <= i < calls.len() ==> (#[trigger] calls[i]).answer is Ok
            &&& forall|i: int|
                0 <= i < calls.len() ==> ((#[trigger] calls[i]).answer matches Err(error) ==> i
                    == calls.len() - 1 && done == Err::<(), MapError<E>>(MapError::Caller(error)))
            &&& forall|i: int|
                0 <= i < reads.len() ==> ((#[trigger] reads[i]).reply matches Err(error) ==> i
                    == reads.len() - 1 && done == Err::<(), MapError<E>>(MapError::Caller(error)))
            &&& done matches Err(MapError::Caller(error)) ==> (calls.len() > 0
                && calls.last().answer == Err::<(), E>(error)) || (reads.len() > 0
                && reads.last().reply == Err::<Seq<u8>, E>(error))
        }),
{
    let (first, end, len) = (start as int, bytes.len() as int, chunk_len as int);
    let found = scanner::scan_chunks::<K, V>(chunks);
    lemma_chunks_are_of_file::<E, R, K, V>(bytes, start, chunk_len, read, chunks);
    let pos = scanner::chunk_start(first, end, len, chunks.len());
    let (entries, wrong) = scanner::scan_file::<K, V>(
        bytes,
        first,
        len,
        Seq::empty(),
        State::fresh(),
    );
    assert(found.entries.len() <= entries.len());
    assert forall|i: int|
        #![trigger calls[i]]
        0 <= i < calls.len() implies (calls[i].key, calls[i].values) == entries[i] by {
        assert(entries[i] == found.entries[i]);
    }
    assert(found.entries + Seq::<(Seq<u8>, Seq<V>)>::empty() == found.entries);
}

/// Each range is read once, one behind the other without a gap, and none past the end of the file:
/// the first read starts where the entries do, each further one where the one in front of it ends,
/// and a scan that ends well has read up to the end. No read is longer than a chunk, and only one that
/// ends with the file is shorter.
pub proof fn law_scan_reads_each_range_once<E, K: Key + ?Sized, V: Value>(
    start: u64,
    file_len: u64,
    chunk_len: u64,
    chunks: Seq<Seq<u8>>,
    reads: Seq<ReadCall<E>>,
    calls: Seq<EntryCall<V, E>>,
    done: Result<(), MapError<E>>,
)
    requires
        start <= file_len,
        chunk_len > 0,
        scan_is_logged::<E, K, V>(start, file_len, chunk_len, chunks, reads, calls, done),
    ensures
        reads.len() > 0 ==> reads[0].range.byte_offset == start,
        forall|i: int|
            #![trigger reads[i]]
            0 <= i < reads.len() ==> reads[i].range.length <= chunk_len
                && reads[i].range.byte_offset + reads[i].range.length <= file_len && (
            reads[i].range.length == chunk_len || reads[i].range.byte_offset
                + reads[i].range.length == file_len),
        forall|i: int|
            #![trigger reads[i]]
            0 < i < reads.len() ==> reads[i].range.byte_offset == reads[i - 1].range.byte_offset
                + reads[i - 1].range.length,
        done is Ok && start < file_len ==> reads.len() > 0 && reads.last().range.byte_offset
            + reads.last().range.length == file_len,
{
    let (first, end, len) = (start as int, file_len as int, chunk_len as int);
    assert forall|i: nat| first <= #[trigger] scanner::chunk_start(first, end, len, i) <= end by {
        lemma_chunk_starts_in_file(first, end, len, i);
    }
    assert forall|i: int| #![trigger reads[i]] 0 <= i < reads.len() implies reads[i].range
        == scanner::chunk_range(first, end, len, i as nat) && reads[i].range.byte_offset
        == scanner::chunk_start(first, end, len, i as nat) && reads[i].range.byte_offset
        + reads[i].range.length == scanner::chunk_start(first, end, len, (i + 1) as nat) by {
        assert(first <= scanner::chunk_start(first, end, len, i as nat) <= end);
        assert(first <= scanner::chunk_start(first, end, len, (i + 1) as nat) <= end);
    }
    if done is Ok && reads.len() == 0 {
        assert(scanner::chunk_start(first, end, len, 0) == first);
    }
}

proof fn lemma_chunk_starts_in_file(start: int, file_len: int, chunk_len: int, i: nat)
    requires
        start <= file_len,
        chunk_len > 0,
    ensures
        start <= scanner::chunk_start(start, file_len, chunk_len, i) <= file_len,
    decreases i,
{
    if i > 0 {
        lemma_chunk_starts_in_file(start, file_len, chunk_len, (i - 1) as nat);
    }
}

/// What a scan of a file hands on are the entries that have been stored there, where reads give the
/// bytes of the file: one call for each, in their order, with its key and all its values. If no read
/// fails and no call is answered with an error, the scan ends well and there are just as many calls
/// as entries. That takes entries whose ends keep the alignment, and a file that memory can hold.
pub proof fn law_recorded_entries_are_stored<
    'a,
    E,
    R: FnMut(ReadRange) -> Result<Vec<u8>, E>,
    K: Key + ?Sized,
    V: Value,
>(
    bytes: Seq<u8>,
    start: u64,
    chunk_len: u64,
    read: R,
    chunks: Seq<Seq<u8>>,
    reads: Seq<ReadCall<E>>,
    calls: Seq<EntryCall<V, E>>,
    done: Result<(), MapError<E>>,
    stored: Seq<StoredEntry<'a, K, V>>,
)
    requires
        start <= bytes.len() <= u64::MAX,
        chunk_len > 0,
        aligned::fits_buffer(bytes.len() as int),
        bytes.skip(start as int) == scanner::entries_bytes(stored),
        forall|i: int| 0 <= i < stored.len() ==> scanner::ends_aligned(#[trigger] stored[i]),
        file::reads_file::<E, R>(read, bytes),
        reads_chunks::<E, R, K, V>(start, bytes.len() as u64, chunk_len, read, chunks),
        scan_is_logged::<E, K, V>(
            start,
            bytes.len() as u64,
            chunk_len,
            chunks,
            reads,
            calls,
            done,
        ),
    ensures
        calls.len() <= stored.len(),
        forall|i: int|
            #![trigger calls[i]]
            0 <= i < calls.len() ==> calls[i].key == stored[i].key.encoding() && calls[i].values
                == stored[i].values,
        done is Ok ==> calls.len() == stored.len(),
        (forall|i: int| 0 <= i < calls.len() ==> (#[trigger] calls[i]).answer is Ok) && (forall|
            i: int,
        |
            0 <= i < reads.len() ==> (#[trigger] reads[i]).reply is Ok) ==> done is Ok,
{
    scanner::law_all_stored_entries_are_given(bytes, start as int, chunk_len as int, stored);
    law_recorded_entries_are_those_of_file::<E, R, K, V>(
        bytes,
        start,
        chunk_len,
        read,
        chunks,
        reads,
        calls,
        done,
    );
    assert forall|i: int| #![trigger calls[i]] 0 <= i < calls.len() implies calls[i].key
        == stored[i].key.encoding() && calls[i].values == stored[i].values by {
        assert((calls[i].key, calls[i].values) == (stored[i].key.encoding(), stored[i].values));
    }
}

impl<K: Key + ?Sized, V: Value> UniversalHashMap<K, V> {
    /// Hands each entry on, in the order in which they are stored, as
    /// [`UniversalHashMap::for_each_entry`] does. The logs of the two functions tell how.
    pub fn for_each_entry_recorded<
        E,
        R: FnMut(ReadRange) -> Result<Vec<u8>, E>,
        F: FnMut(&K, &[V]) -> Result<(), E>,
    >(
        &self,
        file_len: u64,
        chunk_len: u64,
        read: &mut Recorded<R, ReadCall<E>>,
        f: &mut Recorded<F, EntryCall<V, E>>,
    ) -> (done: Result<(), MapError<E>>)
        requires
            self.wf(),
            self@.entries_start <= file_len,
            chunk_len > 0,
            old(read).wf(),
            old(read).log().len() == 0,
            old(f).wf(),
            old(f).log().len() == 0,
            may_scan::<E, R, K, V, F>(
                self@.entries_start,
                file_len,
                chunk_len,
                old(read).function(),
                old(f).function(),
            ),
        ensures
            final(read).wf(),
            final(read).function() == old(read).function(),
            final(f).wf(),
            final(f).function() == old(f).function(),
            entries_end::<E, R, K, V, F>(
                self@.entries_start,
                file_len,
                chunk_len,
                old(read).function(),
                old(f).function(),
                done,
            ),
            exists|chunks: Seq<Seq<u8>>| #[trigger]
                reads_chunks::<E, R, K, V>(
                    self@.entries_start,
                    file_len,
                    chunk_len,
                    old(read).function(),
                    chunks,
                ) && scan_is_logged::<E, K, V>(
                    self@.entries_start,
                    file_len,
                    chunk_len,
                    chunks,
                    final(read).log(),
                    final(f).log(),
                    done,
                ),
            self@.entries_start == file_len ==> done == Ok::<(), MapError<E>>(()),
    {
        self.scan_entries(file_len, chunk_len, read, f)
    }

    /// Reads the entries in chunks, one after the other, and hands them on.
    fn scan_entries<
        E,
        R: FnMut(ReadRange) -> Result<Vec<u8>, E>,
        F: FnMut(&K, &[V]) -> Result<(), E>,
    >(
        &self,
        file_len: u64,
        chunk_len: u64,
        read: &mut Recorded<R, ReadCall<E>>,
        f: &mut Recorded<F, EntryCall<V, E>>,
    ) -> (done: Result<(), MapError<E>>)
        requires
            self.wf(),
            self@.entries_start <= file_len,
            chunk_len > 0,
            old(read).wf(),
            old(read).log().len() == 0,
            old(f).wf(),
            old(f).log().len() == 0,
            may_scan::<E, R, K, V, F>(
                self@.entries_start,
                file_len,
                chunk_len,
                old(read).function(),
                old(f).function(),
            ),
        ensures
            final(read).wf(),
            final(read).function() == old(read).function(),
            final(f).wf(),
            final(f).function() == old(f).function(),
            entries_end::<E, R, K, V, F>(
                self@.entries_start,
                file_len,
                chunk_len,
                old(read).function(),
                old(f).function(),
                done,
            ),
            exists|chunks: Seq<Seq<u8>>| #[trigger]
                reads_chunks::<E, R, K, V>(
                    self@.entries_start,
                    file_len,
                    chunk_len,
                    old(read).function(),
                    chunks,
                ) && scan_is_logged::<E, K, V>(
                    self@.entries_start,
                    file_len,
                    chunk_len,
                    chunks,
                    final(read).log(),
                    final(f).log(),
                    done,
                ),
            self@.entries_start == file_len ==> done == Ok::<(), MapError<E>>(()),
    {
        let ghost reader = read.function();
        let ghost taker = f.function();
        assert(allow_scan::<E, R, K, V, F>(
            self@.entries_start,
            file_len,
            chunk_len,
            reader,
            taker,
        ));
        let mut scanner: EntryScanner<K, V> = EntryScanner::new();
        let mut pos: u64 = self.entries_start();
        let ghost start = pos;
        let ghost mut chunks: Seq<Seq<u8>> = Seq::empty();
        assert(read.log() == chunk_reads::<E>(start, file_len, chunk_len, chunks));
        assert(f.log() == taken_calls::<V, E>(scanner::scan_chunks::<K, V>(chunks).entries));
        while pos < file_len
            invariant
                allow_scan::<E, R, K, V, F>(start, file_len, chunk_len, reader, taker),
                read.wf(),
                read.function() == reader,
                reader == old(read).function(),
                read.log() == chunk_reads::<E>(start, file_len, chunk_len, chunks),
                f.wf(),
                f.function() == taker,
                taker == old(f).function(),
                f.log() == taken_calls::<V, E>(scanner::scan_chunks::<K, V>(chunks).entries),
                start == self@.entries_start,
                start <= pos <= file_len,
                chunk_len > 0,
                pos == scanner::chunk_start(
                    start as int,
                    file_len as int,
                    chunk_len as int,
                    chunks.len(),
                ),
                chunks.len() > 0 ==> start < file_len,
                reads_chunks::<E, R, K, V>(start, file_len, chunk_len, reader, chunks),
                ({
                    let found = scanner::scan_chunks::<K, V>(chunks);
                    &&& found.error is None
                    &&& found.kept == scanner.kept()
                    &&& found.known == scanner.known()
                    &&& took_entries::<E, K, V, F>(taker, found.entries)
                }),
            decreases file_len - pos,
        {
            let len: u64 = if chunk_len < file_len - pos {
                chunk_len
            } else {
                file_len - pos
            };
            let range = ReadRange::new(pos, len);
            assert(range == scanner::chunk_range(
                start as int,
                file_len as int,
                chunk_len as int,
                chunks.len(),
            ));
            let chunk = match read.read(range) {
                Ok(chunk) => chunk,
                Err(error) => {
                    assert(file::read_fails::<E, R>(reader, range, error));
                    assert(ends_with_chunks::<E, R, K, V, F>(
                        start,
                        file_len,
                        chunk_len,
                        reader,
                        taker,
                        chunks,
                        Err(MapError::Caller(error)),
                    ));
                    return Err(MapError::Caller(error));
                },
            };
            assert(call_ensures(reader, (range,), Ok::<Vec<u8>, E>(chunk)));
            assert(file::read_gives::<E, R>(reader, range, chunk@));
            let ghost before = scanner::scan_chunks::<K, V>(chunks);
            let scanned = scanner.feed(&chunk);
            let ghost found = scanner::models_of::<K, V>(scanned.entries@);
            proof {
                let all = chunks.push(chunk@);
                assert(all.drop_last() == chunks);
                assert forall|i: int| 0 <= i < all.len() implies #[trigger] reads_chunk::<
                    E,
                    R,
                    K,
                    V,
                >(start, file_len, chunk_len, reader, all, i) by {
                    assert(all.take(i) == chunks.take(i));
                    if i < chunks.len() {
                        assert(reads_chunk::<E, R, K, V>(
                            start,
                            file_len,
                            chunk_len,
                            reader,
                            chunks,
                            i,
                        ));
                    } else {
                        assert(chunks.take(i) == chunks);
                    }
                }
                assert(reads_chunks::<E, R, K, V>(start, file_len, chunk_len, reader, all));
                chunks = all;
                assert(before.entries + found == scanner::scan_chunks::<K, V>(chunks).entries);
            }
            let ghost entries = before.entries + found;
            let mut i: usize = 0;
            assert(entries.take(before.entries.len() as int) == before.entries);
            while i < scanned.entries.len()
                invariant
                    allow_scan::<E, R, K, V, F>(start, file_len, chunk_len, reader, taker),
                    read.wf(),
                    read.function() == reader,
                    reader == old(read).function(),
                    read.log() == chunk_reads::<E>(start, file_len, chunk_len, chunks),
                    f.wf(),
                    f.function() == taker,
                    taker == old(f).function(),
                    f.log() == taken_calls::<V, E>(entries.take(before.entries.len() + i)),
                    start == self@.entries_start,
                    i <= scanned.entries@.len(),
                    found == scanner::models_of::<K, V>(scanned.entries@),
                    entries == before.entries + found,
                    chunks.len() > 0,
                    scanner::scan_chunks::<K, V>(chunks).entries == entries,
                    scanner::scan_chunks::<K, V>(chunks.drop_last()).entries == before.entries,
                    reads_chunks::<E, R, K, V>(start, file_len, chunk_len, reader, chunks),
                    took_entries::<E, K, V, F>(taker, entries.take(before.entries.len() + i)),
                    start == file_len ==> false,
                decreases scanned.entries@.len() - i,
            {
                let key = K::borrow(&scanned.entries[i].0);
                let values = scanned.entries[i].1.as_slice();
                let ghost at = before.entries.len() + i;
                assert(entries[at] == found[i as int]);
                assert(comes_of_chunks::<E, R, K, V, F>(
                    start,
                    file_len,
                    chunk_len,
                    reader,
                    taker,
                    (key.encoding(), values@),
                )) by {
                    assert(hands_on::<E, K, V, F>(taker, chunks, at));
                }
                match f.take_entry(key, values) {
                    Ok(unit) => {
                        assert(unit == ());
                        assert(call_ensures(taker, (key, values), Ok::<(), E>(())));
                        assert(took_entry::<E, K, V, F>(taker, entries[at]));
                    },
                    Err(error) => {
                        assert(call_ensures(taker, (key, values), Err::<(), E>(error)));
                        assert(refuses_entry::<E, K, V, F>(taker, entries[at], error));
                        assert(ends_with_chunks::<E, R, K, V, F>(
                            start,
                            file_len,
                            chunk_len,
                            reader,
                            taker,
                            chunks,
                            Err(MapError::Caller(error)),
                        ));
                        return Err(MapError::Caller(error));
                    },
                }
                assert(entries.take(at + 1) == entries.take(at).push(entries[at]));
                i = i + 1;
            }
            assert(entries.take(entries.len() as int) == entries);
            if let Some(error) = scanned.error {
                assert(ends_with_chunks::<E, R, K, V, F>(
                    start,
                    file_len,
                    chunk_len,
                    reader,
                    taker,
                    chunks,
                    Err(MapError::Data(error)),
                ));
                return Err(MapError::Data(error));
            }
            pos = pos + len;
        }
        let done = match scanner.finish() {
            Ok(()) => Ok(()),
            Err(error) => Err(MapError::Data(error)),
        };
        assert(ends_with_chunks::<E, R, K, V, F>(
            start,
            file_len,
            chunk_len,
            reader,
            taker,
            chunks,
            done,
        ));
        done
    }
}

} // verus!
