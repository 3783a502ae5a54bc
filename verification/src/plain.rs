//! Operations that take plain functions of the caller. Each hands them to the operation that writes
//! down their calls, and does nothing else with them.

use crate::batch;
use crate::bytes_buffer;
use crate::bytes_buffer::{ConsumerCall, StreamBuffer, StreamBufferStep};
use crate::entries;
use crate::file;
use crate::file::{DataError, MapError, ReadRange};
use crate::keys::Key;
use crate::phf;
use crate::record::{AnswerCall, EntryCall, KeyCall, ReadCall, Recorded};
use crate::state::PartialEntryKind;
use crate::universal_hashmap;
use crate::universal_hashmap::{MapModel, UniversalHashMap};
use crate::values::Value;
use crate::visit;
use std::collections::VecDeque;
use vstd::prelude::*;

verus! {

impl<T: Clone> StreamBuffer<T> {
    /// Short: append `new_items` to the FIFO and call `consumer` in a loop.
    ///
    /// Long: but with zero-copy optimizations. Most of the new items would not
    /// be copied into the internal buffer. Instead, the `consumer` will be
    /// served directly from `new_items`, unless it spans across more than one
    /// `new_items` chunks.
    ///
    /// This optimization imposes a bit awkward API: the `consumer` gets two
    /// slices. If you concatenate them, you get the whole FIFO. So, it's like
    /// [`std::collections::VecDeque::as_slices`].
    ///
    /// If the consumer needs a contiguous slice of a certain size, it can
    /// return [`StreamBufferStep::WantContiguos`] with the required size.
    /// This method will expand the first slice and call the consumer again.
    ///
    /// The consumer is handed a non-empty first slice. It must not consume more
    /// than it was handed. The loop ends because each answer makes progress:
    /// a consumer neither consumes nothing nor wants stored items that it was
    /// handed in one piece. That is asked only of the slices it is handed.
    pub fn process<F: FnMut(&[T], &[T]) -> StreamBufferStep>(
        &mut self,
        new_items: &[T],
        consumer: F,
    )
        requires
            old(self).wf(),
            bytes_buffer::can_serve(consumer, old(self)@, new_items@),
        ensures
            final(self).wf(),
            exists|calls: Seq<ConsumerCall<T>>|
                #[trigger] bytes_buffer::served(old(self)@, new_items@, calls, final(self)@)
                    && forall|i: int|
                    0 <= i < calls.len() ==> bytes_buffer::answers(consumer, #[trigger] calls[i]),
    {
        let mut recorded: Recorded<F, ConsumerCall<T>> = Recorded::new(consumer);
        self.process_recorded(new_items, &mut recorded);
    }
}

impl<K: Key + ?Sized, V: Value> UniversalHashMap<K, V> {
    /// Load the hash map from a file, of which `read` gives the bytes in a range.
    pub fn open<E, R: FnMut(ReadRange) -> Result<Vec<u8>, E>>(read: R) -> (map: Result<
        Self,
        MapError<E>,
    >)
        requires
            universal_hashmap::may_open::<E, R, K>(read),
        ensures
            map matches Ok(map) ==> map.wf(),
            universal_hashmap::opens::<E, R, K>(read, universal_hashmap::opened_model(map)),
            match map {
                Ok(map) => forall|bytes: Seq<u8>| #[trigger]
                    file::reads_file::<E, R>(read, bytes) ==> universal_hashmap::map_of_file::<K>(
                        bytes,
                    ) == Ok::<MapModel, DataError>(map@),
                Err(MapError::Data(error)) => forall|bytes: Seq<u8>| #[trigger]
                    file::reads_file::<E, R>(read, bytes) ==> universal_hashmap::map_of_file::<K>(
                        bytes,
                    ) == Err::<MapModel, DataError>(error),
                Err(MapError::Caller(_)) => true,
            },
    {
        let mut reads: Recorded<R, ReadCall<E>> = Recorded::new(read);
        Self::open_recorded(&mut reads)
    }

    /// Hands each entry to `f`, in the order in which they are stored. The file is read in chunks of
    /// `chunk_len` bytes.
    pub fn for_each_entry<
        E,
        R: FnMut(ReadRange) -> Result<Vec<u8>, E>,
        F: FnMut(&K, &[V]) -> Result<(), E>,
    >(&self, file_len: u64, chunk_len: u64, read: R, f: F) -> (done: Result<(), MapError<E>>)
        requires
            self.wf(),
            self@.entries_start <= file_len,
            chunk_len > 0,
            entries::may_scan::<E, R, K, V, F>(self@.entries_start, file_len, chunk_len, read, f),
        ensures
            entries::entries_end::<E, R, K, V, F>(
                self@.entries_start,
                file_len,
                chunk_len,
                read,
                f,
                done,
            ),
            forall|bytes: Seq<u8>| #[trigger]
                file::reads_file::<E, R>(read, bytes) && bytes.len() == file_len
                    ==> entries::entries_are_true::<E, R, K, V, F>(
                    bytes,
                    self@.entries_start,
                    chunk_len,
                    read,
                    f,
                    done,
                ),
            self@.entries_start == file_len ==> done == Ok::<(), MapError<E>>(()),
    {
        let ghost reader = read;
        let ghost taker = f;
        let mut reads: Recorded<R, ReadCall<E>> = Recorded::new(read);
        let mut calls: Recorded<F, EntryCall<V, E>> = Recorded::new(f);
        let done = self.for_each_entry_recorded(file_len, chunk_len, &mut reads, &mut calls);
        assert forall|bytes: Seq<u8>| #[trigger]
            file::reads_file::<E, R>(reader, bytes) && bytes.len() == file_len implies
            entries::entries_are_true::<E, R, K, V, F>(
            bytes,
            self@.entries_start,
            chunk_len,
            reader,
            taker,
            done,
        ) by {
            entries::law_entries_are_true::<E, R, K, V, F>(
                bytes,
                self@.entries_start,
                chunk_len,
                reader,
                taker,
                done,
            );
        }
        done
    }

    /// Hands each key to `f`, in the order in which they are stored.
    pub fn for_each_key<
        E,
        R: FnMut(ReadRange) -> Result<Vec<u8>, E>,
        F: FnMut(&K) -> Result<(), E>,
    >(&self, file_len: u64, read: R, f: F) -> (done: Result<(), MapError<E>>)
        requires
            self.wf(),
            visit::may_visit::<E, R, K, V, F>(self@, file_len, read, f),
        ensures
            visit::keys_end::<E, R, K, V, F>(self@, file_len, read, f, done),
            forall|bytes: Seq<u8>| #[trigger]
                file::reads_file::<E, R>(read, bytes) && bytes.len() == file_len ==> {
                    ||| done matches Err(MapError::Caller(error)) && file::read_fails::<E, R>(
                        read,
                        universal_hashmap::bucket_range(self@),
                        error,
                    )
                    ||| exists|order: Seq<u64>| #[trigger]
                        visit::is_visiting_order(self@, bytes, order) && visit::visit_is_true::<
                            E,
                            R,
                            K,
                            V,
                            F,
                        >(self@, bytes, read, f, order, done)
                },
    {
        let ghost reader = read;
        let ghost taker = f;
        let mut reads: Recorded<R, ReadCall<E>> = Recorded::new(read);
        let mut calls: Recorded<F, KeyCall<E>> = Recorded::new(f);
        let done = self.for_each_key_recorded(file_len, &mut reads, &mut calls);
        proof {
            assert forall|bytes: Seq<u8>| #[trigger]
                file::reads_file::<E, R>(reader, bytes) && bytes.len() == file_len implies {
                ||| done matches Err(MapError::Caller(error)) && file::read_fails::<E, R>(
                    reader,
                    universal_hashmap::bucket_range(self@),
                    error,
                )
                ||| exists|order: Seq<u64>| #[trigger]
                    visit::is_visiting_order(self@, bytes, order) && visit::visit_is_true::<
                        E,
                        R,
                        K,
                        V,
                        F,
                    >(self@, bytes, reader, taker, order, done)
            } by {
                visit::law_keys_are_true::<E, R, K, V, F>(self@, bytes, reader, taker, done);
            }
        }
        done
    }

    /// Hands the values of each key to `f`, with what its caller knows the key by.
    pub fn batch_with_entry<
        'k,
        Meta,
        E,
        R: FnMut(ReadRange) -> Result<Vec<u8>, E>,
        F: FnMut(Meta, Option<&[V]>) -> Result<(), E>,
    >(&self, keys: VecDeque<(Meta, &'k K)>, file_len: u64, read: R, f: F) -> (done: Result<
        (),
        MapError<E>,
    >)
        requires
            self.wf(),
            phf::usable_levels(self@.levels),
            PartialEntryKind::KeyAndValues(1).spec_est_size::<K, V>() <= usize::MAX,
            batch::may_batch::<E, Meta, R, K, V, F>(self@, file_len, read, f, keys@),
        ensures
            batch::batch_ends::<E, Meta, R, K, V, F>(self@, file_len, read, f, keys@, done),
            forall|bytes: Seq<u8>| #[trigger]
                file::reads_file::<E, R>(read, bytes) && bytes.len() == file_len
                    ==> batch::batch_is_true::<E, Meta, R, K, V, F>(
                    self@,
                    bytes,
                    read,
                    f,
                    keys@,
                    done,
                ),
            keys@.len() == 0 ==> done == Ok::<(), MapError<E>>(()),
    {
        let ghost all = keys@;
        let ghost reader = read;
        let ghost taker = f;
        let mut reads: Recorded<R, ReadCall<E>> = Recorded::new(read);
        let mut calls: Recorded<F, AnswerCall<Meta, V, E>> = Recorded::new(f);
        let done = self.batch_with_entry_recorded(keys, file_len, &mut reads, &mut calls);
        assert forall|bytes: Seq<u8>| #[trigger]
            file::reads_file::<E, R>(reader, bytes) && bytes.len() == file_len implies
            batch::batch_is_true::<E, Meta, R, K, V, F>(
            self@,
            bytes,
            reader,
            taker,
            all,
            done,
        ) by {
            batch::law_batch_is_true::<E, Meta, R, K, V, F>(self@, bytes, reader, taker, all, done);
        }
        done
    }
}

} // verus!
