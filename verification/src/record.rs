//! Functions of a caller whose calls are written down.

use crate::bytes_buffer::{ConsumerCall, StreamBufferStep};
use crate::calls::Counted;
use crate::file::ReadRange;
use crate::keys::Key;
use vstd::prelude::*;

verus! {

/// One read: the range, and the bytes that came back or the error.
pub struct ReadCall<E> {
    pub range: ReadRange,
    pub reply: Result<Seq<u8>, E>,
}

/// One entry that was handed on: the encoding of its key, its values, and the answer.
pub struct EntryCall<V, E> {
    pub key: Seq<u8>,
    pub values: Seq<V>,
    pub answer: Result<(), E>,
}

/// One key that was handed on: its encoding, and the answer.
pub struct KeyCall<E> {
    pub key: Seq<u8>,
    pub answer: Result<(), E>,
}

/// One answer that was handed on: what the caller knows the request by, the values, and what it was
/// answered itself.
pub struct AnswerCall<Meta, V, E> {
    pub meta: Meta,
    pub values: Option<Seq<V>>,
    pub answer: Result<(), E>,
}

/// The values as a sequence.
pub open spec fn seq_of_slice<V>(values: Option<&[V]>) -> Option<Seq<V>> {
    match values {
        Some(values) => Some(values@),
        None => None,
    }
}

/// What came back of a read.
pub open spec fn reply_model<E>(reply: Result<Vec<u8>, E>) -> Result<Seq<u8>, E> {
    match reply {
        Ok(bytes) => Ok(bytes@),
        Err(error) => Err(error),
    }
}

/// Whether `log` goes on where `before` ends.
pub open spec fn goes_on<C>(before: Seq<C>, log: Seq<C>) -> bool {
    before.len() <= log.len() && log.take(before.len() as int) == before
}

/// The calls in `log` that have been made since it was `before`.
pub open spec fn since<C>(before: Seq<C>, log: Seq<C>) -> Seq<C> {
    log.skip(before.len() as int)
}

/// A log goes on with the calls that are put behind it.
pub(crate) proof fn lemma_log_is_extended<C>(before: Seq<C>, made: Seq<C>)
    ensures
        goes_on(before, before + made),
        since(before, before + made) == made,
{
    assert((before + made).take(before.len() as int) == before);
    assert((before + made).skip(before.len() as int) == made);
}

/// One part more comes behind the calls of the parts in front of it.
pub(crate) proof fn lemma_parts_go_on<C>(parts: Seq<Seq<C>>, part: Seq<C>)
    ensures
        parts.push(part).flatten_alt() == parts.flatten_alt() + part,
{
    assert(parts.push(part).drop_last() == parts);
}

/// Where no read in any part fails, none in all of them does.
pub(crate) proof fn lemma_no_part_fails<E>(parts: Seq<Seq<ReadCall<E>>>)
    requires
        forall|i: int, j: int|
            0 <= i < parts.len() && 0 <= j < parts[i].len() ==> (#[trigger] parts[i][j]).reply is Ok,
    ensures
        forall|j: int|
            0 <= j < parts.flatten_alt().len() ==> (#[trigger] parts.flatten_alt()[j]).reply is Ok,
    decreases parts.len(),
{
    if parts.len() > 0 {
        let front = parts.drop_last();
        assert forall|i: int, j: int| 0 <= i < front.len() && 0 <= j < front[i].len() implies (
        #[trigger] front[i][j]).reply is Ok by {
            assert(front[i][j] == parts[i][j]);
        }
        lemma_no_part_fails(front);
        assert forall|j: int| 0 <= j < parts.flatten_alt().len() implies (
        #[trigger] parts.flatten_alt()[j]).reply is Ok by {
            let len = front.flatten_alt().len();
            if j < len {
                assert(parts.flatten_alt()[j] == front.flatten_alt()[j]);
            } else {
                assert(parts.flatten_alt()[j] == parts[parts.len() - 1][j - len]);
            }
        }
    }
}

/// A log that goes on twice has the calls of the first time in front of those of the second.
pub(crate) proof fn lemma_log_goes_on<C>(first: Seq<C>, second: Seq<C>, third: Seq<C>)
    requires
        goes_on(first, second),
        goes_on(second, third),
    ensures
        goes_on(first, third),
        since(first, third) == since(first, second) + since(second, third),
{
    assert forall|i: int| 0 <= i < second.len() implies third[i] == second[i] by {
        assert(third.take(second.len() as int)[i] == third[i]);
    }
    assert(third.take(first.len() as int) == second.take(first.len() as int));
    assert(since(first, third) == since(first, second) + since(second, third));
}

/// A function that a caller has handed over, with the log of all its calls since: one `C` for each
/// call, in the order in which they were made.
pub struct Recorded<F, C> {
    counted: Counted<F>,
    log: Ghost<Seq<C>>,
}

impl<F, C> Recorded<F, C> {
    /// The function.
    pub closed spec fn function(&self) -> F {
        self.counted.function()
    }

    /// The calls that have been made.
    pub closed spec fn log(&self) -> Seq<C> {
        self.log@
    }

    /// Whether each call is in the log, and nothing else is.
    pub closed spec fn wf(&self) -> bool {
        self.log@.len() == self.counted.count()
    }

    /// Takes a function over that has not been called yet.
    pub fn new(function: F) -> (recorded: Self)
        ensures
            recorded.wf(),
            recorded.function() == function,
            recorded.log() == Seq::<C>::empty(),
    {
        Recorded { counted: Counted::new(function), log: Ghost(Seq::empty()) }
    }
}

impl<T, F: FnMut(&[T], &[T]) -> StreamBufferStep> Recorded<F, ConsumerCall<T>> {
    /// Hands two slices to a consumer.
    pub fn consume(&mut self, part1: &[T], part2: &[T]) -> (step: StreamBufferStep)
        requires
            old(self).wf(),
            call_requires(old(self).function(), (part1, part2)),
        ensures
            final(self).wf(),
            final(self).function() == old(self).function(),
            call_ensures(old(self).function(), (part1, part2), step),
            final(self).log() == old(self).log().push(
                ConsumerCall { part1: part1@, part2: part2@, step },
            ),
    {
        let step = self.counted.call_with_two(part1, part2);
        self.log = Ghost(self.log@.push(ConsumerCall { part1: part1@, part2: part2@, step }));
        step
    }
}

impl<E, R: FnMut(ReadRange) -> Result<Vec<u8>, E>> Recorded<R, ReadCall<E>> {
    /// Reads a range.
    pub fn read(&mut self, range: ReadRange) -> (reply: Result<Vec<u8>, E>)
        requires
            old(self).wf(),
            call_requires(old(self).function(), (range,)),
        ensures
            final(self).wf(),
            final(self).function() == old(self).function(),
            call_ensures(old(self).function(), (range,), reply),
            final(self).log() == old(self).log().push(
                ReadCall { range, reply: reply_model(reply) },
            ),
    {
        let reply = self.counted.call(range);
        self.log = Ghost(self.log@.push(ReadCall { range, reply: reply_model(reply) }));
        reply
    }
}

impl<V, E, F> Recorded<F, EntryCall<V, E>> {
    /// Hands an entry on.
    pub fn take_entry<K: Key + ?Sized>(&mut self, key: &K, values: &[V]) -> (answer: Result<
        (),
        E,
    >) where F: FnMut(&K, &[V]) -> Result<(), E>
        requires
            old(self).wf(),
            call_requires(old(self).function(), (key, values)),
        ensures
            final(self).wf(),
            final(self).function() == old(self).function(),
            call_ensures(old(self).function(), (key, values), answer),
            final(self).log() == old(self).log().push(
                EntryCall { key: key.encoding(), values: values@, answer },
            ),
    {
        let answer = self.counted.call_with_two(key, values);
        self.log = Ghost(
            self.log@.push(EntryCall { key: key.encoding(), values: values@, answer }),
        );
        answer
    }
}

impl<E, F> Recorded<F, KeyCall<E>> {
    /// Hands a key on.
    pub fn take_key<K: Key + ?Sized>(&mut self, key: &K) -> (answer: Result<(), E>) where
        F: FnMut(&K) -> Result<(), E>,

        requires
            old(self).wf(),
            call_requires(old(self).function(), (key,)),
        ensures
            final(self).wf(),
            final(self).function() == old(self).function(),
            call_ensures(old(self).function(), (key,), answer),
            final(self).log() == old(self).log().push(KeyCall { key: key.encoding(), answer }),
    {
        let answer = self.counted.call(key);
        self.log = Ghost(self.log@.push(KeyCall { key: key.encoding(), answer }));
        answer
    }
}

impl<Meta, V, E, F> Recorded<F, AnswerCall<Meta, V, E>> where
    F: FnMut(Meta, Option<&[V]>) -> Result<(), E>,
 {
    /// Hands an answer on.
    pub fn take_answer(&mut self, meta: Meta, values: Option<&[V]>) -> (answer: Result<(), E>)
        requires
            old(self).wf(),
            call_requires(old(self).function(), (meta, values)),
        ensures
            final(self).wf(),
            final(self).function() == old(self).function(),
            call_ensures(old(self).function(), (meta, values), answer),
            final(self).log() == old(self).log().push(
                AnswerCall { meta, values: seq_of_slice(values), answer },
            ),
    {
        let ghost name = meta;
        let answer = self.counted.call_with_two(meta, values);
        self.log = Ghost(
            self.log@.push(AnswerCall { meta: name, values: seq_of_slice(values), answer }),
        );
        answer
    }
}

} // verus!
