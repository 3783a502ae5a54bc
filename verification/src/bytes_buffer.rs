//! A producer-consumer FIFO that serves most of its items without copying them.

use crate::record::Recorded;
use vstd::prelude::*;

verus! {

/// The number of items that `v` can hold before it has to allocate again, by `Vec::capacity`.
///
/// Trusted: a vector's capacity is at least its length. How much larger it is, the allocator
/// decides, and nothing here depends on it.
#[verifier::external_body]
fn vec_capacity<T>(v: &Vec<T>) -> (capacity: usize)
    ensures
        capacity >= v@.len(),
{
    v.capacity()
}

/// Drops the first `count` items of `v` by `Vec::drain`, keeping the allocation.
///
/// Trusted: the other items stay, in their order.
#[verifier::external_body]
fn vec_drop_front<T>(v: &mut Vec<T>, count: usize)
    requires
        count <= old(v)@.len(),
    ensures
        final(v)@ == old(v)@.skip(count as int),
{
    v.drain(..count);
}

/// What a consumer answers when it has looked at the FIFO.
#[derive(Debug)]
pub enum StreamBufferStep {
    /// Advance the FIFO by this amount of items.
    Consumed(usize),
    /// Indicate that the consumer wants a contiguous slice of at least this
    /// size. Don't advance the FIFO.
    WantContiguos(usize),
}

impl StreamBufferStep {
    /// The answer of a consumer that can do nothing before more items arrive.
    pub fn not_enough_data() -> (step: Self)
        ensures
            step == StreamBufferStep::WantContiguos(usize::MAX),
    {
        // No FIFO holds this many items more than it is handed at once, so
        // `process` keeps what it has and returns.
        Self::WantContiguos(usize::MAX)
    }
}

/// One call of a consumer: the two slices that it was handed, and its answer.
pub struct ConsumerCall<T> {
    pub part1: Seq<T>,
    pub part2: Seq<T>,
    pub step: StreamBufferStep,
}

/// `out` is `front` followed by clones of `items`.
pub open spec fn appended<T: Clone>(front: Seq<T>, items: Seq<T>, out: Seq<T>) -> bool {
    &&& out.len() == front.len() + items.len()
    &&& forall|i: int| 0 <= i < front.len() ==> #[trigger] out[i] == front[i]
    &&& forall|i: int|
        front.len() <= i < out.len() ==> cloned::<T>(items[i - front.len()], #[trigger] out[i])
}

/// How many of `rest` must move behind `buf` for `wanted` items to be contiguous.
pub open spec fn missing<T>(buf: Seq<T>, wanted: usize) -> int {
    if wanted > buf.len() {
        wanted - buf.len()
    } else {
        0
    }
}

/// `calls` is how a consumer is served from a FIFO whose stored items are `buf`, to which `rest`
/// has just been appended, and `left` is what the FIFO holds when the serving ends.
///
/// Stored items are always served first, with `rest` as the second slice. Once none is stored,
/// `rest` is served directly. An answer that wants more contiguous items than are stored moves
/// just as many over, and one that wants more than there are ends the serving.
pub open spec fn served<T: Clone>(
    buf: Seq<T>,
    rest: Seq<T>,
    calls: Seq<ConsumerCall<T>>,
    left: Seq<T>,
) -> bool
    decreases calls.len(),
{
    if buf.len() == 0 && rest.len() == 0 {
        calls.len() == 0 && left.len() == 0
    } else if calls.len() == 0 {
        false
    } else if buf.len() > 0 {
        let later = calls.drop_first();
        &&& calls[0].part1 == buf
        &&& calls[0].part2 == rest
        &&& match calls[0].step {
            StreamBufferStep::Consumed(count) => if count < buf.len() {
                served(buf.skip(count as int), rest, later, left)
            } else {
                &&& count <= buf.len() + rest.len()
                &&& served(Seq::empty(), rest.skip(count - buf.len()), later, left)
            },
            StreamBufferStep::WantContiguos(count) => if count > buf.len() + rest.len() {
                &&& later.len() == 0
                &&& appended(buf, rest, left)
            } else {
                let moved = missing(buf, count);
                &&& later.len() > 0
                &&& appended(buf, rest.take(moved), later[0].part1)
                &&& served(later[0].part1, rest.skip(moved), later, left)
            },
        }
    } else {
        let later = calls.drop_first();
        &&& calls[0].part1 == rest
        &&& calls[0].part2 == Seq::<T>::empty()
        &&& match calls[0].step {
            StreamBufferStep::Consumed(count) => {
                &&& count <= rest.len()
                &&& served(Seq::empty(), rest.skip(count as int), later, left)
            },
            StreamBufferStep::WantContiguos(_) => {
                &&& later.len() == 0
                &&& appended(Seq::empty(), rest, left)
            },
        }
    }
}

/// How many items the answers in `calls` consume.
pub open spec fn consumed<T>(calls: Seq<ConsumerCall<T>>) -> int
    decreases calls.len(),
{
    if calls.len() == 0 {
        0
    } else {
        match calls[0].step {
            StreamBufferStep::Consumed(count) => count + consumed(calls.drop_first()),
            StreamBufferStep::WantContiguos(_) => consumed(calls.drop_first()),
        }
    }
}

/// `out` is what is left of `buf + rest` without its first `from` items. The items of `buf` are
/// in it unchanged, and those of `rest` as themselves or as clones.
pub open spec fn carried<T: Clone>(buf: Seq<T>, rest: Seq<T>, from: int, out: Seq<T>) -> bool {
    &&& 0 <= from
    &&& out.len() == buf.len() + rest.len() - from
    &&& forall|i: int|
        0 <= i < out.len() ==> if from + i < buf.len() {
            #[trigger] out[i] == buf[from + i]
        } else {
            cloned::<T>(rest[from + i - buf.len()], out[i])
        }
}

/// The two slices that a consumer is handed are together the whole FIFO: all that was stored and
/// appended, in order, but for what was consumed before. The first of them is never empty.
pub proof fn law_parts_are_whole_fifo<T: Clone>(
    buf: Seq<T>,
    rest: Seq<T>,
    calls: Seq<ConsumerCall<T>>,
    left: Seq<T>,
    i: int,
)
    requires
        served(buf, rest, calls, left),
        0 <= i < calls.len(),
    ensures
        carried(buf, rest, consumed(calls.take(i)), calls[i].part1 + calls[i].part2),
        calls[i].part1.len() > 0,
    decreases calls.len(),
{
    let later = calls.drop_first();
    if i == 0 {
        assert(calls.take(0) == Seq::<ConsumerCall<T>>::empty());
        let parts = calls[0].part1 + calls[0].part2;
        assert(parts == buf + rest);
    } else {
        assert(calls.take(i).drop_first() == later.take(i - 1));
        assert(calls.take(i)[0] == calls[0]);
        let out = calls[i].part1 + calls[i].part2;
        match calls[0].step {
            StreamBufferStep::Consumed(count) => {
                if count < buf.len() {
                    law_parts_are_whole_fifo(buf.skip(count as int), rest, later, left, i - 1);
                } else {
                    law_parts_are_whole_fifo(
                        Seq::empty(),
                        rest.skip(count - buf.len()),
                        later,
                        left,
                        i - 1,
                    );
                }
            },
            StreamBufferStep::WantContiguos(count) => {
                let moved = missing(buf, count);
                law_parts_are_whole_fifo(later[0].part1, rest.skip(moved), later, left, i - 1);
            },
        }
    }
}

/// Nothing is lost, doubled or moved: when the serving ends, the FIFO holds all that was stored
/// and appended, in order, without the items that the consumer consumed.
pub proof fn law_nothing_is_lost<T: Clone>(
    buf: Seq<T>,
    rest: Seq<T>,
    calls: Seq<ConsumerCall<T>>,
    left: Seq<T>,
)
    requires
        served(buf, rest, calls, left),
    ensures
        carried(buf, rest, consumed(calls), left),
    decreases calls.len(),
{
    if calls.len() > 0 {
        let later = calls.drop_first();
        match calls[0].step {
            StreamBufferStep::Consumed(count) => {
                if count < buf.len() {
                    law_nothing_is_lost(buf.skip(count as int), rest, later, left);
                } else {
                    law_nothing_is_lost(Seq::empty(), rest.skip(count - buf.len()), later, left);
                }
            },
            StreamBufferStep::WantContiguos(count) => {
                if later.len() > 0 {
                    law_nothing_is_lost(
                        later[0].part1,
                        rest.skip(missing(buf, count)),
                        later,
                        left,
                    );
                } else {
                    assert(consumed(later) == 0);
                }
            },
        }
    }
}

/// Each answer moves the FIFO by what it says, and by nothing else: what the consumer is handed next,
/// or what is left when it is not called again, is what it was handed without the items that it
/// consumed. It is called again just as long as it has left items when it consumes some.
pub proof fn law_each_answer_advances<T: Clone>(
    buf: Seq<T>,
    rest: Seq<T>,
    calls: Seq<ConsumerCall<T>>,
    left: Seq<T>,
    i: int,
)
    requires
        served(buf, rest, calls, left),
        0 <= i < calls.len(),
    ensures
        ({
            let whole = calls[i].part1 + calls[i].part2;
            let next = if i + 1 < calls.len() {
                calls[i + 1].part1 + calls[i + 1].part2
            } else {
                left
            };
            match calls[i].step {
                StreamBufferStep::Consumed(count) => {
                    &&& count <= whole.len()
                    &&& carried(Seq::empty(), whole, count as int, next)
                    &&& i + 1 < calls.len() <==> count < whole.len()
                },
                StreamBufferStep::WantContiguos(_) => carried(Seq::empty(), whole, 0, next),
            }
        }),
    decreases calls.len(),
{
    let later = calls.drop_first();
    if i == 0 {
        match calls[0].step {
            StreamBufferStep::Consumed(count) => {
                let (stored, new) = if count < buf.len() {
                    (buf.skip(count as int), rest)
                } else {
                    (Seq::empty(), rest.skip(count - buf.len()))
                };
                assert(served(stored, new, later, left));
                if later.len() > 0 {
                    assert(later.take(0) == Seq::<ConsumerCall<T>>::empty());
                    law_parts_are_whole_fifo(stored, new, later, left, 0);
                }
            },
            StreamBufferStep::WantContiguos(count) => {
                if later.len() > 0 {
                    let new = rest.skip(missing(buf, count));
                    assert(later.take(0) == Seq::<ConsumerCall<T>>::empty());
                    law_parts_are_whole_fifo(later[0].part1, new, later, left, 0);
                }
            },
        }
    } else {
        match calls[0].step {
            StreamBufferStep::Consumed(count) => {
                if count < buf.len() {
                    law_each_answer_advances(buf.skip(count as int), rest, later, left, i - 1);
                } else {
                    law_each_answer_advances(
                        Seq::empty(),
                        rest.skip(count - buf.len()),
                        later,
                        left,
                        i - 1,
                    );
                }
            },
            StreamBufferStep::WantContiguos(count) => {
                law_each_answer_advances(
                    later[0].part1,
                    rest.skip(missing(buf, count)),
                    later,
                    left,
                    i - 1,
                );
            },
        }
    }
}

/// Items are copied only where the consumer wants them contiguous: of what it has not consumed it is
/// handed the same two slices again, or, when nothing of the first is left, the second as the first.
/// What it wants contiguous is taken from the start of the second slice.
pub proof fn law_slices_are_handed_on<T: Clone>(
    buf: Seq<T>,
    rest: Seq<T>,
    calls: Seq<ConsumerCall<T>>,
    left: Seq<T>,
    i: int,
)
    requires
        served(buf, rest, calls, left),
        0 <= i,
        i + 1 < calls.len(),
    ensures
        ({
            let (part1, part2) = (calls[i].part1, calls[i].part2);
            let next = calls[i + 1];
            match calls[i].step {
                StreamBufferStep::Consumed(count) => if count < part1.len() {
                    next.part1 == part1.skip(count as int) && next.part2 == part2
                } else {
                    next.part1 == part2.skip(count - part1.len()) && next.part2.len() == 0
                },
                StreamBufferStep::WantContiguos(count) => {
                    &&& count <= part1.len() + part2.len()
                    &&& appended(part1, part2.take(missing(part1, count)), next.part1)
                    &&& next.part2 == part2.skip(missing(part1, count))
                },
            }
        }),
    decreases calls.len(),
{
    let later = calls.drop_first();
    if i == 0 {
        assert(later[0] == calls[1]);
        match calls[0].step {
            StreamBufferStep::Consumed(count) => {
                if count < buf.len() {
                    law_first_call_has_whole_fifo(buf.skip(count as int), rest, later, left);
                } else {
                    let new = rest.skip(count - buf.len());
                    law_first_call_has_whole_fifo(Seq::empty(), new, later, left);
                    assert(calls[0].part2.len() == 0 ==> Seq::<T>::empty() == calls[0].part2);
                }
            },
            StreamBufferStep::WantContiguos(count) => {
                let new = rest.skip(missing(buf, count));
                law_first_call_has_whole_fifo(later[0].part1, new, later, left);
            },
        }
    } else {
        match calls[0].step {
            StreamBufferStep::Consumed(count) => {
                if count < buf.len() {
                    law_slices_are_handed_on(buf.skip(count as int), rest, later, left, i - 1);
                } else {
                    law_slices_are_handed_on(
                        Seq::empty(),
                        rest.skip(count - buf.len()),
                        later,
                        left,
                        i - 1,
                    );
                }
            },
            StreamBufferStep::WantContiguos(count) => {
                law_slices_are_handed_on(
                    later[0].part1,
                    rest.skip(missing(buf, count)),
                    later,
                    left,
                    i - 1,
                );
            },
        }
    }
}

/// What the consumer is handed first is the whole FIFO: all that is stored, and all that is new. It is
/// not called where that is nothing.
pub proof fn law_first_call_has_whole_fifo<T: Clone>(
    buf: Seq<T>,
    rest: Seq<T>,
    calls: Seq<ConsumerCall<T>>,
    left: Seq<T>,
)
    requires
        served(buf, rest, calls, left),
    ensures
        calls.len() == 0 <==> buf.len() + rest.len() == 0,
        calls.len() > 0 ==> calls[0].part1 + calls[0].part2 == buf + rest,
        calls.len() > 0 && buf.len() > 0 ==> calls[0].part1 == buf && calls[0].part2 == rest,
        calls.len() > 0 && buf.len() == 0 ==> calls[0].part1 == rest && calls[0].part2.len() == 0,
        calls.len() == 0 ==> left.len() == 0,
{
    if calls.len() > 0 {
        assert(calls[0].part1 + calls[0].part2 == buf + rest);
    }
}

/// A count past the leftovers comes off the new items: from then on the consumer is served as from an
/// empty FIFO, to which the new items without that many have been appended.
pub proof fn law_count_past_leftovers<T: Clone>(
    buf: Seq<T>,
    rest: Seq<T>,
    calls: Seq<ConsumerCall<T>>,
    left: Seq<T>,
    count: usize,
)
    requires
        served(buf, rest, calls, left),
        buf.len() > 0,
        calls[0].step == StreamBufferStep::Consumed(count),
        count >= buf.len(),
    ensures
        count <= buf.len() + rest.len(),
        served(Seq::empty(), rest.skip(count - buf.len()), calls.drop_first(), left),
{
}

/// A consumer that wants more contiguous items than its first slice holds, and no more than there
/// are, is called again, with a first slice of just that many.
pub proof fn law_wanted_becomes_contiguous<T: Clone>(
    buf: Seq<T>,
    rest: Seq<T>,
    calls: Seq<ConsumerCall<T>>,
    left: Seq<T>,
    i: int,
    count: usize,
)
    requires
        served(buf, rest, calls, left),
        0 <= i < calls.len(),
        calls[i].step == StreamBufferStep::WantContiguos(count),
        calls[i].part1.len() < count <= calls[i].part1.len() + calls[i].part2.len(),
    ensures
        i + 1 < calls.len(),
        calls[i + 1].part1.len() == count,
        consumed(calls.take(i + 1)) == consumed(calls.take(i)),
    decreases calls.len(),
{
    let later = calls.drop_first();
    assert(calls.take(i + 1).drop_first() == later.take(i));
    assert(calls.take(i + 1)[0] == calls[0]);
    if i == 0 {
        assert(later.take(0) == Seq::<ConsumerCall<T>>::empty());
        assert(calls.take(0) == Seq::<ConsumerCall<T>>::empty());
    } else {
        assert(calls.take(i).drop_first() == later.take(i - 1));
        assert(calls.take(i)[0] == calls[0]);
        match calls[0].step {
            StreamBufferStep::Consumed(n) => {
                if n < buf.len() {
                    law_wanted_becomes_contiguous(
                        buf.skip(n as int),
                        rest,
                        later,
                        left,
                        i - 1,
                        count,
                    );
                } else {
                    law_wanted_becomes_contiguous(
                        Seq::empty(),
                        rest.skip(n - buf.len()),
                        later,
                        left,
                        i - 1,
                        count,
                    );
                }
            },
            StreamBufferStep::WantContiguos(n) => {
                law_wanted_becomes_contiguous(
                    later[0].part1,
                    rest.skip(missing(buf, n)),
                    later,
                    left,
                    i - 1,
                    count,
                );
            },
        }
    }
}

/// `consumer` may answer `call.step` when it is handed `call.part1` and `call.part2`.
pub open spec fn answers<T, F: FnMut(&[T], &[T]) -> StreamBufferStep>(
    consumer: F,
    call: ConsumerCall<T>,
) -> bool {
    exists|a: &[T], b: &[T]|
        a@ == call.part1 && b@ == call.part2 && #[trigger] call_ensures(
            consumer,
            (a, b),
            call.step,
        )
}

/// `consumer` may be called with slices of these items.
pub open spec fn takes<T, F: FnMut(&[T], &[T]) -> StreamBufferStep>(
    consumer: F,
    part1: Seq<T>,
    part2: Seq<T>,
) -> bool {
    forall|a: &[T], b: &[T]|
        a@ == part1 && b@ == part2 ==> #[trigger] call_requires(consumer, (a, b))
}

/// Whether a consumer can be served from a FIFO whose stored items are `buf`, to which `rest` has
/// just been appended: it takes the two slices that it would be handed, consumes some of them and
/// no more than all, or wants more than its first slice, and the same holds of what each of its
/// answers leads to. Where an answer ends the serving, nothing more is asked.
pub open spec fn progresses<T: Clone>(
    may_take: spec_fn(Seq<T>, Seq<T>) -> bool,
    may_answer: spec_fn(Seq<T>, Seq<T>, StreamBufferStep) -> bool,
    buf: Seq<T>,
    rest: Seq<T>,
) -> bool
    decreases buf.len() + rest.len(), rest.len(),
{
    if buf.len() > 0 {
        &&& may_take(buf, rest)
        &&& forall|count: usize|
            #[trigger] may_answer(buf, rest, StreamBufferStep::Consumed(count)) ==> if count == 0
                || count > buf.len() + rest.len() {
                false
            } else if count < buf.len() {
                progresses(may_take, may_answer, buf.skip(count as int), rest)
            } else {
                progresses(may_take, may_answer, Seq::empty(), rest.skip(count - buf.len()))
            }
        &&& forall|count: usize|
            #[trigger] may_answer(buf, rest, StreamBufferStep::WantContiguos(count)) && count
                <= buf.len() + rest.len() ==> if count <= buf.len() {
                false
            } else {
                forall|longer: Seq<T>| #[trigger]
                    appended(buf, rest.take(missing(buf, count)), longer) ==> progresses(
                        may_take,
                        may_answer,
                        longer,
                        rest.skip(missing(buf, count)),
                    )
            }
    } else if rest.len() > 0 {
        &&& may_take(rest, Seq::empty())
        &&& forall|count: usize|
            #[trigger] may_answer(rest, Seq::empty(), StreamBufferStep::Consumed(count)) ==> if count
                == 0 || count > rest.len() {
                false
            } else {
                progresses(may_take, may_answer, Seq::empty(), rest.skip(count as int))
            }
    } else {
        true
    }
}

/// Whether `consumer` [`progresses`] on a FIFO whose stored items are `buf`, to which `rest` has just
/// been appended. [`law_consumer_can_be_served`] shows it.
pub closed spec fn is_servable<T: Clone, F: FnMut(&[T], &[T]) -> StreamBufferStep>(
    consumer: F,
    buf: Seq<T>,
    rest: Seq<T>,
) -> bool {
    progresses(
        |part1: Seq<T>, part2: Seq<T>| takes(consumer, part1, part2),
        |part1: Seq<T>, part2: Seq<T>, step: StreamBufferStep|
            answers(consumer, ConsumerCall { part1, part2, step }),
        buf,
        rest,
    )
}

/// Whether `consumer` makes progress on whatever slices it is handed: it consumes some items and no
/// more than there are, or wants more than its first slice holds.
pub open spec fn always_progresses<T, F: FnMut(&[T], &[T]) -> StreamBufferStep>(
    consumer: F,
) -> bool {
    &&& forall|a: &[T], b: &[T]| call_requires(consumer, (a, b))
    &&& forall|a: &[T], b: &[T], step: StreamBufferStep| #[trigger]
        call_ensures(consumer, (a, b), step) && a@.len() > 0 ==> match step {
            StreamBufferStep::Consumed(count) => 0 < count <= a@.len() + b@.len(),
            StreamBufferStep::WantContiguos(count) => count > a@.len(),
        }
}

/// Whether `consumer` can be served from a FIFO whose stored items are `buf`, to which `rest` has
/// just been appended: it makes progress on all slices, or on those that it would be handed.
pub open spec fn can_serve<T: Clone, F: FnMut(&[T], &[T]) -> StreamBufferStep>(
    consumer: F,
    buf: Seq<T>,
    rest: Seq<T>,
) -> bool {
    always_progresses(consumer) || is_servable(consumer, buf, rest)
}

/// A consumer that makes progress on the slices that it would be handed can be served.
pub proof fn law_consumer_can_be_served<T: Clone, F: FnMut(&[T], &[T]) -> StreamBufferStep>(
    consumer: F,
    buf: Seq<T>,
    rest: Seq<T>,
)
    requires
        progresses(
            |part1: Seq<T>, part2: Seq<T>| takes(consumer, part1, part2),
            |part1: Seq<T>, part2: Seq<T>, step: StreamBufferStep|
                answers(consumer, ConsumerCall { part1, part2, step }),
            buf,
            rest,
        ),
    ensures
        can_serve(consumer, buf, rest),
{
}

/// A consumer that can be served is in bounds and makes progress when it is handed stored items.
proof fn lemma_stored_items_progress<T: Clone, F: FnMut(&[T], &[T]) -> StreamBufferStep>(
    consumer: F,
    buf: Seq<T>,
    rest: Seq<T>,
    step: StreamBufferStep,
)
    requires
        is_servable(consumer, buf, rest),
        buf.len() > 0,
        answers(consumer, ConsumerCall { part1: buf, part2: rest, step }),
    ensures
        match step {
            StreamBufferStep::Consumed(count) => {
                &&& 0 < count <= buf.len() + rest.len()
                &&& count < buf.len() ==> is_servable(consumer, buf.skip(count as int), rest)
                &&& count >= buf.len() ==> is_servable(
                    consumer,
                    Seq::empty(),
                    rest.skip(count - buf.len()),
                )
            },
            StreamBufferStep::WantContiguos(count) => {
                &&& count > buf.len()
                &&& count <= buf.len() + rest.len() ==> forall|longer: Seq<T>| #[trigger]
                    appended(buf, rest.take(missing(buf, count)), longer) ==> is_servable(
                        consumer,
                        longer,
                        rest.skip(missing(buf, count)),
                    )
            },
        },
{
    let may_answer = |part1: Seq<T>, part2: Seq<T>, step: StreamBufferStep|
        answers(consumer, ConsumerCall { part1, part2, step });
    match step {
        StreamBufferStep::Consumed(count) => {
            assert(may_answer(buf, rest, StreamBufferStep::Consumed(count)));
        },
        StreamBufferStep::WantContiguos(count) => {
            assert(may_answer(buf, rest, StreamBufferStep::WantContiguos(count)));
        },
    }
}

/// A consumer that can be served is in bounds and makes progress when nothing is stored.
proof fn lemma_new_items_progress<T: Clone, F: FnMut(&[T], &[T]) -> StreamBufferStep>(
    consumer: F,
    rest: Seq<T>,
    count: usize,
)
    requires
        is_servable(consumer, Seq::empty(), rest),
        rest.len() > 0,
        answers(
            consumer,
            ConsumerCall {
                part1: rest,
                part2: Seq::empty(),
                step: StreamBufferStep::Consumed(count),
            },
        ),
    ensures
        0 < count <= rest.len(),
        is_servable(consumer, Seq::empty(), rest.skip(count as int)),
{
    let may_answer = |part1: Seq<T>, part2: Seq<T>, step: StreamBufferStep|
        answers(consumer, ConsumerCall { part1, part2, step });
    assert(may_answer(rest, Seq::empty(), StreamBufferStep::Consumed(count)));
}

/// A consumer that always answers [`StreamBufferStep::not_enough_data`] can be served from any FIFO
/// that holds less than it asks for.
pub proof fn law_not_enough_data_can_be_served<
    T: Clone,
    F: FnMut(&[T], &[T]) -> StreamBufferStep,
>(consumer: F, buf: Seq<T>, rest: Seq<T>)
    requires
        buf.len() + rest.len() < usize::MAX,
        forall|a: &[T], b: &[T]| call_requires(consumer, (a, b)),
        forall|a: &[T], b: &[T], step: StreamBufferStep| #[trigger]
            call_ensures(consumer, (a, b), step) ==> step == StreamBufferStep::WantContiguos(
                usize::MAX,
            ),
    ensures
        can_serve(consumer, buf, rest),
{
}

/// A consumer that makes progress on whatever slices it is handed can be served from any FIFO: it
/// consumes some items and no more than there are, or wants more than its first slice holds.
pub proof fn law_progressing_consumer_can_be_served<
    T: Clone,
    F: FnMut(&[T], &[T]) -> StreamBufferStep,
>(consumer: F, buf: Seq<T>, rest: Seq<T>)
    requires
        forall|a: &[T], b: &[T]| call_requires(consumer, (a, b)),
        forall|a: &[T], b: &[T], step: StreamBufferStep| #[trigger]
            call_ensures(consumer, (a, b), step) && a@.len() > 0 ==> match step {
                StreamBufferStep::Consumed(count) => 0 < count <= a@.len() + b@.len(),
                StreamBufferStep::WantContiguos(count) => count > a@.len(),
            },
    ensures
        can_serve(consumer, buf, rest),
        is_servable(consumer, buf, rest),
    decreases buf.len() + rest.len(), rest.len(),
{
    let may_answer = |part1: Seq<T>, part2: Seq<T>, step: StreamBufferStep|
        answers(consumer, ConsumerCall { part1, part2, step });
    if buf.len() > 0 {
        assert forall|count: usize| #[trigger]
            may_answer(buf, rest, StreamBufferStep::Consumed(count)) implies 0 < count <= buf.len()
            + rest.len() && if count < buf.len() {
            is_servable(consumer, buf.skip(count as int), rest)
        } else {
            is_servable(consumer, Seq::empty(), rest.skip(count - buf.len()))
        } by {
            if count < buf.len() {
                law_progressing_consumer_can_be_served(consumer, buf.skip(count as int), rest);
            } else {
                law_progressing_consumer_can_be_served(
                    consumer,
                    Seq::empty(),
                    rest.skip(count - buf.len()),
                );
            }
        }
        assert forall|count: usize| #[trigger]
            may_answer(buf, rest, StreamBufferStep::WantContiguos(count)) && count <= buf.len()
                + rest.len() implies count > buf.len() && forall|longer: Seq<T>| #[trigger]
            appended(buf, rest.take(missing(buf, count)), longer) ==> is_servable(
                consumer,
                longer,
                rest.skip(missing(buf, count)),
            ) by {
            assert forall|longer: Seq<T>| #[trigger]
                appended(buf, rest.take(missing(buf, count)), longer) implies is_servable(
                consumer,
                longer,
                rest.skip(missing(buf, count)),
            ) by {
                law_progressing_consumer_can_be_served(
                    consumer,
                    longer,
                    rest.skip(missing(buf, count)),
                );
            }
        }
    } else if rest.len() > 0 {
        assert forall|count: usize| #[trigger]
            may_answer(rest, Seq::empty(), StreamBufferStep::Consumed(count)) implies 0 < count
            <= rest.len() && is_servable(consumer, Seq::empty(), rest.skip(count as int)) by {
            law_progressing_consumer_can_be_served(
                consumer,
                Seq::empty(),
                rest.skip(count as int),
            );
        }
    }
}

/// Producer-consumer FIFO. Optimized to avoid copying data.
pub struct StreamBuffer<T> {
    buf: Vec<T>,
    start: usize,
}

impl<T> View for StreamBuffer<T> {
    type V = Seq<T>;

    closed spec fn view(&self) -> Seq<T> {
        self.buf@.skip(self.start as int)
    }
}

impl<T> StreamBuffer<T> {
    /// The items before `start` are gone; the rest are the FIFO.
    pub closed spec fn wf(&self) -> bool {
        self.start <= self.buf@.len()
    }
}

impl<T: Clone> StreamBuffer<T> {
    /// An empty FIFO.
    pub fn new() -> (fifo: Self)
        ensures
            fifo.wf(),
            fifo@ == Seq::<T>::empty(),
    {
        Self { buf: Vec::new(), start: 0 }
    }

    /// Appends `new_items` to the FIFO and calls `consumer` in a loop, as [`StreamBuffer::process`]
    /// does. The log of the consumer tells how: it is called as often as it is served, in that
    /// order, and not once more. The FIFO advances by what its answers consume, all of them.
    pub fn process_recorded<F: FnMut(&[T], &[T]) -> StreamBufferStep>(
        &mut self,
        new_items: &[T],
        consumer: &mut Recorded<F, ConsumerCall<T>>,
    )
        requires
            old(self).wf(),
            old(consumer).wf(),
            old(consumer).log().len() == 0,
            can_serve(old(consumer).function(), old(self)@, new_items@),
        ensures
            final(self).wf(),
            final(consumer).wf(),
            final(consumer).function() == old(consumer).function(),
            served(old(self)@, new_items@, final(consumer).log(), final(self)@),
            carried(old(self)@, new_items@, consumed(final(consumer).log()), final(self)@),
            forall|i: int|
                0 <= i < final(consumer).log().len() ==> answers(
                    old(consumer).function(),
                    #[trigger] final(consumer).log()[i],
                ),
    {
        let ghost callee = consumer.function();
        let mut rest: &[T] = new_items;
        let ghost stored = self@;
        let ghost mut calls: Seq<ConsumerCall<T>> = Seq::empty();
        assert(consumer.log() == calls);
        proof {
            if always_progresses::<T, F>(callee) {
                law_progressing_consumer_can_be_served(callee, stored, rest@);
            }
        }

        // Step 1: Serve the leftovers from previous invocations.
        loop
            invariant
                self.wf(),
                consumer.wf(),
                consumer.function() == callee,
                consumer.log() == calls,
                callee == old(consumer).function(),
                is_servable(callee, self@, rest@),
                forall|i: int| 0 <= i < calls.len() ==> answers(callee, #[trigger] calls[i]),
                forall|later: Seq<ConsumerCall<T>>, left: Seq<T>| #[trigger]
                    served(self@, rest@, later, left) ==> served(
                        stored,
                        new_items@,
                        calls + later,
                        left,
                    ),
                stored == old(self)@,
            ensures
                self@.len() == 0,
            decreases self@.len() + rest@.len(), rest@.len(),
        {
            let buf_len: usize = self.buf.len() - self.start;
            if buf_len == 0 {
                break;
            }
            let stored_slice = vstd::slice::slice_subrange(
                self.buf.as_slice(),
                self.start,
                self.buf.len(),
            );
            let ghost before = self@;
            let ghost rest_before = rest@;
            let step = consumer.consume(stored_slice, rest);
            let ghost call = ConsumerCall { part1: before, part2: rest_before, step };
            proof {
                assert(call_ensures(callee, (stored_slice, rest), call.step));
                assert(answers(callee, call));
                lemma_stored_items_progress(callee, before, rest_before, step);
                assert(forall|later: Seq<ConsumerCall<T>>| #[trigger]
                    (calls.push(call) + later) == calls + (seq![call] + later));
                assert(forall|later: Seq<ConsumerCall<T>>|
                    (#[trigger] (seq![call] + later)).drop_first() == later);
            }
            match step {
                StreamBufferStep::Consumed(count) => {
                    let taken: usize = if count < buf_len {
                        count
                    } else {
                        buf_len
                    };
                    self.start = self.start + taken;
                    rest = vstd::slice::slice_subrange(rest, count - taken, rest.len());
                    assert(self@ == before.skip(taken as int));
                    assert(rest@ == rest_before.skip(count - taken));
                    assert(rest_before.skip(0) == rest_before);
                    if count >= buf_len {
                        assert(self@ == Seq::<T>::empty());
                    }
                },
                StreamBufferStep::WantContiguos(count) => {
                    if count - buf_len > rest.len() {
                        // Not enough data in the FIFO at this moment.
                        self.extend(rest);
                        proof {
                            assert(served(before, rest_before, seq![call], self@));
                            assert(calls + seq![call] == calls.push(call));
                            law_nothing_is_lost(stored, new_items@, consumer.log(), self@);
                        }
                        return;
                    }
                    let (part1, part2) = rest.split_at(count - buf_len);
                    self.extend(part1);
                    rest = part2;
                    assert(part1@ == rest_before.take(count - buf_len));
                    assert(part2@ == rest_before.skip(count - buf_len));
                    assert(appended(before, rest_before.take(missing(before, count)), self@));
                },
            }
            proof {
                assert forall|later: Seq<ConsumerCall<T>>, left: Seq<T>| #[trigger]
                    served(self@, rest@, later, left) implies served(
                    stored,
                    new_items@,
                    calls.push(call) + later,
                    left,
                ) by {
                    let longer = seq![call] + later;
                    assert(longer.drop_first() == later);
                    assert(longer[0] == call);
                    if before.len() > 0 && call.step is Consumed && self@.len() == 0 {
                        assert(self@ == Seq::<T>::empty());
                    }
                    assert(served(before, rest_before, longer, left));
                    assert(calls.push(call) + later == calls + (seq![call] + later));
                }
                calls = calls.push(call);
            }
        }

        assert(self@ == Seq::<T>::empty());

        // Step 2: Main loop.
        // Consume `rest` without copying it into `self.buf`.
        loop
            invariant_except_break
                is_servable(callee, Seq::empty(), rest@),
                forall|later: Seq<ConsumerCall<T>>, left: Seq<T>| #[trigger]
                    served(Seq::empty(), rest@, later, left) ==> served(
                        stored,
                        new_items@,
                        calls + later,
                        left,
                    ),
            invariant
                self.wf(),
                self@.len() == 0,
                consumer.wf(),
                consumer.function() == callee,
                consumer.log() == calls,
                callee == old(consumer).function(),
                forall|i: int| 0 <= i < calls.len() ==> answers(callee, #[trigger] calls[i]),
            ensures
                forall|left: Seq<T>| #[trigger]
                    appended(Seq::empty(), rest@, left) ==> served(
                        stored,
                        new_items@,
                        calls,
                        left,
                    ),
            decreases rest@.len(),
        {
            if rest.len() == 0 {
                assert forall|left: Seq<T>| #[trigger]
                    appended(Seq::empty(), rest@, left) implies served(
                    stored,
                    new_items@,
                    calls,
                    left,
                ) by {
                    assert(served(Seq::empty(), rest@, Seq::empty(), left));
                    assert(calls == calls + Seq::<ConsumerCall<T>>::empty());
                }
                break;
            }
            let none: &[T] = &[];
            let ghost rest_before = rest@;
            assert(none@ == Seq::<T>::empty());
            assert(takes(callee, rest@, none@));
            let step = consumer.consume(rest, none);
            let ghost call = ConsumerCall { part1: rest_before, part2: Seq::<T>::empty(), step };
            proof {
                assert(call_ensures(callee, (rest, none), call.step));
                assert(answers(callee, call));
            }
            let ghost earlier = calls;
            proof {
                calls = calls.push(call);
            }
            match step {
                StreamBufferStep::Consumed(count) => {
                    proof {
                        lemma_new_items_progress(callee, rest_before, count);
                    }
                    rest = vstd::slice::slice_subrange(rest, count, rest.len());
                    assert(rest@ == rest_before.skip(count as int));
                    assert forall|later: Seq<ConsumerCall<T>>, left: Seq<T>| #[trigger]
                        served(Seq::empty(), rest@, later, left) implies served(
                        stored,
                        new_items@,
                        calls + later,
                        left,
                    ) by {
                        assert((seq![call] + later).drop_first() == later);
                        assert(served(Seq::empty(), rest_before, seq![call] + later, left));
                        assert(calls + later == earlier + (seq![call] + later));
                    }
                },
                StreamBufferStep::WantContiguos(_) => {
                    assert forall|left: Seq<T>| #[trigger]
                        appended(Seq::empty(), rest@, left) implies served(
                        stored,
                        new_items@,
                        calls,
                        left,
                    ) by {
                        assert(served(Seq::empty(), rest_before, seq![call], left));
                        assert(calls == earlier + seq![call]);
                    }
                    break;
                },
            }
        }

        // Step 3: Prepare leftovers for the next invocation.
        self.extend(rest);
        proof {
            law_nothing_is_lost(stored, new_items@, consumer.log(), self@);
        }
    }

    fn extend(&mut self, items: &[T])
        requires
            old(self).wf(),
        ensures
            final(self).wf(),
            appended(old(self)@, items@, final(self)@),
    {
        let ghost before = self@;
        if self.start == self.buf.len() {
            self.buf.clear();
            self.start = 0;
        } else if items.len() > vec_capacity(&self.buf) - self.buf.len() {
            vec_drop_front(&mut self.buf, self.start);
            self.start = 0;
        }
        assert(self@ == before);
        let ghost kept = self.buf@;
        self.buf.extend_from_slice(items);
        assert forall|i: int| 0 <= i < before.len() implies #[trigger] self@[i] == before[i] by {
            assert(self.buf@[self.start + i] == kept[self.start + i]);
        }
        assert forall|i: int| before.len() <= i < self@.len() implies cloned::<T>(
            items@[i - before.len()],
            #[trigger] self@[i],
        ) by {
            assert(cloned::<T>(items@[i - before.len()], self.buf@[self.start + i]));
        }
    }
}

} // verus!
