//! Many requests at once, whose reads overlap.

use crate::file;
use crate::file::{DataError, MapError, ReadRange};
use crate::keys::Key;
use crate::lookup;
use crate::sparse;
use crate::sparse::{Entry, Processed, Refill, Request};
use crate::state::{PartialEntryKind, PartialModel};
use crate::universal_hashmap::MapModel;
use crate::values::Value;
use vstd::multiset::Multiset;
use vstd::prelude::*;

verus! {

/// A request that is being worked on: which of the requests it is, the replies to its reads, and how
/// far the work has come.
pub struct Work<'k, Meta, K: Key + ?Sized> {
    pub number: nat,
    pub replies: Seq<Seq<u8>>,
    pub entry: Entry<'k, Meta, K>,
}

/// An answer to a request: which of the requests it is, the name it was answered under, and what
/// was found.
pub struct Answer<Meta, V> {
    pub number: nat,
    pub meta: Meta,
    pub found: Option<PartialModel<V>>,
}

/// How far the work on many requests has come: how many of them have been taken, those that are
/// queued, those whose reads are under way, with the ranges that are read, and the answers.
#[verifier::ext_equal]
pub struct Progress<'k, Meta, K: Key + ?Sized, V> {
    pub taken: nat,
    pub queued: Seq<Work<'k, Meta, K>>,
    pub under_way: Seq<(Work<'k, Meta, K>, ReadRange)>,
    pub answers: Seq<Answer<Meta, V>>,
}

/// A step of the work on many requests.
pub enum Step<'k, Meta, K: Key + ?Sized, V> {
    /// What [`sparse::SparsePipeline::refill`] gave.
    Refill(Refill<'k, Meta, K>),
    /// What [`sparse::SparsePipeline::advance`] gave and queued, when one of the reads that were
    /// under way had brought `data`.
    Reply {
        index: int,
        data: Seq<u8>,
        advanced: Processed<Meta, K, V>,
        queued: Option<Entry<'k, Meta, K>>,
    },
}

/// The entries that are worked on.
pub open spec fn entries_of<'k, Meta, K: Key + ?Sized>(works: Seq<Work<'k, Meta, K>>) -> Seq<
    Entry<'k, Meta, K>,
> {
    works.map_values(|work: Work<'k, Meta, K>| work.entry)
}

/// Nothing has been done yet.
pub open spec fn nothing_done<'k, Meta, K: Key + ?Sized, V>() -> Progress<'k, Meta, K, V> {
    Progress {
        taken: 0,
        queued: Seq::empty(),
        under_way: Seq::empty(),
        answers: Seq::empty(),
    }
}

/// How a refill changes what has been done: the entry that it gives is read next, with a number of
/// its own if it is that of a new request, and a request without an entry is answered.
pub open spec fn after_refill<'k, Meta, K: Key + ?Sized, V>(
    before: Progress<'k, Meta, K, V>,
    refill: Refill<'k, Meta, K>,
) -> Progress<'k, Meta, K, V> {
    match refill {
        Refill::Schedule(entry, range) => if before.queued.len() > 0 {
            Progress {
                queued: before.queued.drop_last(),
                under_way: before.under_way.push((before.queued.last(), range)),
                ..before
            }
        } else {
            let work = Work { number: before.taken, replies: Seq::empty(), entry };
            Progress {
                taken: before.taken + 1,
                under_way: before.under_way.push((work, range)),
                ..before
            }
        },
        Refill::Missing(meta) => {
            let answer = Answer { number: before.taken, meta, found: None };
            Progress {
                taken: before.taken + 1,
                answers: before.answers.push(answer),
                ..before
            }
        },
        Refill::Drained => before,
    }
}

/// How the reply to a read that was under way changes what has been done: the request is answered,
/// or queued again.
pub open spec fn after_reply<'k, Meta, K: Key + ?Sized, V: Value>(
    before: Progress<'k, Meta, K, V>,
    index: int,
    data: Seq<u8>,
    advanced: Processed<Meta, K, V>,
    queued: Option<Entry<'k, Meta, K>>,
) -> Progress<'k, Meta, K, V> {
    let work = before.under_way[index].0;
    let rest = before.under_way.remove(index);
    match advanced {
        Processed::Deliver(meta, found) => {
            let answer = Answer { number: work.number, meta, found: lookup::model_of(found) };
            Progress { under_way: rest, answers: before.answers.push(answer), ..before }
        },
        Processed::Queued => {
            let next = Work {
                number: work.number,
                replies: work.replies.push(data),
                entry: queued->0,
            };
            Progress { under_way: rest, queued: before.queued.push(next), ..before }
        },
    }
}

/// Whether a step leads from `before` to `after`. The reads may come back in any order.
pub open spec fn makes_step<
    'k,
    E,
    Meta,
    R: FnMut(ReadRange) -> Result<Vec<u8>, E>,
    K: Key + ?Sized,
    V: Value,
>(
    map: MapModel,
    kind: PartialEntryKind,
    file_len: u64,
    read: R,
    requests: Seq<(Meta, Request<'k, K>)>,
    before: Progress<'k, Meta, K, V>,
    step: Step<'k, Meta, K, V>,
    after: Progress<'k, Meta, K, V>,
) -> bool {
    let est = kind.spec_est_size::<K, V>() as u64;
    match step {
        Step::Refill(refill) => {
            &&& after == after_refill(before, refill)
            &&& sparse::refills(
                map,
                est,
                file_len,
                entries_of(before.queued),
                requests.skip(before.taken as int),
                Ok(refill),
                entries_of(after.queued),
                requests.skip(after.taken as int),
            )
        },
        Step::Reply { index, data, advanced, queued } => {
            &&& 0 <= index < before.under_way.len()
            &&& file::read_gives::<E, R>(read, before.under_way[index].1, data)
            &&& sparse::advances(
                map,
                kind,
                est,
                before.under_way[index].0.entry,
                data,
                Ok(advanced),
                queued,
            )
            &&& after == after_reply(before, index, data, advanced, queued)
        },
    }
}

/// Whether the steps lead from one of the states to the next, from the start on.
pub open spec fn is_trace<
    'k,
    E,
    Meta,
    R: FnMut(ReadRange) -> Result<Vec<u8>, E>,
    K: Key + ?Sized,
    V: Value,
>(
    map: MapModel,
    kind: PartialEntryKind,
    file_len: u64,
    read: R,
    requests: Seq<(Meta, Request<'k, K>)>,
    states: Seq<Progress<'k, Meta, K, V>>,
    steps: Seq<Step<'k, Meta, K, V>>,
) -> bool {
    &&& states.len() == steps.len() + 1
    &&& states[0] == nothing_done::<Meta, K, V>()
    &&& forall|i: int|
        0 <= i < steps.len() ==> makes_step::<E, Meta, R, K, V>(
            map,
            kind,
            file_len,
            read,
            requests,
            states[i],
            #[trigger] steps[i],
            states[i + 1],
        )
}

/// Whether the work is done: the last step found nothing more to do, and no read is under way.
pub open spec fn is_done<'k, Meta, K: Key + ?Sized, V>(
    states: Seq<Progress<'k, Meta, K, V>>,
    steps: Seq<Step<'k, Meta, K, V>>,
) -> bool {
    &&& steps.len() > 0
    &&& steps.last() == Step::<Meta, K, V>::Refill(Refill::Drained)
    &&& states.last().under_way.len() == 0
}

/// The numbers of requests that are queued.
pub open spec fn queued_numbers<'k, Meta, K: Key + ?Sized>(works: Seq<Work<'k, Meta, K>>) -> Seq<
    nat,
> {
    works.map_values(|work: Work<'k, Meta, K>| work.number)
}

/// The numbers of requests whose reads are under way.
pub open spec fn under_way_numbers<'k, Meta, K: Key + ?Sized>(
    works: Seq<(Work<'k, Meta, K>, ReadRange)>,
) -> Seq<nat> {
    works.map_values(|work: (Work<'k, Meta, K>, ReadRange)| work.0.number)
}

/// The numbers of requests that have been answered.
pub open spec fn answered_numbers<Meta, V>(answers: Seq<Answer<Meta, V>>) -> Seq<nat> {
    answers.map_values(|answer: Answer<Meta, V>| answer.number)
}

/// The numbers of all requests that have been taken.
pub open spec fn numbers<'k, Meta, K: Key + ?Sized, V>(progress: Progress<'k, Meta, K, V>) -> Multiset<
    nat,
> {
    queued_numbers(progress.queued).to_multiset().add(
        under_way_numbers(progress.under_way).to_multiset(),
    ).add(answered_numbers(progress.answers).to_multiset())
}

/// Whether `numbers` are the first `count` numbers, each once.
pub open spec fn are_first(numbers: Multiset<nat>, count: nat) -> bool {
    forall|n: nat|
        #[trigger] numbers.count(n) == (if n < count {
            1nat
        } else {
            0
        })
}

/// Whether the work on a request has come as far as its own lookup does with the replies to its own
/// reads, under its own name.
pub open spec fn is_work_on<
    'k,
    E,
    Meta,
    R: FnMut(ReadRange) -> Result<Vec<u8>, E>,
    K: Key + ?Sized,
    V: Value,
>(
    map: MapModel,
    kind: PartialEntryKind,
    file_len: u64,
    read: R,
    requests: Seq<(Meta, Request<'k, K>)>,
    work: Work<'k, Meta, K>,
) -> bool {
    let (meta, request) = requests[work.number as int];
    &&& work.number < requests.len()
    &&& work.entry.meta == meta
    &&& lookup::follows_lookup::<E, R, K, V>(map, request, kind, file_len, read, work.replies)
    &&& lookup::lookup_after::<K, V>(map, request, kind, work.replies) == lookup::lookup_of::<K, V>(
        map,
        work.entry.state,
    )
}

/// Whether a read is the next one of the lookup that it is made for.
pub open spec fn is_read_for<
    'k,
    E,
    Meta,
    R: FnMut(ReadRange) -> Result<Vec<u8>, E>,
    K: Key + ?Sized,
    V: Value,
>(
    map: MapModel,
    kind: PartialEntryKind,
    file_len: u64,
    read: R,
    requests: Seq<(Meta, Request<'k, K>)>,
    under_way: (Work<'k, Meta, K>, ReadRange),
) -> bool {
    &&& is_work_on::<E, Meta, R, K, V>(map, kind, file_len, read, requests, under_way.0)
    &&& under_way.1 == lookup::lookup_of::<K, V>(map, under_way.0.entry.state).range(file_len)
}

/// Whether an answer is what comes of the lookup of its own request, under its own name.
pub open spec fn is_answer_to<
    'k,
    E,
    Meta,
    R: FnMut(ReadRange) -> Result<Vec<u8>, E>,
    K: Key + ?Sized,
    V: Value,
>(
    map: MapModel,
    kind: PartialEntryKind,
    file_len: u64,
    read: R,
    requests: Seq<(Meta, Request<'k, K>)>,
    answer: Answer<Meta, V>,
) -> bool {
    let (meta, request) = requests[answer.number as int];
    &&& answer.number < requests.len()
    &&& answer.meta == meta
    &&& lookup::looked_up::<E, R, K, V>(map, request, kind, file_len, read, Ok(answer.found))
}

/// Whether each request that has been taken is in one place, queued, under way or answered, and what
/// is there is its own.
pub open spec fn keeps_account<
    'k,
    E,
    Meta,
    R: FnMut(ReadRange) -> Result<Vec<u8>, E>,
    K: Key + ?Sized,
    V: Value,
>(
    map: MapModel,
    kind: PartialEntryKind,
    file_len: u64,
    read: R,
    requests: Seq<(Meta, Request<'k, K>)>,
    progress: Progress<'k, Meta, K, V>,
) -> bool {
    &&& progress.taken <= requests.len()
    &&& are_first(numbers(progress), progress.taken)
    &&& forall|i: int|
        0 <= i < progress.queued.len() ==> is_work_on::<E, Meta, R, K, V>(
            map,
            kind,
            file_len,
            read,
            requests,
            #[trigger] progress.queued[i],
        )
    &&& forall|i: int|
        0 <= i < progress.queued.len() ==> (#[trigger] progress.queued[i]).entry.state
            is ReadingEntry
    &&& forall|i: int|
        0 <= i < progress.under_way.len() ==> is_read_for::<E, Meta, R, K, V>(
            map,
            kind,
            file_len,
            read,
            requests,
            #[trigger] progress.under_way[i],
        )
    &&& forall|i: int|
        0 <= i < progress.answers.len() ==> is_answer_to::<E, Meta, R, K, V>(
            map,
            kind,
            file_len,
            read,
            requests,
            #[trigger] progress.answers[i],
        )
}

proof fn lemma_refill_keeps_account<
    'k,
    E,
    Meta,
    R: FnMut(ReadRange) -> Result<Vec<u8>, E>,
    K: Key + ?Sized,
    V: Value,
>(
    map: MapModel,
    kind: PartialEntryKind,
    file_len: u64,
    read: R,
    requests: Seq<(Meta, Request<'k, K>)>,
    before: Progress<'k, Meta, K, V>,
    refill: Refill<'k, Meta, K>,
    after: Progress<'k, Meta, K, V>,
)
    requires
        keeps_account::<E, Meta, R, K, V>(map, kind, file_len, read, requests, before),
        makes_step::<E, Meta, R, K, V>(
            map,
            kind,
            file_len,
            read,
            requests,
            before,
            Step::Refill(refill),
            after,
        ),
    ensures
        keeps_account::<E, Meta, R, K, V>(map, kind, file_len, read, requests, after),
{
    let remaining = requests.skip(before.taken as int);
    let queue = queued_numbers(before.queued);
    let reads = under_way_numbers(before.under_way);
    let answers = answered_numbers(before.answers);
    queue.to_multiset_ensures();
    reads.to_multiset_ensures();
    answers.to_multiset_ensures();
    if before.queued.len() > 0 {
        let work = before.queued.last();
        let last = before.queued.len() - 1;
        assert(entries_of(before.queued).last() == work.entry);
        assert(queued_numbers(after.queued) == queue.remove(last));
        assert(under_way_numbers(after.under_way) == reads.push(work.number));
        assert(queue.contains(queue[last]));
    } else if remaining.len() > 0 {
        let first = remaining[0];
        assert(first == requests[before.taken as int]);
        lookup::law_request_starts_as_lookup::<Meta, K, V>(map, first, kind, file_len, Ok(refill));
        let none = Seq::<Seq<u8>>::empty();
        assert(lookup::follows_lookup::<E, R, K, V>(map, first.1, kind, file_len, read, none));
        match refill {
            Refill::Schedule(entry, range) => {
                assert(under_way_numbers(after.under_way) == reads.push(before.taken));
            },
            Refill::Missing(_) => {
                assert(answered_numbers(after.answers) == answers.push(before.taken));
                assert(lookup::looked_up::<E, R, K, V>(
                    map,
                    first.1,
                    kind,
                    file_len,
                    read,
                    Ok(None),
                ));
            },
            Refill::Drained => {},
        }
    }
    assert forall|n: nat| #[trigger]
        numbers(after).count(n) == (if n < after.taken {
            1nat
        } else {
            0
        }) by {
        assert(numbers(before).count(n) == (if n < before.taken {
            1nat
        } else {
            0
        }));
    }
}

proof fn lemma_reply_keeps_account<
    'k,
    E,
    Meta,
    R: FnMut(ReadRange) -> Result<Vec<u8>, E>,
    K: Key + ?Sized,
    V: Value,
>(
    map: MapModel,
    kind: PartialEntryKind,
    file_len: u64,
    read: R,
    requests: Seq<(Meta, Request<'k, K>)>,
    before: Progress<'k, Meta, K, V>,
    index: int,
    data: Seq<u8>,
    advanced: Processed<Meta, K, V>,
    queued: Option<Entry<'k, Meta, K>>,
    after: Progress<'k, Meta, K, V>,
)
    requires
        keeps_account::<E, Meta, R, K, V>(map, kind, file_len, read, requests, before),
        makes_step::<E, Meta, R, K, V>(
            map,
            kind,
            file_len,
            read,
            requests,
            before,
            Step::Reply { index, data, advanced, queued },
            after,
        ),
    ensures
        keeps_account::<E, Meta, R, K, V>(map, kind, file_len, read, requests, after),
{
    let (work, range) = before.under_way[index];
    let request = requests[work.number as int].1;
    let queue = queued_numbers(before.queued);
    let reads = under_way_numbers(before.under_way);
    let answers = answered_numbers(before.answers);
    queue.to_multiset_ensures();
    reads.to_multiset_ensures();
    answers.to_multiset_ensures();
    assert(is_read_for::<E, Meta, R, K, V>(
        map,
        kind,
        file_len,
        read,
        requests,
        before.under_way[index],
    ));
    assert(under_way_numbers(after.under_way) == reads.remove(index));
    assert(reads.contains(reads[index]));
    lookup::law_work_goes_on_as_lookup::<Meta, K, V>(
        map,
        kind,
        work.entry,
        data,
        Ok(advanced),
        queued,
    );
    lookup::law_lookup_goes_on::<E, R, K, V>(
        map,
        request,
        kind,
        file_len,
        read,
        work.replies,
        data,
    );
    match advanced {
        Processed::Deliver(meta, found) => {
            assert(answered_numbers(after.answers) == answers.push(work.number));
            assert(lookup::looked_up::<E, R, K, V>(
                map,
                request,
                kind,
                file_len,
                read,
                Ok(lookup::model_of(found)),
            ));
        },
        Processed::Queued => {
            assert(queued_numbers(after.queued) == queue.push(work.number));
        },
    }
    assert forall|n: nat| #[trigger]
        numbers(after).count(n) == (if n < after.taken {
            1nat
        } else {
            0
        }) by {
        assert(numbers(before).count(n) == (if n < before.taken {
            1nat
        } else {
            0
        }));
    }
}

/// At each point of the work, in whatever order the reads come back, each request that has been
/// taken is queued, under way or answered, in one of these places and once, and the work on it and
/// the answer to it are its own.
pub proof fn law_account_is_kept<
    'k,
    E,
    Meta,
    R: FnMut(ReadRange) -> Result<Vec<u8>, E>,
    K: Key + ?Sized,
    V: Value,
>(
    map: MapModel,
    kind: PartialEntryKind,
    file_len: u64,
    read: R,
    requests: Seq<(Meta, Request<'k, K>)>,
    states: Seq<Progress<'k, Meta, K, V>>,
    steps: Seq<Step<'k, Meta, K, V>>,
    i: int,
)
    requires
        is_trace::<E, Meta, R, K, V>(map, kind, file_len, read, requests, states, steps),
        0 <= i < states.len(),
    ensures
        keeps_account::<E, Meta, R, K, V>(map, kind, file_len, read, requests, states[i]),
    decreases i,
{
    if i == 0 {
        let start = nothing_done::<Meta, K, V>();
        queued_numbers(start.queued).to_multiset_ensures();
        under_way_numbers(start.under_way).to_multiset_ensures();
        answered_numbers(start.answers).to_multiset_ensures();
    } else {
        law_account_is_kept::<E, Meta, R, K, V>(
            map,
            kind,
            file_len,
            read,
            requests,
            states,
            steps,
            i - 1,
        );
        let (before, after) = (states[i - 1], states[i]);
        let step = steps[i - 1];
        assert(makes_step::<E, Meta, R, K, V>(
            map,
            kind,
            file_len,
            read,
            requests,
            before,
            step,
            after,
        ));
        match step {
            Step::Refill(refill) => {
                lemma_refill_keeps_account::<E, Meta, R, K, V>(
                    map,
                    kind,
                    file_len,
                    read,
                    requests,
                    before,
                    refill,
                    after,
                );
            },
            Step::Reply { index, data, advanced, queued } => {
                lemma_reply_keeps_account::<E, Meta, R, K, V>(
                    map,
                    kind,
                    file_len,
                    read,
                    requests,
                    before,
                    index,
                    data,
                    advanced,
                    queued,
                    after,
                );
            },
        }
    }
}

/// When the work is done, each request has been answered once, under its own name, by what its own
/// lookup gives, in whatever order the reads came back.
pub proof fn law_each_request_is_answered_once<
    'k,
    E,
    Meta,
    R: FnMut(ReadRange) -> Result<Vec<u8>, E>,
    K: Key + ?Sized,
    V: Value,
>(
    map: MapModel,
    kind: PartialEntryKind,
    file_len: u64,
    read: R,
    requests: Seq<(Meta, Request<'k, K>)>,
    states: Seq<Progress<'k, Meta, K, V>>,
    steps: Seq<Step<'k, Meta, K, V>>,
)
    requires
        is_trace::<E, Meta, R, K, V>(map, kind, file_len, read, requests, states, steps),
        is_done(states, steps),
    ensures
        are_first(answered_numbers(states.last().answers).to_multiset(), requests.len()),
        forall|i: int|
            0 <= i < states.last().answers.len() ==> is_answer_to::<E, Meta, R, K, V>(
                map,
                kind,
                file_len,
                read,
                requests,
                #[trigger] states.last().answers[i],
            ),
{
    let end = states.last();
    let last = steps.len() - 1;
    law_account_is_kept::<E, Meta, R, K, V>(
        map,
        kind,
        file_len,
        read,
        requests,
        states,
        steps,
        last + 1,
    );
    assert(makes_step::<E, Meta, R, K, V>(
        map,
        kind,
        file_len,
        read,
        requests,
        states[last],
        steps[last],
        states[last + 1],
    ));
    assert(end == states[last]);
    assert(entries_of(end.queued).len() == end.queued.len());
    law_account_is_kept::<E, Meta, R, K, V>(
        map,
        kind,
        file_len,
        read,
        requests,
        states,
        steps,
        last,
    );
    queued_numbers(end.queued).to_multiset_ensures();
    under_way_numbers(end.under_way).to_multiset_ensures();
    assert(are_first(answered_numbers(end.answers).to_multiset(), requests.len())) by {
        assert forall|n: nat| #[trigger]
            answered_numbers(end.answers).to_multiset().count(n) == (if n < requests.len() {
                1nat
            } else {
                0
            }) by {
            assert(numbers(end).count(n) == (if n < end.taken {
                1nat
            } else {
                0
            }));
        }
    }
}

/// What a request is answered with is what the file tells that the reads are made of, and nothing is
/// told only of a key that is not stored.
pub proof fn law_answers_are_true<
    'k,
    E,
    Meta,
    R: FnMut(ReadRange) -> Result<Vec<u8>, E>,
    K: Key + ?Sized,
    V: Value,
>(
    map: MapModel,
    kind: PartialEntryKind,
    read: R,
    requests: Seq<(Meta, Request<'k, K>)>,
    answer: Answer<Meta, V>,
    bytes: Seq<u8>,
)
    requires
        kind.spec_est_size::<K, V>() <= usize::MAX,
        bytes.len() <= u64::MAX,
        file::reads_file::<E, R>(read, bytes),
        is_answer_to::<E, Meta, R, K, V>(
            map,
            kind,
            bytes.len() as u64,
            read,
            requests,
            answer,
        ),
    ensures
        ({
            let request = requests[answer.number as int].1;
            &&& lookup::told(lookup::request_answer::<K, V>(map, bytes, request, kind)) == Ok::<
                Option<PartialModel<V>>,
                DataError,
            >(answer.found)
            &&& answer.found is None ==> request is Key
        }),
{
    lookup::law_lookup_tells_the_truth::<E, R, K, V>(
        map,
        requests[answer.number as int].1,
        kind,
        bytes.len() as u64,
        read,
        Ok(answer.found),
        bytes,
    );
}

/// Where the work cannot go on, that is so of one of the requests: what is wrong with a request that
/// is taken, or with the bytes that a read has brought, is what its own lookup tells, and a read
/// that fails is one of its own lookup.
pub proof fn law_failure_is_of_a_request<
    'k,
    E,
    Meta,
    R: FnMut(ReadRange) -> Result<Vec<u8>, E>,
    K: Key + ?Sized,
    V: Value,
>(
    map: MapModel,
    kind: PartialEntryKind,
    file_len: u64,
    read: R,
    requests: Seq<(Meta, Request<'k, K>)>,
    progress: Progress<'k, Meta, K, V>,
    index: int,
    data: Seq<u8>,
    queued: Option<Entry<'k, Meta, K>>,
    wrong: DataError,
    failure: E,
)
    requires
        keeps_account::<E, Meta, R, K, V>(map, kind, file_len, read, requests, progress),
    ensures
        sparse::refills(
            map,
            kind.spec_est_size::<K, V>() as u64,
            file_len,
            entries_of(progress.queued),
            requests.skip(progress.taken as int),
            Err(wrong),
            entries_of(progress.queued),
            requests.skip(progress.taken as int + 1),
        ) ==> progress.taken < requests.len() && lookup::looked_up::<E, R, K, V>(
            map,
            requests[progress.taken as int].1,
            kind,
            file_len,
            read,
            Err(MapError::Data(wrong)),
        ),
        0 <= index < progress.under_way.len() ==> {
            let (work, range) = progress.under_way[index];
            let request = requests[work.number as int].1;
            &&& file::read_gives::<E, R>(read, range, data) && sparse::advances::<Meta, K, V>(
                map,
                kind,
                kind.spec_est_size::<K, V>() as u64,
                work.entry,
                data,
                Err(wrong),
                queued,
            ) ==> lookup::looked_up::<E, R, K, V>(
                map,
                request,
                kind,
                file_len,
                read,
                Err(MapError::Data(wrong)),
            )
            &&& file::read_fails::<E, R>(read, range, failure) ==> lookup::looked_up::<E, R, K, V>(
                map,
                request,
                kind,
                file_len,
                read,
                Err(MapError::Caller(failure)),
            )
        },
{
    let remaining = requests.skip(progress.taken as int);
    let est = kind.spec_est_size::<K, V>() as u64;
    if sparse::refills(
        map,
        est,
        file_len,
        entries_of(progress.queued),
        remaining,
        Err(wrong),
        entries_of(progress.queued),
        requests.skip(progress.taken as int + 1),
    ) {
        let first = remaining[0];
        assert(first == requests[progress.taken as int]);
        lookup::law_request_starts_as_lookup::<Meta, K, V>(map, first, kind, file_len, Err(wrong));
        let none = Seq::<Seq<u8>>::empty();
        assert(lookup::follows_lookup::<E, R, K, V>(map, first.1, kind, file_len, read, none));
    }
    if 0 <= index < progress.under_way.len() {
        let (work, range) = progress.under_way[index];
        let request = requests[work.number as int].1;
        assert(is_read_for::<E, Meta, R, K, V>(
            map,
            kind,
            file_len,
            read,
            requests,
            progress.under_way[index],
        ));
        if file::read_gives::<E, R>(read, range, data) && sparse::advances::<Meta, K, V>(
            map,
            kind,
            est,
            work.entry,
            data,
            Err(wrong),
            queued,
        ) {
            lookup::law_work_goes_on_as_lookup::<Meta, K, V>(
                map,
                kind,
                work.entry,
                data,
                Err(wrong),
                queued,
            );
            lookup::law_lookup_goes_on::<E, R, K, V>(
                map,
                request,
                kind,
                file_len,
                read,
                work.replies,
                data,
            );
        }
    }
}

} // verus!
