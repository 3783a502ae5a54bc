//! The FIFO over several calls of its producer.

use crate::bytes_buffer;
use crate::bytes_buffer::{ConsumerCall, StreamBufferStep};
use vstd::prelude::*;

verus! {

/// One call of [`bytes_buffer::StreamBuffer::process`]: what was appended, how the consumer was
/// served, and what the FIFO held in the end.
pub struct Round<T> {
    pub new_items: Seq<T>,
    pub calls: Seq<ConsumerCall<T>>,
    pub left: Seq<T>,
}

/// What a FIFO that was empty at first holds after the rounds.
pub open spec fn left_after<T>(rounds: Seq<Round<T>>) -> Seq<T> {
    if rounds.len() == 0 {
        Seq::empty()
    } else {
        rounds.last().left
    }
}

/// Whether the rounds follow each other on a FIFO that was empty at first.
pub open spec fn are_rounds<T: Clone>(rounds: Seq<Round<T>>) -> bool
    decreases rounds.len(),
{
    rounds.len() > 0 ==> {
        let last = rounds.last();
        &&& are_rounds(rounds.drop_last())
        &&& bytes_buffer::served(
            left_after(rounds.drop_last()),
            last.new_items,
            last.calls,
            last.left,
        )
    }
}

/// All that was appended in the rounds.
pub open spec fn items_of<T>(rounds: Seq<Round<T>>) -> Seq<T>
    decreases rounds.len(),
{
    if rounds.len() == 0 {
        Seq::empty()
    } else {
        items_of(rounds.drop_last()) + rounds.last().new_items
    }
}

/// All calls of the consumer in the rounds.
pub open spec fn calls_of<T>(rounds: Seq<Round<T>>) -> Seq<ConsumerCall<T>>
    decreases rounds.len(),
{
    if rounds.len() == 0 {
        Seq::empty()
    } else {
        calls_of(rounds.drop_last()) + rounds.last().calls
    }
}

/// How much the calls consume is what the first of them and the others consume.
proof fn lemma_consumed_adds<T>(first: Seq<ConsumerCall<T>>, others: Seq<ConsumerCall<T>>)
    ensures
        bytes_buffer::consumed(first + others) == bytes_buffer::consumed(first)
            + bytes_buffer::consumed(others),
    decreases first.len(),
{
    if first.len() == 0 {
        assert(first + others == others);
    } else {
        assert((first + others).drop_first() == first.drop_first() + others);
        lemma_consumed_adds(first.drop_first(), others);
    }
}

/// Nothing is lost, doubled or moved over several rounds either: the FIFO holds all that was
/// appended in them, in order, without what the consumer consumed.
pub proof fn law_nothing_is_lost_over_rounds<T: Clone>(rounds: Seq<Round<T>>)
    requires
        are_rounds(rounds),
    ensures
        bytes_buffer::carried(
            Seq::empty(),
            items_of(rounds),
            bytes_buffer::consumed(calls_of(rounds)),
            left_after(rounds),
        ),
    decreases rounds.len(),
{
    if rounds.len() > 0 {
        let earlier = rounds.drop_last();
        let last = rounds.last();
        law_nothing_is_lost_over_rounds(earlier);
        bytes_buffer::law_nothing_is_lost(
            left_after(earlier),
            last.new_items,
            last.calls,
            last.left,
        );
        lemma_consumed_adds(calls_of(earlier), last.calls);
    }
}

/// In each round the two slices that the consumer is handed are together what is not consumed of all
/// that was appended in this round and in those before it.
pub proof fn law_parts_are_whole_fifo_over_rounds<T: Clone>(rounds: Seq<Round<T>>, i: int)
    requires
        are_rounds(rounds),
        rounds.len() > 0,
        0 <= i < rounds.last().calls.len(),
    ensures
        bytes_buffer::carried(
            Seq::empty(),
            items_of(rounds),
            bytes_buffer::consumed(calls_of(rounds.drop_last())) + bytes_buffer::consumed(
                rounds.last().calls.take(i),
            ),
            rounds.last().calls[i].part1 + rounds.last().calls[i].part2,
        ),
{
    let earlier = rounds.drop_last();
    let last = rounds.last();
    law_nothing_is_lost_over_rounds(earlier);
    bytes_buffer::law_parts_are_whole_fifo(
        left_after(earlier),
        last.new_items,
        last.calls,
        last.left,
        i,
    );
}

/// Whether the consumer, which has consumed `done` pieces, wants the items in pieces of the lengths
/// `targets`: it consumes a piece as soon as its first slice holds it, and asks for it before.
pub open spec fn follows_targets<T>(
    targets: spec_fn(nat) -> usize,
    done: nat,
    calls: Seq<ConsumerCall<T>>,
) -> bool
    decreases calls.len(),
{
    calls.len() > 0 ==> if calls[0].part1.len() >= targets(done) {
        &&& calls[0].step == StreamBufferStep::Consumed(targets(done))
        &&& follows_targets(targets, done + 1, calls.drop_first())
    } else {
        &&& calls[0].step == StreamBufferStep::WantContiguos(targets(done))
        &&& follows_targets(targets, done, calls.drop_first())
    }
}

/// The pieces that are consumed from the first slices.
pub open spec fn pieces<T>(calls: Seq<ConsumerCall<T>>) -> Seq<Seq<T>>
    decreases calls.len(),
{
    if calls.len() == 0 {
        Seq::empty()
    } else {
        let later = pieces(calls.drop_first());
        match calls[0].step {
            StreamBufferStep::Consumed(count) => seq![calls[0].part1.take(count as int)] + later,
            StreamBufferStep::WantContiguos(_) => later,
        }
    }
}

/// The length of the first `count` pieces.
pub open spec fn targets_len(targets: spec_fn(nat) -> usize, count: nat) -> int
    decreases count,
{
    if count == 0 {
        0
    } else {
        targets_len(targets, (count - 1) as nat) + targets((count - 1) as nat)
    }
}

/// `piece` is what `buf + rest` holds from `from` on. The items of `buf` are in it unchanged, and
/// those of `rest` as themselves or as clones.
pub open spec fn is_piece<T: Clone>(buf: Seq<T>, rest: Seq<T>, from: int, piece: Seq<T>) -> bool {
    &&& 0 <= from
    &&& from + piece.len() <= buf.len() + rest.len()
    &&& forall|i: int|
        0 <= i < piece.len() ==> if from + i < buf.len() {
            #[trigger] piece[i] == buf[from + i]
        } else {
            cloned::<T>(rest[from + i - buf.len()], piece[i])
        }
}

/// Whether the pieces that are consumed behind the first `done` ones have the lengths `targets`, are
/// what `buf + rest` holds, one after the other, and leave less than the next one in `left`.
spec fn cuts_pieces<T: Clone>(
    targets: spec_fn(nat) -> usize,
    done: nat,
    buf: Seq<T>,
    rest: Seq<T>,
    calls: Seq<ConsumerCall<T>>,
    left: Seq<T>,
) -> bool {
    let cut = pieces(calls);
    let from = targets_len(targets, done);
    &&& bytes_buffer::consumed(calls) == targets_len(targets, done + cut.len()) - from
    &&& left.len() < targets(done + cut.len())
    &&& forall|k: int| 0 <= k < cut.len() ==> (#[trigger] cut[k]).len() == targets((done + k) as nat)
    &&& forall|k: int|
        0 <= k < cut.len() ==> is_piece(
            buf,
            rest,
            targets_len(targets, (done + k) as nat) - from,
            #[trigger] cut[k],
        )
}

proof fn lemma_targets_grow(targets: spec_fn(nat) -> usize, count: nat, more: nat)
    requires
        forall|n: nat| #[trigger] targets(n) > 0,
    ensures
        targets_len(targets, count) + more <= targets_len(targets, count + more),
    decreases more,
{
    if more > 0 {
        lemma_targets_grow(targets, count, (more - 1) as nat);
        assert(targets((count + more - 1) as nat) > 0);
    }
}

proof fn lemma_round_cuts_pieces<T: Clone>(
    targets: spec_fn(nat) -> usize,
    done: nat,
    buf: Seq<T>,
    rest: Seq<T>,
    calls: Seq<ConsumerCall<T>>,
    left: Seq<T>,
)
    requires
        forall|n: nat| #[trigger] targets(n) > 0,
        bytes_buffer::served(buf, rest, calls, left),
        follows_targets(targets, done, calls),
    ensures
        cuts_pieces(targets, done, buf, rest, calls, left),
    decreases calls.len(),
{
    let cut = pieces(calls);
    if calls.len() > 0 {
        let later = calls.drop_first();
        let behind = pieces(later);
        let target = targets(done);
        if calls[0].part1.len() >= target {
            let first = calls[0].part1.take(target as int);
            let (next_buf, next_rest) = if buf.len() == 0 {
                (Seq::<T>::empty(), rest.skip(target as int))
            } else if target < buf.len() {
                (buf.skip(target as int), rest)
            } else {
                (Seq::<T>::empty(), rest.skip(target - buf.len()))
            };
            lemma_round_cuts_pieces(targets, done + 1, next_buf, next_rest, later, left);
            assert(cut == seq![first] + behind);
            assert forall|k: int| 0 <= k < cut.len() implies (#[trigger] cut[k]).len() == targets(
                (done + k) as nat,
            ) && is_piece(
                buf,
                rest,
                targets_len(targets, (done + k) as nat) - targets_len(targets, done),
                cut[k],
            ) by {
                if k > 0 {
                    assert(cut[k] == behind[k - 1]);
                    let from = targets_len(targets, (done + 1 + (k - 1)) as nat) - targets_len(
                        targets,
                        done + 1,
                    );
                    assert(is_piece(next_buf, next_rest, from, behind[k - 1]));
                    assert(done + 1 + (k - 1) == done + k);
                }
            }
        } else {
            if buf.len() > 0 && target <= buf.len() + rest.len() {
                let moved = bytes_buffer::missing(buf, target);
                let longer = later[0].part1;
                lemma_round_cuts_pieces(targets, done, longer, rest.skip(moved), later, left);
                assert(cut == behind);
                assert forall|k: int| 0 <= k < cut.len() implies is_piece(
                    buf,
                    rest,
                    targets_len(targets, (done + k) as nat) - targets_len(targets, done),
                    #[trigger] cut[k],
                ) by {
                    let from = targets_len(targets, (done + k) as nat) - targets_len(targets, done);
                    assert(is_piece(longer, rest.skip(moved), from, behind[k]));
                }
            } else {
                assert(cut == behind);
                assert(behind.len() == 0);
                assert(bytes_buffer::consumed(later) == 0);
            }
        }
    }
}

proof fn lemma_pieces_add<T>(
    targets: spec_fn(nat) -> usize,
    done: nat,
    first: Seq<ConsumerCall<T>>,
    others: Seq<ConsumerCall<T>>,
)
    requires
        follows_targets(targets, done, first + others),
    ensures
        pieces(first + others) == pieces(first) + pieces(others),
        follows_targets(targets, done, first),
        follows_targets(targets, done + pieces(first).len(), others),
    decreases first.len(),
{
    let all = first + others;
    if first.len() == 0 {
        assert(all == others);
        assert(pieces(first) + pieces(others) == pieces(others));
    } else {
        assert(all.drop_first() == first.drop_first() + others);
        assert(all[0] == first[0]);
        if first[0].part1.len() >= targets(done) {
            lemma_pieces_add(targets, done + 1, first.drop_first(), others);
            let piece = first[0].part1.take(targets(done) as int);
            assert(seq![piece] + (pieces(first.drop_first()) + pieces(others)) == pieces(first)
                + pieces(others));
            assert(done + 1 + pieces(first.drop_first()).len() == done + pieces(first).len());
        } else {
            lemma_pieces_add(targets, done, first.drop_first(), others);
        }
    }
}

/// A consumer that wants the items in pieces of the lengths `targets` gets them so, however they are
/// cut into rounds: the pieces are what was appended, one behind the other, and none whose items are
/// there is missing.
pub proof fn law_pieces_are_in_order<T: Clone>(
    targets: spec_fn(nat) -> usize,
    rounds: Seq<Round<T>>,
)
    requires
        forall|n: nat| #[trigger] targets(n) > 0,
        are_rounds(rounds),
        follows_targets(targets, 0, calls_of(rounds)),
    ensures
        ({
            let all = items_of(rounds);
            let cut = pieces(calls_of(rounds));
            &&& targets_len(targets, cut.len()) <= all.len() < targets_len(targets, cut.len() + 1)
            &&& forall|k: int| 0 <= k < cut.len() ==> (#[trigger] cut[k]).len() == targets(k as nat)
            &&& forall|k: int|
                0 <= k < cut.len() ==> is_piece(
                    Seq::empty(),
                    all,
                    targets_len(targets, k as nat),
                    #[trigger] cut[k],
                )
            &&& bytes_buffer::consumed(calls_of(rounds)) == targets_len(targets, cut.len())
        }),
    decreases rounds.len(),
{
    let all = items_of(rounds);
    let cut = pieces(calls_of(rounds));
    if rounds.len() == 0 {
        assert(targets(0) > 0);
        assert(targets_len(targets, 1) == targets_len(targets, 0) + targets(0));
    } else {
        let earlier = rounds.drop_last();
        let last = rounds.last();
        let buf = left_after(earlier);
        let first = pieces(calls_of(earlier));
        let done = first.len();
        let second = pieces(last.calls);
        lemma_pieces_add(targets, 0, calls_of(earlier), last.calls);
        law_pieces_are_in_order(targets, earlier);
        lemma_round_cuts_pieces(targets, done, buf, last.new_items, last.calls, last.left);
        law_nothing_is_lost_over_rounds(earlier);
        law_nothing_is_lost_over_rounds(rounds);
        lemma_consumed_adds(calls_of(earlier), last.calls);
        assert(cut == first + second);
        assert forall|k: int| 0 <= k < cut.len() implies (#[trigger] cut[k]).len() == targets(
            k as nat,
        ) && is_piece(Seq::empty(), all, targets_len(targets, k as nat), cut[k]) by {
            if k < done {
                assert(cut[k] == first[k]);
                assert(is_piece(
                    Seq::empty(),
                    items_of(earlier),
                    targets_len(targets, k as nat),
                    first[k],
                ));
            } else {
                assert(cut[k] == second[k - done]);
                assert(done + (k - done) == k);
                let from = targets_len(targets, k as nat) - targets_len(targets, done);
                assert(is_piece(buf, last.new_items, from, second[k - done]));
            }
        }
    }
}

/// How the items are cut into rounds does not matter to a consumer that wants them in pieces of
/// fixed lengths: it gets as many pieces, and, if a clone of an item equals it, the same ones.
pub proof fn law_rounds_do_not_matter<T: Clone>(
    targets: spec_fn(nat) -> usize,
    rounds: Seq<Round<T>>,
    others: Seq<Round<T>>,
)
    requires
        forall|n: nat| #[trigger] targets(n) > 0,
        are_rounds(rounds),
        are_rounds(others),
        follows_targets(targets, 0, calls_of(rounds)),
        follows_targets(targets, 0, calls_of(others)),
        items_of(rounds) == items_of(others),
    ensures
        pieces(calls_of(rounds)).len() == pieces(calls_of(others)).len(),
        (forall|a: T, b: T| #[trigger] cloned::<T>(a, b) ==> a == b) ==> pieces(calls_of(rounds))
            == pieces(calls_of(others)),
{
    let first = pieces(calls_of(rounds));
    let second = pieces(calls_of(others));
    law_pieces_are_in_order(targets, rounds);
    law_pieces_are_in_order(targets, others);
    if first.len() < second.len() {
        lemma_targets_grow(targets, first.len() + 1, (second.len() - first.len() - 1) as nat);
    }
    if second.len() < first.len() {
        lemma_targets_grow(targets, second.len() + 1, (first.len() - second.len() - 1) as nat);
    }
    if forall|a: T, b: T| #[trigger] cloned::<T>(a, b) ==> a == b {
        assert forall|k: int| 0 <= k < first.len() implies #[trigger] first[k] == second[k] by {
            assert(first[k].len() == second[k].len());
            assert(first[k] =~= second[k]);
        }
        assert(first =~= second);
    }
}

} // verus!
