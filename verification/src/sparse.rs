//! Looking up single entries: which reads that takes, and what comes of them.

use crate::align;
use crate::aligned;
use crate::aligned::AlignedBuf;
use crate::entry;
use crate::file;
use crate::file::{DataError, ReadRange};
use crate::keys::{Key, ReadError, ReadResult};
use crate::phf;
use crate::state;
use crate::state::{PartialEntry, PartialEntryKind, PartialModel, State};
use crate::universal_hashmap::{MapModel, UniversalHashMap};
use crate::values;
use crate::values::Value;
use std::collections::VecDeque;
use vstd::prelude::*;

verus! {

/// The entry that is wanted: the one at this offset from the first entry, or that of this key.
pub enum Request<'k, K: Key + ?Sized> {
    Offset(u64),
    Key(&'k K),
}

/// How far the search for an entry has come.
///
/// - `Request::Offset` starts with `ReadingEntry`, as its position is known.
/// - `Request::Key` starts with `ReadingOffset`, and goes on with `ReadingEntry`.
/// - `ReadingEntry` goes on with itself, with a larger `expected_len`, until the entry is complete.
#[allow(inconsistent_fields)]
pub enum EntryState<'k, K: Key + ?Sized> {
    /// Waiting for the bucket-offset value (8 bytes) so we can locate the entry
    /// data on disk. Only used for `Request::Key`.
    ReadingOffset { requested_key: &'k K },
    /// Reading the entry data. May span multiple reads if the entry is larger
    /// than the initial size estimate.
    ///
    /// `requested_key` stays `Some` while we still need to verify the stored
    /// key matches; gets cleared once verified, and is `None` for offset requests.
    ///
    /// The bytes lie at an aligned address, so what is read of them does not depend on where.
    ReadingEntry {
        byte_offset: u64,
        buf: AlignedBuf,
        expected_len: u64,
        requested_key: Option<&'k K>,
        parse_state: State,
    },
}

/// A request that is being worked on, with what its caller wants to know it by.
pub struct Entry<'k, Meta, K: Key + ?Sized> {
    pub meta: Meta,
    pub state: EntryState<'k, K>,
}

/// What is to be done next.
pub enum Refill<'k, Meta, K: Key + ?Sized> {
    /// The range is to be read, and the bytes handed to [`SparsePipeline::process`].
    Schedule(Entry<'k, Meta, K>, ReadRange),
    /// The request is answered: there is no such entry.
    Missing(Meta),
    /// Nothing, until reads that are under way have been processed.
    Drained,
}

/// What a read has brought.
pub enum Processed<Meta, K: Key + ?Sized, V> {
    /// The request is answered.
    Deliver(Meta, Option<PartialEntry<K, V>>),
    /// More has to be read, which [`SparsePipeline::refill`] will tell.
    Queued,
}

/// What the bytes of an entry, as far as they are there, tell.
pub enum Outcome<V> {
    Found(PartialModel<V>),
    /// It is the entry of another key.
    Absent,
    /// More bytes are needed.
    More,
    Damaged(DataError),
}

/// What a parse tells.
pub open spec fn parse_outcome<V>(parsed: ReadResult<(PartialModel<V>, int)>) -> Outcome<V> {
    match parsed {
        Ok((model, _)) => Outcome::Found(model),
        Err(ReadError::Invalid) => Outcome::Damaged(DataError::Entry),
        Err(ReadError::Incomplete) => Outcome::More,
    }
}

/// What the first bytes `buf` of an entry tell, where `state` is what is known of them before, and
/// the key is still to be compared with the encoding `requested`.
pub open spec fn entry_outcome<K: Key + ?Sized, V: Value>(
    state: State,
    buf: Seq<u8>,
    requested: Option<Seq<u8>>,
    kind: PartialEntryKind,
) -> Outcome<V> {
    let parsed = state.parsed::<K, V>(buf, 0, kind);
    match (requested, state.searched::<K>(buf, 0).key_size) {
        (Some(requested), Some(size)) => match state::key_in::<K>(buf, 0, size as nat) {
            Err(_) => Outcome::Damaged(DataError::StoredKey),
            Ok(key) => if key != requested {
                Outcome::Absent
            } else {
                parse_outcome(parsed)
            },
        },
        _ => parse_outcome(parsed),
    }
}

/// The encoding of a key that is wanted.
pub open spec fn requested_encoding<K: Key + ?Sized>(requested_key: Option<&K>) -> Option<
    Seq<u8>,
> {
    match requested_key {
        Some(key) => Some(key.encoding()),
        None => None,
    }
}

/// The least power of two above `len`.
pub open spec fn power_above(len: nat) -> nat
    decreases len,
{
    if len == 0 {
        1
    } else {
        2 * power_above(len / 2)
    }
}

/// How many bytes of an entry to ask for when `len` were not enough.
pub open spec fn grown_len<K: Key + ?Sized>(len: nat) -> nat {
    if power_above(len) < K::spec_value_size_est() {
        K::spec_value_size_est() as nat
    } else {
        power_above(len)
    }
}

proof fn lemma_power_above(len: nat)
    ensures
        power_above(len) > len,
    decreases len,
{
    if len > 0 {
        lemma_power_above(len / 2);
    }
}

/// More is asked for than was there.
pub proof fn law_grown_len_grows<K: Key + ?Sized>(len: nat)
    ensures
        grown_len::<K>(len) > len,
{
    lemma_power_above(len);
}

/// What is asked for is a power of two, and no more than twice what was there, or just the guess of
/// the size of a key where that is more.
pub proof fn law_grown_len_doubles<K: Key + ?Sized>(len: nat)
    requires
        len > 0,
    ensures
        grown_len::<K>(len) >= K::spec_value_size_est(),
        vstd::arithmetic::power2::is_pow2(grown_len::<K>(len) as int) && grown_len::<K>(len) <= 2
            * len || grown_len::<K>(len) == K::spec_value_size_est(),
{
    lemma_power_above_bound(len);
    lemma_power_above_is_power(len);
    K::law_layout();
}

proof fn lemma_power_above_is_power(len: nat)
    ensures
        vstd::arithmetic::power2::is_pow2(power_above(len) as int),
    decreases len,
{
    reveal(vstd::arithmetic::power2::is_pow2);
    if len > 0 {
        lemma_power_above_is_power(len / 2);
    }
}

pub(crate) proof fn lemma_grown_len_fits<K: Key + ?Sized>(len: nat)
    requires
        len <= isize::MAX,
    ensures
        grown_len::<K>(len) <= u64::MAX,
{
    lemma_power_above_bound(len);
    K::law_layout();
}

/// No more than twice as much is asked for, or the guess of the size of a key.
pub(crate) proof fn lemma_grown_len_bound<K: Key + ?Sized>(len: nat)
    ensures
        grown_len::<K>(len) <= 2 * len || grown_len::<K>(len) == 1 || grown_len::<K>(len)
            == K::spec_value_size_est(),
{
    lemma_power_above_bound(len);
}

proof fn lemma_power_above_bound(len: nat)
    ensures
        power_above(len) <= 2 * len || len == 0,
    decreases len,
{
    if len > 0 {
        lemma_power_above_bound(len / 2);
    }
}

fn exec_power_above(len: u64) -> (power: u64)
    requires
        len <= isize::MAX,
    ensures
        power == power_above(len as nat),
        power <= 2 * len || len == 0,
    decreases len,
{
    if len == 0 {
        1
    } else {
        let half: u64 = exec_power_above(len / 2);
        2 * half
    }
}

/// The range of an entry at `byte_offset` that is missing when `len` of its first `expected_len`
/// bytes are there.
pub open spec fn missing_range(byte_offset: u64, len: nat, expected_len: u64) -> ReadRange {
    let start = byte_offset + len;
    let missing = expected_len - len;
    ReadRange {
        byte_offset: if start > u64::MAX {
            u64::MAX
        } else {
            start as u64
        },
        length: if missing < 0 {
            0
        } else {
            missing as u64
        },
    }
}

impl<'k, K: Key + ?Sized> EntryState<'k, K> {
    /// The range that is read next.
    pub open spec fn next_range(self) -> ReadRange
        recommends
            self is ReadingEntry,
    {
        missing_range(self->byte_offset, self->buf@.len(), self->expected_len)
    }

    /// Whether `data`, which a read has brought, is nothing of the entry: there is nothing more, so
    /// an entry that is not complete then is cut off by the end of the file.
    pub fn is_cut_off(&self, data: &[u8]) -> (cut_off: bool)
        ensures
            cut_off == (self is ReadingEntry && data@.len() == 0),
    {
        matches!(self, EntryState::ReadingEntry { .. }) && data.len() == 0
    }

    /// Whether nothing of the entry at `byte_offset` has been read yet.
    pub open spec fn is_start(
        self,
        byte_offset: int,
        expected_len: u64,
        requested_key: Option<&'k K>,
    ) -> bool {
        &&& self is ReadingEntry
        &&& self->byte_offset == byte_offset
        &&& self->buf@ == Seq::<u8>::empty()
        &&& self->expected_len == expected_len
        &&& self->ReadingEntry_requested_key == requested_key
        &&& self->parse_state == State::fresh()
    }
}

/// How the work on a request starts: with the entry itself where its position is known, and with
/// the bucket of the key otherwise.
pub open spec fn started<'k, Meta, K: Key + ?Sized>(
    map: MapModel,
    est: u64,
    file_len: u64,
    request: (Meta, Request<'k, K>),
    refilled: Result<Refill<'k, Meta, K>, DataError>,
) -> bool {
    match request.1 {
        Request::Offset(offset) => {
            let byte_offset = map.entries_start + offset;
            if byte_offset > u64::MAX {
                refilled == Err::<Refill<'k, Meta, K>, DataError>(DataError::Position)
            } else {
                &&& refilled matches Ok(Refill::Schedule(entry, range))
                &&& entry.meta == request.0
                &&& entry.state.is_start(byte_offset, est, None)
                &&& range == (ReadRange {
                    byte_offset: byte_offset as u64,
                    length: est,
                }).clamped(file_len)
            }
        },
        Request::Key(key) => match key.slot(map.levels, map.words) {
            None => refilled == Ok::<Refill<'k, Meta, K>, DataError>(Refill::Missing(request.0)),
            Some(hash) => {
                let bucket = map.buckets_pos + hash * file::BUCKET_OFFSET_SIZE;
                if bucket > u64::MAX {
                    refilled == Err::<Refill<'k, Meta, K>, DataError>(DataError::Position)
                } else {
                    &&& refilled matches Ok(Refill::Schedule(entry, range))
                    &&& entry.meta == request.0
                    &&& entry.state == EntryState::ReadingOffset { requested_key: key }
                    &&& range == (ReadRange {
                        byte_offset: bucket as u64,
                        length: file::BUCKET_OFFSET_SIZE,
                    }).clamped(file_len)
                }
            },
        },
    }
}

/// What is to be done next, where `queue` are the entries that are queued and `requests` those that
/// have not been taken: what was queued last comes first, then the first of `requests`.
pub open spec fn refills<'k, Meta, K: Key + ?Sized>(
    map: MapModel,
    est: u64,
    file_len: u64,
    queue: Seq<Entry<'k, Meta, K>>,
    requests: Seq<(Meta, Request<'k, K>)>,
    refilled: Result<Refill<'k, Meta, K>, DataError>,
    queue_after: Seq<Entry<'k, Meta, K>>,
    requests_after: Seq<(Meta, Request<'k, K>)>,
) -> bool {
    if queue.len() > 0 {
        let entry = queue.last();
        &&& refilled == Ok::<Refill<'k, Meta, K>, DataError>(
            Refill::Schedule(entry, entry.state.next_range().clamped(file_len)),
        )
        &&& queue_after == queue.drop_last()
        &&& requests_after == requests
    } else if requests.len() == 0 {
        &&& refilled == Ok::<Refill<'k, Meta, K>, DataError>(Refill::Drained)
        &&& queue_after == queue
        &&& requests_after == requests
    } else {
        &&& queue_after == queue
        &&& requests_after == requests.skip(1)
        &&& started(map, est, file_len, requests[0], refilled)
    }
}

/// An address in an aligned buffer is as good as address 0.
pub(crate) proof fn lemma_aligned_address<K: Key + ?Sized, V: Value>(addr: int)
    requires
        addr % aligned::BUFFER_ALIGN as int == 0,
    ensures
        addr % K::spec_align() == 0int % K::spec_align(),
        addr % entry::len_align() == 0int % entry::len_align(),
        addr % values::value_align::<V>() == 0int % values::value_align::<V>(),
{
    broadcast use vstd::layout::align_nonzero;

    let whole = aligned::BUFFER_ALIGN as int;
    K::law_layout();
    V::law_layout();
    u32::law_layout();
    align::lemma_divisor_of_alignment(addr, whole, K::spec_align());
    align::lemma_divisor_of_alignment(0, whole, K::spec_align());
    align::lemma_divisor_of_alignment(addr, whole, entry::len_align());
    align::lemma_divisor_of_alignment(0, whole, entry::len_align());
    align::lemma_divisor_of_alignment(addr, whole, values::value_align::<V>());
    align::lemma_divisor_of_alignment(0, whole, values::value_align::<V>());
}

/// How the work on an entry goes on when `bytes` of it were not enough.
pub open spec fn continued<'k, K: Key + ?Sized>(
    before: EntryState<'k, K>,
    bytes: Seq<u8>,
    after: EntryState<'k, K>,
) -> bool {
    &&& after is ReadingEntry
    &&& after->byte_offset == before->byte_offset
    &&& after->buf@ == bytes
    &&& after->expected_len == grown_len::<K>(bytes.len())
    &&& after->parse_state == before->parse_state.searched::<K>(bytes, 0)
    &&& after->ReadingEntry_requested_key == (if after->parse_state.key_size is Some {
        None
    } else {
        before->ReadingEntry_requested_key
    })
}

/// What `data` brings for an entry that is being worked on, and how it is queued if more is needed.
pub open spec fn processes<'k, Meta, K: Key + ?Sized, V: Value>(
    map: MapModel,
    kind: PartialEntryKind,
    est: u64,
    entry: Entry<'k, Meta, K>,
    data: Seq<u8>,
    processed: Result<Processed<Meta, K, V>, DataError>,
    queued: Option<Entry<'k, Meta, K>>,
) -> bool {
    match entry.state {
        EntryState::ReadingOffset { requested_key } => {
            let byte_offset = map.entries_start + file::bucket_offset(data);
            if data.len() != file::BUCKET_OFFSET_SIZE {
                &&& processed == Err::<Processed<Meta, K, V>, DataError>(DataError::BucketOffset)
                &&& queued is None
            } else if byte_offset > u64::MAX {
                &&& processed == Err::<Processed<Meta, K, V>, DataError>(DataError::Position)
                &&& queued is None
            } else {
                &&& processed == Ok::<Processed<Meta, K, V>, DataError>(Processed::Queued)
                &&& queued matches Some(next)
                &&& next.meta == entry.meta
                &&& next.state.is_start(byte_offset, est, Some(requested_key))
            }
        },
        EntryState::ReadingEntry { buf, requested_key, parse_state, .. } => {
            let bytes = buf@ + data;
            if !aligned::fits_buffer(bytes.len() as int) {
                &&& processed == Err::<Processed<Meta, K, V>, DataError>(DataError::TooLarge)
                &&& queued is None
            } else {
                match entry_outcome::<K, V>(
                    parse_state,
                    bytes,
                    requested_encoding(requested_key),
                    kind,
                ) {
                    Outcome::Found(model) => {
                        &&& processed matches Ok(Processed::Deliver(meta, Some(found)))
                        &&& meta == entry.meta
                        &&& found.model() == model
                        &&& queued is None
                    },
                    Outcome::Absent => {
                        &&& processed == Ok::<Processed<Meta, K, V>, DataError>(
                            Processed::Deliver(entry.meta, None),
                        )
                        &&& queued is None
                    },
                    Outcome::Damaged(error) => {
                        &&& processed == Err::<Processed<Meta, K, V>, DataError>(error)
                        &&& queued is None
                    },
                    Outcome::More => {
                        &&& processed == Ok::<Processed<Meta, K, V>, DataError>(Processed::Queued)
                        &&& queued matches Some(next)
                        &&& next.meta == entry.meta
                        &&& continued(entry.state, bytes, next.state)
                    },
                }
            }
        },
    }
}

/// What comes of an entry of which nothing more can be read, where `processed` is what a read of it
/// has brought: if more is needed, it is cut off by the end of the file.
pub open spec fn spec_unless_cut_off<Meta, K: Key + ?Sized, V>(
    processed: Result<Processed<Meta, K, V>, DataError>,
    cut_off: bool,
) -> Result<Processed<Meta, K, V>, DataError> {
    match processed {
        Ok(Processed::Queued) => if cut_off {
            Err(DataError::CutOff)
        } else {
            processed
        },
        _ => processed,
    }
}

/// Tells whether the work on an entry goes on, where `processed` is what a read of it has brought,
/// and `cut_off` whether nothing more of it can be read.
pub fn unless_cut_off<Meta, K: Key + ?Sized, V: Value>(
    processed: Result<Processed<Meta, K, V>, DataError>,
    cut_off: bool,
) -> (checked: Result<Processed<Meta, K, V>, DataError>)
    ensures
        checked == spec_unless_cut_off(processed, cut_off),
{
    match processed {
        Ok(Processed::Queued) => {
            if cut_off {
                Err(DataError::CutOff)
            } else {
                Ok(Processed::Queued)
            }
        },
        other => other,
    }
}

/// What `data` brings for an entry that is being worked on, and how it is queued if more is needed
/// and can be read.
pub open spec fn advances<'k, Meta, K: Key + ?Sized, V: Value>(
    map: MapModel,
    kind: PartialEntryKind,
    est: u64,
    entry: Entry<'k, Meta, K>,
    data: Seq<u8>,
    advanced: Result<Processed<Meta, K, V>, DataError>,
    queued: Option<Entry<'k, Meta, K>>,
) -> bool {
    if entry.state is ReadingEntry && data.len() == 0 && queued is Some {
        &&& advanced == Err::<Processed<Meta, K, V>, DataError>(DataError::CutOff)
        &&& processes(
            map,
            kind,
            est,
            entry,
            data,
            Ok::<Processed<Meta, K, V>, DataError>(Processed::Queued),
            queued,
        )
    } else {
        processes(map, kind, est, entry, data, advanced, queued)
    }
}

/// The entry that has been queued, if there is one.
pub open spec fn newly_queued<'k, Meta, K: Key + ?Sized>(
    before: Seq<Entry<'k, Meta, K>>,
    after: Seq<Entry<'k, Meta, K>>,
) -> Option<Entry<'k, Meta, K>> {
    if after.len() > before.len() {
        Some(after.last())
    } else {
        None
    }
}

/// The queue with what has been queued.
pub open spec fn queue_with<'k, Meta, K: Key + ?Sized>(
    queue: Seq<Entry<'k, Meta, K>>,
    queued: Option<Entry<'k, Meta, K>>,
) -> Seq<Entry<'k, Meta, K>> {
    match queued {
        Some(next) => queue.push(next),
        None => queue,
    }
}

/// The work on an entry that needs more bytes goes on before any other: what a read has queued is what
/// is scheduled next, for the same caller, and then the queue is as it was before that read.
pub proof fn law_queued_work_is_next<'k, Meta, K: Key + ?Sized, V: Value>(
    map: MapModel,
    kind: PartialEntryKind,
    est: u64,
    file_len: u64,
    entry: Entry<'k, Meta, K>,
    data: Seq<u8>,
    processed: Result<Processed<Meta, K, V>, DataError>,
    next: Entry<'k, Meta, K>,
    queue: Seq<Entry<'k, Meta, K>>,
    requests: Seq<(Meta, Request<'k, K>)>,
    refilled: Result<Refill<'k, Meta, K>, DataError>,
    queue_after: Seq<Entry<'k, Meta, K>>,
    requests_after: Seq<(Meta, Request<'k, K>)>,
)
    requires
        processes(map, kind, est, entry, data, processed, Some(next)),
        refills(
            map,
            est,
            file_len,
            queue_with(queue, Some(next)),
            requests,
            refilled,
            queue_after,
            requests_after,
        ),
    ensures
        refilled matches Ok(Refill::Schedule(scheduled, _)) && scheduled == next,
        next.meta == entry.meta,
        queue_after == queue,
        requests_after == requests,
{
    assert(queue.push(next).drop_last() == queue);
}

/// Requests are taken in their order, each once, when no other work is queued, and the work is done
/// just when nothing is queued and no request is left.
pub proof fn law_requests_are_taken_in_order<'k, Meta, K: Key + ?Sized>(
    map: MapModel,
    est: u64,
    file_len: u64,
    queue: Seq<Entry<'k, Meta, K>>,
    requests: Seq<(Meta, Request<'k, K>)>,
    refilled: Result<Refill<'k, Meta, K>, DataError>,
    queue_after: Seq<Entry<'k, Meta, K>>,
    requests_after: Seq<(Meta, Request<'k, K>)>,
)
    requires
        refills(map, est, file_len, queue, requests, refilled, queue_after, requests_after),
    ensures
        refilled matches Ok(Refill::Drained) <==> queue.len() == 0 && requests.len() == 0,
        queue.len() > 0 ==> requests_after == requests && queue_after.len() == queue.len() - 1,
        queue.len() == 0 && requests.len() > 0 ==> {
            &&& queue_after.len() == 0
            &&& seq![requests[0]] + requests_after == requests
            &&& refilled matches Ok(Refill::Schedule(scheduled, _)) ==> scheduled.meta
                == requests[0].0
            &&& refilled matches Ok(Refill::Missing(meta)) ==> meta == requests[0].0
        },
{
    if queue.len() == 0 && requests.len() > 0 {
        assert(seq![requests[0]] + requests.skip(1) == requests);
    }
}

/// Owns the queue of entries waiting for an I/O slot and exposes:
/// [`refill`](Self::refill) — produce the next entry to schedule —,
/// [`process`](Self::process) — consume a completed read —
/// and [`advance`](Self::advance) — the same, but an entry that the end of the file cuts off is an
/// error. The caller drives the reads.
pub struct SparsePipeline<'m, 'k, Meta, K: Key + ?Sized, V: Value> {
    pub map: &'m UniversalHashMap<K, V>,
    pub entry_kind: PartialEntryKind,
    /// Entries that are to be read, or read on.
    pub to_schedule: Vec<Entry<'k, Meta, K>>,
    pub entry_read_size_est: u64,
    pub file_len: u64,
}

impl<'m, 'k, Meta, K: Key + ?Sized, V: Value> SparsePipeline<'m, 'k, Meta, K, V> {
    /// Only entries whose position is known are queued.
    pub open spec fn wf(&self) -> bool {
        &&& self.map.wf()
        &&& self.entry_read_size_est == self.entry_kind.spec_est_size::<K, V>()
        &&& forall|i: int|
            0 <= i < self.to_schedule@.len() ==> #[trigger] self.to_schedule@[i].state
                is ReadingEntry
    }

    /// Whether the pipelines are the same, but for what is queued.
    pub open spec fn same_task(&self, other: &Self) -> bool {
        &&& self.map == other.map
        &&& self.entry_kind == other.entry_kind
        &&& self.entry_read_size_est == other.entry_read_size_est
        &&& self.file_len == other.file_len
    }

    /// A pipeline that reads entries of a map in a file of `file_len` bytes.
    pub fn new(map: &'m UniversalHashMap<K, V>, entry_kind: PartialEntryKind, file_len: u64) -> (
    pipeline: Self)
        requires
            map.wf(),
            entry_kind.spec_est_size::<K, V>() <= usize::MAX,
        ensures
            pipeline.wf(),
            pipeline.map == map,
            pipeline.entry_kind == entry_kind,
            pipeline.to_schedule@.len() == 0,
            pipeline.file_len == file_len,
    {
        let entry_read_size_est: u64 = entry_kind.est_size::<K, V>() as u64;
        SparsePipeline { map, entry_kind, to_schedule: Vec::new(), entry_read_size_est, file_len }
    }

    /// Produce the next entry to schedule. What was queued last comes first, then the first of
    /// `requests`.
    pub fn refill(&mut self, requests: &mut VecDeque<(Meta, Request<'k, K>)>) -> (refilled: Result<
        Refill<'k, Meta, K>,
        DataError,
    >)
        requires
            old(self).wf(),
            phf::usable_levels(old(self).map@.levels) || forall|i: int|
                0 <= i < old(requests)@.len() ==> (#[trigger] old(requests)@[i]).1 is Offset,
        ensures
            final(self).wf(),
            final(self).same_task(old(self)),
            refills(
                old(self).map@,
                old(self).entry_read_size_est,
                old(self).file_len,
                old(self).to_schedule@,
                old(requests)@,
                refilled,
                final(self).to_schedule@,
                final(requests)@,
            ),
    {
        if let Some(entry) = self.to_schedule.pop() {
            let range = match &entry.state {
                EntryState::ReadingOffset { .. } => {
                    assert(false);
                    ReadRange::new(0, 0)
                },
                EntryState::ReadingEntry { byte_offset, buf, expected_len, .. } => {
                    let len: u64 = buf.len() as u64;
                    ReadRange::new(
                        byte_offset.saturating_add(len),
                        expected_len.saturating_sub(len),
                    )
                },
            };
            assert(range == entry.state.next_range());
            return Ok(Refill::Schedule(entry, range.clamp(self.file_len)));
        }
        let ghost before = requests@;
        let (meta, request) = match requests.pop_front() {
            Some(request) => request,
            None => {
                return Ok(Refill::Drained);
            },
        };
        assert(requests@ == before.skip(1));
        match request {
            Request::Offset(offset) => {
                // The location is known.
                let start: u64 = self.map.entries_start();
                if offset > u64::MAX - start {
                    return Err(DataError::Position);
                }
                let byte_offset: u64 = start + offset;
                let state = EntryState::ReadingEntry {
                    byte_offset,
                    buf: AlignedBuf::for_entries(),
                    expected_len: self.entry_read_size_est,
                    requested_key: None,
                    parse_state: State::default(),
                };
                let range = ReadRange::new(byte_offset, self.entry_read_size_est);
                assert(state.is_start(byte_offset as int, self.entry_read_size_est, None));
                Ok(Refill::Schedule(Entry { meta, state }, range.clamp(self.file_len)))
            },
            Request::Key(requested_key) => {
                assert(before[0].1 == request);
                // PHF miss: no stored entry.
                let hash: u64 = match self.map.bucket(requested_key) {
                    Some(hash) => hash,
                    None => {
                        return Ok(Refill::Missing(meta));
                    },
                };
                // PHF hit: the bucket tells where the entry is.
                let start: u64 = self.map.buckets_pos();
                if hash > (u64::MAX - start) / file::BUCKET_OFFSET_SIZE {
                    return Err(DataError::Position);
                }
                let range = ReadRange::new(
                    start + hash * file::BUCKET_OFFSET_SIZE,
                    file::BUCKET_OFFSET_SIZE,
                );
                let state = EntryState::ReadingOffset { requested_key };
                Ok(Refill::Schedule(Entry { meta, state }, range.clamp(self.file_len)))
            },
        }
    }

    /// Process a completed read result. An entry of which nothing more can be read, though more is
    /// needed, is an error.
    pub fn advance(&mut self, entry: Entry<'k, Meta, K>, data: &[u8]) -> (advanced: Result<
        Processed<Meta, K, V>,
        DataError,
    >)
        requires
            old(self).wf(),
        ensures
            final(self).wf(),
            final(self).same_task(old(self)),
            ({
                let queued = newly_queued(old(self).to_schedule@, final(self).to_schedule@);
                &&& final(self).to_schedule@ == queue_with(old(self).to_schedule@, queued)
                &&& advances(
                    old(self).map@,
                    old(self).entry_kind,
                    old(self).entry_read_size_est,
                    entry,
                    data@,
                    advanced,
                    queued,
                )
            }),
    {
        let cut_off = entry.state.is_cut_off(data);
        let processed = self.process(entry, data);
        unless_cut_off(processed, cut_off)
    }

    /// Process a completed read result.
    pub fn process(&mut self, entry: Entry<'k, Meta, K>, data: &[u8]) -> (processed: Result<
        Processed<Meta, K, V>,
        DataError,
    >)
        requires
            old(self).wf(),
        ensures
            final(self).wf(),
            final(self).same_task(old(self)),
            ({
                let queued = newly_queued(old(self).to_schedule@, final(self).to_schedule@);
                &&& final(self).to_schedule@ == queue_with(old(self).to_schedule@, queued)
                &&& processes(
                    old(self).map@,
                    old(self).entry_kind,
                    old(self).entry_read_size_est,
                    entry,
                    data@,
                    processed,
                    queued,
                )
            }),
    {
        let Entry { meta, state } = entry;
        match state {
            EntryState::ReadingOffset { requested_key } => {
                // The bucket offset arrived: queue the entry.
                let offset: u64 = match file::parse_entry_offset(data) {
                    Ok(offset) => offset,
                    Err(error) => {
                        return Err(error);
                    },
                };
                let start: u64 = self.map.entries_start();
                if offset > u64::MAX - start {
                    return Err(DataError::Position);
                }
                let state = EntryState::ReadingEntry {
                    byte_offset: start + offset,
                    buf: AlignedBuf::for_entries(),
                    expected_len: self.entry_read_size_est,
                    requested_key: Some(requested_key),
                    parse_state: State::default(),
                };
                self.to_schedule.push(Entry { meta, state });
                Ok(Processed::Queued)
            },
            EntryState::ReadingEntry {
                byte_offset,
                buf: entry_buf,
                expected_len: _,
                requested_key,
                parse_state: known,
            } => {
                let mut buf = entry_buf;
                let mut parse_state = known;
                if data.len() > usize::MAX - buf.len() || !aligned::check_fits_buffer(
                    buf.len() + data.len(),
                ) {
                    return Err(DataError::TooLarge);
                }
                buf.extend(data);
                let addr: usize = buf.address();
                let bytes = buf.as_slice();
                proof {
                    lemma_aligned_address::<K, V>(addr as int);
                    state::law_only_alignment_matters::<K, V>(
                        known,
                        bytes@,
                        addr as int,
                        0,
                        self.entry_kind,
                    );
                }
                let parsed = parse_state.parse::<K, V>(bytes, addr, self.entry_kind);
                // Verify the requested key against the stored key as soon as
                // the key is parseable; bail early on mismatch.
                let mut unverified_key = requested_key;
                if let Some(requested) = requested_key {
                    if parse_state.key_size.is_some() {
                        let stored_key = match parse_state.read_key::<K>(bytes, addr) {
                            Ok(stored_key) => stored_key,
                            Err(_) => {
                                return Err(DataError::StoredKey);
                            },
                        };
                        if !requested.same_key(K::borrow(&stored_key)) {
                            return Ok(Processed::Deliver(meta, None));
                        }
                        unverified_key = None;
                    }
                }
                match parsed {
                    Ok((found, _)) => Ok(Processed::Deliver(meta, Some(found))),
                    Err(ReadError::Invalid) => Err(DataError::Entry),
                    // Need more bytes: requeue with a grown length.
                    Err(ReadError::Incomplete) => {
                        proof {
                            K::law_layout();
                        }
                        let power: u64 = exec_power_above(buf.len() as u64);
                        let est: u64 = K::VALUE_SIZE_EST as u64;
                        let state = EntryState::ReadingEntry {
                            byte_offset,
                            buf,
                            expected_len: if power < est {
                                est
                            } else {
                                power
                            },
                            requested_key: unverified_key,
                            parse_state,
                        };
                        self.to_schedule.push(Entry { meta, state });
                        Ok(Processed::Queued)
                    },
                }
            },
        }
    }
}

} // verus!
