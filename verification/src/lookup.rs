//! What comes of looking up an entry, by what the file holds and by what reads of it give.

use crate::align;
use crate::aligned;
use crate::entry;
use crate::file;
use crate::file::{DataError, MapError, ReadRange};
use crate::keys::{Key, ReadError};
use crate::native;
use crate::phf;
use crate::record;
use crate::record::{ReadCall, Recorded};
use crate::sparse;
use crate::sparse::{Entry, EntryState, Outcome, Processed, Refill, Request};
use crate::state;
use crate::state::{PartialEntry, PartialEntryKind, PartialModel, State, StoredEntry};
use crate::universal_hashmap;
use crate::universal_hashmap::{MapModel, UniversalHashMap};
use crate::values;
use crate::values::Value;
use vstd::prelude::*;

verus! {

/// The bytes of `file` from `byte_offset` on.
pub open spec fn file_from(file: Seq<u8>, byte_offset: int) -> Seq<u8> {
    if byte_offset <= file.len() {
        file.skip(byte_offset)
    } else {
        Seq::empty()
    }
}

/// What `file` tells of the entry at `byte_offset`, where its key is to have the encoding
/// `requested`.
pub open spec fn entry_answer<K: Key + ?Sized, V: Value>(
    file: Seq<u8>,
    byte_offset: int,
    requested: Option<Seq<u8>>,
    kind: PartialEntryKind,
) -> Outcome<V> {
    sparse::entry_outcome::<K, V>(State::fresh(), file_from(file, byte_offset), requested, kind)
}

/// What `file` tells of the request. Where it asks for more bytes than there are, the entry is cut
/// off by the end of the file.
pub open spec fn request_answer<'k, K: Key + ?Sized, V: Value>(
    map: MapModel,
    file: Seq<u8>,
    request: Request<'k, K>,
    kind: PartialEntryKind,
) -> Outcome<V> {
    match request {
        Request::Offset(offset) => if map.entries_start + offset > u64::MAX {
            Outcome::Damaged(DataError::Position)
        } else {
            entry_answer::<K, V>(file, map.entries_start + offset, None, kind)
        },
        Request::Key(key) => match key.slot(map.levels, map.words) {
            None => Outcome::Absent,
            Some(hash) => {
                let bucket = map.buckets_pos + hash * file::BUCKET_OFFSET_SIZE;
                if bucket > u64::MAX {
                    Outcome::Damaged(DataError::Position)
                } else if bucket + file::BUCKET_OFFSET_SIZE > file.len() {
                    Outcome::Damaged(DataError::BucketOffset)
                } else {
                    let offset = file::bucket_offset(
                        file.subrange(bucket, bucket + file::BUCKET_OFFSET_SIZE),
                    );
                    if map.entries_start + offset > u64::MAX {
                        Outcome::Damaged(DataError::Position)
                    } else {
                        entry_answer::<K, V>(
                            file,
                            map.entries_start + offset,
                            Some(key.encoding()),
                            kind,
                        )
                    }
                }
            },
        },
    }
}

/// The first bytes of an entry tell nothing but what all of them tell, if they tell anything.
pub proof fn law_first_bytes_tell_the_truth<K: Key + ?Sized, V: Value>(
    state: State,
    buf: Seq<u8>,
    more: Seq<u8>,
    requested: Option<Seq<u8>>,
    kind: PartialEntryKind,
)
    requires
        state.knows::<K>(buf, 0),
        buf.len() <= usize::MAX,
    ensures
        ({
            let outcome = sparse::entry_outcome::<K, V>(state, buf, requested, kind);
            outcome is More || outcome == sparse::entry_outcome::<K, V>(
                State::fresh(),
                buf + more,
                requested,
                kind,
            )
        }),
        sparse::entry_outcome::<K, V>(state, buf, requested, kind) == sparse::entry_outcome::<K, V>(
            State::fresh(),
            buf,
            requested,
            kind,
        ),
{
    let start = state::key_start::<K>(0);
    K::law_layout();
    align::law_padding_aligns(0, K::spec_align());
    state::law_resumed_parse_is_fresh::<K, V>(state, buf, 0, kind);
    state::law_resumed_parse_is_fresh::<K, V>(State::fresh(), buf, 0, kind);
    if start <= buf.len() {
        assert((buf + more).skip(start) == buf.skip(start) + more);
        K::law_found_in_bounds(buf.skip(start), start, 0);
        match State::fresh().key_search::<K>(buf, 0) {
            Err(ReadError::Incomplete) => {},
            Err(ReadError::Invalid) => {
                K::law_more_bytes_change_nothing(buf.skip(start), more, start, 0);
            },
            Ok(size) => {
                K::law_more_bytes_change_nothing(buf.skip(start), more, start, 0);
                state::lemma_key_in_stays::<K>(buf, more, 0, size);
                if state.parsed::<K, V>(buf, 0, kind) != Err::<(PartialModel<V>, int), ReadError>(
                    ReadError::Incomplete,
                ) {
                    state::law_more_bytes_keep_parse::<K, V>(buf, more, 0, kind);
                }
            },
        }
    }
}

/// The encoding that the key of the wanted entry is to have.
pub open spec fn request_encoding<'k, K: Key + ?Sized>(request: Request<'k, K>) -> Option<Seq<u8>> {
    match request {
        Request::Offset(_) => None,
        Request::Key(key) => Some(key.encoding()),
    }
}

/// What a caller is told.
pub open spec fn told<V>(outcome: Outcome<V>) -> Result<Option<PartialModel<V>>, DataError> {
    match outcome {
        Outcome::Found(model) => Ok(Some(model)),
        Outcome::Absent => Ok(None),
        Outcome::Damaged(error) => Err(error),
        Outcome::More => Err(DataError::CutOff),
    }
}

/// The entry as mathematical values.
pub open spec fn model_of<K: Key + ?Sized, V: Value>(entry: Option<PartialEntry<K, V>>) -> Option<
    PartialModel<V>,
> {
    match entry {
        Some(entry) => Some(entry.model()),
        None => None,
    }
}

/// How far the lookup of an entry has come.
#[allow(inconsistent_fields)]
pub enum Lookup<V> {
    /// The range of the bucket is read next. The key is to have the encoding `requested`.
    Bucket { range: ReadRange, requested: Seq<u8> },
    /// More of the entry at `byte_offset` is read next. Of it there is `buf`, of which `known` is
    /// known, and if its key is still to be compared, it is to have the encoding `requested`.
    Bytes {
        byte_offset: u64,
        buf: Seq<u8>,
        expected_len: u64,
        requested: Option<Seq<u8>>,
        known: State,
    },
    /// Nothing is read any more.
    Told(Result<Option<PartialModel<V>>, DataError>),
}

impl<V> Lookup<V> {
    /// The range that is read next, of a file of `file_len` bytes.
    pub open spec fn range(self, file_len: u64) -> ReadRange
        recommends
            !(self is Told),
    {
        match self {
            Lookup::Bucket { range, .. } => range.clamped(file_len),
            Lookup::Bytes { byte_offset, buf, expected_len, .. } => sparse::missing_range(
                byte_offset,
                buf.len(),
                expected_len,
            ).clamped(file_len),
            Lookup::Told(_) => ReadRange { byte_offset: file_len, length: 0 },
        }
    }
}

/// The range of a bucket.
pub open spec fn bucket_read(map: MapModel, hash: u64) -> ReadRange {
    ReadRange {
        byte_offset: (map.buckets_pos + hash * file::BUCKET_OFFSET_SIZE) as u64,
        length: file::BUCKET_OFFSET_SIZE,
    }
}

/// The lookup of an entry of which nothing has been read.
pub open spec fn entry_lookup<K: Key + ?Sized, V: Value>(
    byte_offset: int,
    requested: Option<Seq<u8>>,
    kind: PartialEntryKind,
) -> Lookup<V> {
    if byte_offset > u64::MAX {
        Lookup::Told(Err(DataError::Position))
    } else {
        Lookup::Bytes {
            byte_offset: byte_offset as u64,
            buf: Seq::empty(),
            expected_len: kind.spec_est_size::<K, V>() as u64,
            requested,
            known: State::fresh(),
        }
    }
}

/// How a lookup starts: with the entry itself where its position is known, and with the bucket of
/// the key otherwise. A key without a bucket is not stored.
pub open spec fn first_lookup<'k, K: Key + ?Sized, V: Value>(
    map: MapModel,
    request: Request<'k, K>,
    kind: PartialEntryKind,
) -> Lookup<V> {
    match request {
        Request::Offset(offset) => entry_lookup::<K, V>(map.entries_start + offset, None, kind),
        Request::Key(key) => match key.slot(map.levels, map.words) {
            None => Lookup::Told(Ok(None)),
            Some(hash) => if map.buckets_pos + hash * file::BUCKET_OFFSET_SIZE > u64::MAX {
                Lookup::Told(Err(DataError::Position))
            } else {
                Lookup::Bucket { range: bucket_read(map, hash), requested: key.encoding() }
            },
        },
    }
}

/// How a lookup goes on when `data` has been read.
pub open spec fn next_lookup<K: Key + ?Sized, V: Value>(
    map: MapModel,
    kind: PartialEntryKind,
    lookup: Lookup<V>,
    data: Seq<u8>,
) -> Lookup<V> {
    match lookup {
        Lookup::Bucket { requested, .. } => if data.len() != file::BUCKET_OFFSET_SIZE {
            Lookup::Told(Err(DataError::BucketOffset))
        } else {
            entry_lookup::<K, V>(
                map.entries_start + file::bucket_offset(data),
                Some(requested),
                kind,
            )
        },
        Lookup::Bytes { byte_offset, buf, requested, known, .. } => {
            let bytes = buf + data;
            let outcome = sparse::entry_outcome::<K, V>(known, bytes, requested, kind);
            let searched = known.searched::<K>(bytes, 0);
            if !aligned::fits_buffer(bytes.len() as int) {
                Lookup::Told(Err(DataError::TooLarge))
            } else if outcome is More && data.len() > 0 {
                Lookup::Bytes {
                    byte_offset,
                    buf: bytes,
                    expected_len: sparse::grown_len::<K>(bytes.len()) as u64,
                    requested: if searched.key_size is Some {
                        None
                    } else {
                        requested
                    },
                    known: searched,
                }
            } else {
                Lookup::Told(told(outcome))
            }
        },
        Lookup::Told(_) => lookup,
    }
}

/// How far a lookup has come when these are the replies to its reads.
pub open spec fn lookup_after<'k, K: Key + ?Sized, V: Value>(
    map: MapModel,
    request: Request<'k, K>,
    kind: PartialEntryKind,
    replies: Seq<Seq<u8>>,
) -> Lookup<V>
    decreases replies.len(),
{
    if replies.len() == 0 {
        first_lookup::<K, V>(map, request, kind)
    } else {
        let before = lookup_after::<K, V>(map, request, kind, replies.drop_last());
        next_lookup::<K, V>(map, kind, before, replies.last())
    }
}

/// Whether `replies[i]` is what `read` gives for the range that a lookup asks for when it has the
/// replies in front of it.
pub open spec fn is_reply<
    'k,
    E,
    R: FnMut(ReadRange) -> Result<Vec<u8>, E>,
    K: Key + ?Sized,
    V: Value,
>(
    map: MapModel,
    request: Request<'k, K>,
    kind: PartialEntryKind,
    file_len: u64,
    read: R,
    replies: Seq<Seq<u8>>,
    i: int,
) -> bool {
    let before = lookup_after::<K, V>(map, request, kind, replies.take(i));
    &&& !(before is Told)
    &&& file::read_gives::<E, R>(read, before.range(file_len), replies[i])
}

/// Whether `replies` are what `read` gives for the ranges that a lookup asks for, one after the
/// other.
pub open spec fn follows_lookup<
    'k,
    E,
    R: FnMut(ReadRange) -> Result<Vec<u8>, E>,
    K: Key + ?Sized,
    V: Value,
>(
    map: MapModel,
    request: Request<'k, K>,
    kind: PartialEntryKind,
    file_len: u64,
    read: R,
    replies: Seq<Seq<u8>>,
) -> bool {
    forall|i: int|
        0 <= i < replies.len() ==> #[trigger] is_reply::<E, R, K, V>(
            map,
            request,
            kind,
            file_len,
            read,
            replies,
            i,
        )
}

/// Whether `read` may be called on each range that a lookup can ask for. It is called on no other.
pub open spec fn allows_lookup<
    'k,
    E,
    R: FnMut(ReadRange) -> Result<Vec<u8>, E>,
    K: Key + ?Sized,
    V: Value,
>(
    map: MapModel,
    request: Request<'k, K>,
    kind: PartialEntryKind,
    file_len: u64,
    read: R,
) -> bool {
    forall|replies: Seq<Seq<u8>>| #[trigger]
        follows_lookup::<E, R, K, V>(map, request, kind, file_len, read, replies) ==> {
            let lookup = lookup_after::<K, V>(map, request, kind, replies);
            lookup is Told || call_requires(read, (lookup.range(file_len),))
        }
}

/// Whether `read` [`allows_lookup`]. [`law_function_may_read`] shows it.
pub closed spec fn may_look_up<
    'k,
    E,
    R: FnMut(ReadRange) -> Result<Vec<u8>, E>,
    K: Key + ?Sized,
    V: Value,
>(
    map: MapModel,
    request: Request<'k, K>,
    kind: PartialEntryKind,
    file_len: u64,
    read: R,
) -> bool {
    allows_lookup::<E, R, K, V>(map, request, kind, file_len, read)
}

/// Whether a lookup may be made with `read`: it may be called on every range, or on each that the
/// lookup can ask for.
pub open spec fn may_read<
    'k,
    E,
    R: FnMut(ReadRange) -> Result<Vec<u8>, E>,
    K: Key + ?Sized,
    V: Value,
>(
    map: MapModel,
    request: Request<'k, K>,
    kind: PartialEntryKind,
    file_len: u64,
    read: R,
) -> bool {
    ||| file::reads_all::<E, R>(read)
    ||| may_look_up::<E, R, K, V>(map, request, kind, file_len, read)
}

/// A function that allows all reads of a lookup may be used for it.
pub proof fn law_function_may_read<
    'k,
    E,
    R: FnMut(ReadRange) -> Result<Vec<u8>, E>,
    K: Key + ?Sized,
    V: Value,
>(
    map: MapModel,
    request: Request<'k, K>,
    kind: PartialEntryKind,
    file_len: u64,
    read: R,
)
    requires
        allows_lookup::<E, R, K, V>(map, request, kind, file_len, read),
    ensures
        may_read::<E, R, K, V>(map, request, kind, file_len, read),
{
}

/// All reads of a lookup that has these replies and ends with `answer`: one for each range that it
/// asks for, in that order. A read that fails is the last.
pub open spec fn lookup_reads<'k, E, K: Key + ?Sized, V: Value>(
    map: MapModel,
    request: Request<'k, K>,
    kind: PartialEntryKind,
    file_len: u64,
    replies: Seq<Seq<u8>>,
    answer: Result<Option<PartialModel<V>>, MapError<E>>,
) -> Seq<ReadCall<E>> {
    let given = Seq::new(
        replies.len(),
        |i: int|
            ReadCall {
                range: lookup_after::<K, V>(map, request, kind, replies.take(i)).range(file_len),
                reply: Ok::<Seq<u8>, E>(replies[i]),
            },
    );
    match answer {
        Err(MapError::Caller(error)) => given.push(
            ReadCall {
                range: lookup_after::<K, V>(map, request, kind, replies).range(file_len),
                reply: Err(error),
            },
        ),
        _ => given,
    }
}

/// Whether `answer` is what comes of a lookup, and `reads` are all reads that it made.
pub open spec fn lookup_is_logged<
    'k,
    E,
    R: FnMut(ReadRange) -> Result<Vec<u8>, E>,
    K: Key + ?Sized,
    V: Value,
>(
    map: MapModel,
    request: Request<'k, K>,
    kind: PartialEntryKind,
    file_len: u64,
    read: R,
    reads: Seq<ReadCall<E>>,
    answer: Result<Option<PartialModel<V>>, MapError<E>>,
) -> bool {
    exists|replies: Seq<Seq<u8>>| #[trigger]
        follows_lookup::<E, R, K, V>(map, request, kind, file_len, read, replies) && ends_lookup::<
            E,
            R,
            V,
        >(lookup_after::<K, V>(map, request, kind, replies), file_len, read, answer) && reads
            == lookup_reads::<E, K, V>(map, request, kind, file_len, replies, answer)
}

/// A read that fails ends the lookup with its error, and nothing is read behind it. A lookup that ends
/// with the error of a caller ends so by its last read.
pub proof fn law_failing_read_is_last<
    'k,
    E,
    R: FnMut(ReadRange) -> Result<Vec<u8>, E>,
    K: Key + ?Sized,
    V: Value,
>(
    map: MapModel,
    request: Request<'k, K>,
    kind: PartialEntryKind,
    file_len: u64,
    read: R,
    reads: Seq<ReadCall<E>>,
    answer: Result<Option<PartialModel<V>>, MapError<E>>,
)
    requires
        lookup_is_logged::<E, R, K, V>(map, request, kind, file_len, read, reads, answer),
    ensures
        forall|i: int|
            0 <= i < reads.len() ==> ((#[trigger] reads[i]).reply matches Err(error) ==> i
                == reads.len() - 1 && answer == Err::<Option<PartialModel<V>>, MapError<E>>(
                MapError::Caller(error),
            )),
        answer matches Err(MapError::Caller(error)) ==> reads.len() > 0 && reads.last().reply
            == Err::<Seq<u8>, E>(error),
{
}

/// With one reply more, a lookup has made one read more.
pub(crate) proof fn lemma_lookup_reads_go_on<'k, E, K: Key + ?Sized, V: Value>(
    map: MapModel,
    request: Request<'k, K>,
    kind: PartialEntryKind,
    file_len: u64,
    replies: Seq<Seq<u8>>,
    data: Seq<u8>,
)
    ensures
        lookup_reads::<E, K, V>(map, request, kind, file_len, replies.push(data), Ok(None))
            == lookup_reads::<E, K, V>(map, request, kind, file_len, replies, Ok(None)).push(
            ReadCall {
                range: lookup_after::<K, V>(map, request, kind, replies).range(file_len),
                reply: Ok(data),
            },
        ),
{
    let all = replies.push(data);
    assert(all.take(replies.len() as int) == replies);
    assert forall|i: int| 0 <= i < replies.len() implies all.take(i) == replies.take(i) by {
        assert(all.take(i) == replies.take(i));
    }
    assert(lookup_reads::<E, K, V>(map, request, kind, file_len, all, Ok(None)) == lookup_reads::<
        E,
        K,
        V,
    >(map, request, kind, file_len, replies, Ok(None)).push(
        ReadCall {
            range: lookup_after::<K, V>(map, request, kind, replies).range(file_len),
            reply: Ok(data),
        },
    ));
}

/// A lookup that ends with `answer` has made its reads, which are put behind the log there was.
pub(crate) proof fn lemma_lookup_is_logged<
    'k,
    E,
    R: FnMut(ReadRange) -> Result<Vec<u8>, E>,
    K: Key + ?Sized,
    V: Value,
>(
    map: MapModel,
    request: Request<'k, K>,
    kind: PartialEntryKind,
    file_len: u64,
    read: R,
    replies: Seq<Seq<u8>>,
    answer: Result<Option<PartialModel<V>>, MapError<E>>,
    before: Seq<ReadCall<E>>,
    log: Seq<ReadCall<E>>,
)
    requires
        follows_lookup::<E, R, K, V>(map, request, kind, file_len, read, replies),
        ends_lookup::<E, R, V>(
            lookup_after::<K, V>(map, request, kind, replies),
            file_len,
            read,
            answer,
        ),
        ({
            let made = lookup_reads::<E, K, V>(map, request, kind, file_len, replies, Ok(None));
            match answer {
                Err(MapError::Caller(error)) => log == (before + made).push(
                    ReadCall {
                        range: lookup_after::<K, V>(map, request, kind, replies).range(file_len),
                        reply: Err(error),
                    },
                ),
                _ => log == before + made,
            }
        }),
    ensures
        record::goes_on(before, log),
        lookup_is_logged::<E, R, K, V>(
            map,
            request,
            kind,
            file_len,
            read,
            record::since(before, log),
            answer,
        ),
{
    let made = lookup_reads::<E, K, V>(map, request, kind, file_len, replies, answer);
    assert(log == before + made);
    record::lemma_log_is_extended(before, made);
}

impl<K: Key + ?Sized, V: Value> UniversalHashMap<K, V> {
    /// Reads what is wanted of one entry, with a function that has not been called yet.
    pub(crate) fn answer_once<'k, E, R: FnMut(ReadRange) -> Result<Vec<u8>, E>>(
        &self,
        entry_kind: PartialEntryKind,
        file_len: u64,
        request: Request<'k, K>,
        read: &mut Recorded<R, ReadCall<E>>,
    ) -> (answer: Result<Option<PartialEntry<K, V>>, MapError<E>>)
        requires
            self.wf(),
            entry_kind.spec_est_size::<K, V>() <= usize::MAX,
            request is Offset || phf::usable_levels(self@.levels),
            old(read).wf(),
            old(read).log().len() == 0,
            may_read::<E, R, K, V>(
                self@,
                request,
                entry_kind,
                file_len,
                old(read).function(),
            ),
        ensures
            final(read).wf(),
            final(read).function() == old(read).function(),
            answer matches Ok(Some(entry)) ==> entry.model().is_of(entry_kind),
            request is Offset ==> answer != Ok::<Option<PartialEntry<K, V>>, MapError<E>>(None),
            looked_up::<E, R, K, V>(
                self@,
                request,
                entry_kind,
                file_len,
                old(read).function(),
                universal_hashmap::answer_model(answer),
            ),
            lookup_is_logged::<E, R, K, V>(
                self@,
                request,
                entry_kind,
                file_len,
                old(read).function(),
                final(read).log(),
                universal_hashmap::answer_model(answer),
            ),
    {
        let ghost before = read.log();
        let answer = self.answer(entry_kind, file_len, request, read);
        assert(record::since(before, read.log()) == read.log());
        answer
    }
}

/// Whether a lookup that has come so far ends with `answer`: it has come to it, or its next read
/// fails.
pub open spec fn ends_lookup<E, R: FnMut(ReadRange) -> Result<Vec<u8>, E>, V>(
    lookup: Lookup<V>,
    file_len: u64,
    read: R,
    answer: Result<Option<PartialModel<V>>, MapError<E>>,
) -> bool {
    match answer {
        Ok(found) => lookup == Lookup::Told(Ok(found)),
        Err(MapError::Data(error)) => lookup == Lookup::<V>::Told(Err(error)),
        Err(MapError::Caller(error)) => !(lookup is Told) && file::read_fails::<E, R>(
            read,
            lookup.range(file_len),
            error,
        ),
    }
}

/// Whether `answer` is what comes of a lookup: what the replies to its reads tell, or the error of
/// the first of its reads that fails.
pub open spec fn looked_up<
    'k,
    E,
    R: FnMut(ReadRange) -> Result<Vec<u8>, E>,
    K: Key + ?Sized,
    V: Value,
>(
    map: MapModel,
    request: Request<'k, K>,
    kind: PartialEntryKind,
    file_len: u64,
    read: R,
    answer: Result<Option<PartialModel<V>>, MapError<E>>,
) -> bool {
    exists|replies: Seq<Seq<u8>>| #[trigger]
        follows_lookup::<E, R, K, V>(map, request, kind, file_len, read, replies) && ends_lookup::<
            E,
            R,
            V,
        >(lookup_after::<K, V>(map, request, kind, replies), file_len, read, answer)
}

/// Where no read decides, none is made: what a lookup starts with is what comes of it.
pub proof fn law_lookup_without_reads<
    'k,
    E,
    R: FnMut(ReadRange) -> Result<Vec<u8>, E>,
    K: Key + ?Sized,
    V: Value,
>(
    map: MapModel,
    request: Request<'k, K>,
    kind: PartialEntryKind,
    file_len: u64,
    read: R,
    answer: Result<Option<PartialModel<V>>, MapError<E>>,
)
    requires
        looked_up::<E, R, K, V>(map, request, kind, file_len, read, answer),
        first_lookup::<K, V>(map, request, kind) is Told,
    ensures
        answer == file::by_data::<Option<PartialModel<V>>, E>(
            first_lookup::<K, V>(map, request, kind)->Told_0,
        ),
{
    let replies = choose|replies: Seq<Seq<u8>>| #[trigger]
        follows_lookup::<E, R, K, V>(map, request, kind, file_len, read, replies) && ends_lookup::<
            E,
            R,
            V,
        >(lookup_after::<K, V>(map, request, kind, replies), file_len, read, answer);
    if replies.len() > 0 {
        assert(is_reply::<E, R, K, V>(map, request, kind, file_len, read, replies, 0));
    }
}

/// A lookup fails with an error of its reads only if one of them fails with it.
pub proof fn law_lookup_fails_by_read<
    'k,
    E,
    R: FnMut(ReadRange) -> Result<Vec<u8>, E>,
    K: Key + ?Sized,
    V: Value,
>(
    map: MapModel,
    request: Request<'k, K>,
    kind: PartialEntryKind,
    file_len: u64,
    read: R,
    answer: Result<Option<PartialModel<V>>, MapError<E>>,
)
    requires
        looked_up::<E, R, K, V>(map, request, kind, file_len, read, answer),
        file::never_fails::<E, R>(read),
    ensures
        !(answer matches Err(MapError::Caller(_))),
{
}

/// A lookup goes on with the reply to its next read.
pub proof fn law_lookup_goes_on<
    'k,
    E,
    R: FnMut(ReadRange) -> Result<Vec<u8>, E>,
    K: Key + ?Sized,
    V: Value,
>(
    map: MapModel,
    request: Request<'k, K>,
    kind: PartialEntryKind,
    file_len: u64,
    read: R,
    replies: Seq<Seq<u8>>,
    data: Seq<u8>,
)
    requires
        follows_lookup::<E, R, K, V>(map, request, kind, file_len, read, replies),
        ({
            let before = lookup_after::<K, V>(map, request, kind, replies);
            !(before is Told) && file::read_gives::<E, R>(read, before.range(file_len), data)
        }),
    ensures
        follows_lookup::<E, R, K, V>(map, request, kind, file_len, read, replies.push(data)),
        lookup_after::<K, V>(map, request, kind, replies.push(data)) == next_lookup::<K, V>(
            map,
            kind,
            lookup_after::<K, V>(map, request, kind, replies),
            data,
        ),
{
    let all = replies.push(data);
    assert(all.drop_last() == replies);
    assert forall|i: int| 0 <= i < all.len() implies #[trigger] is_reply::<E, R, K, V>(
        map,
        request,
        kind,
        file_len,
        read,
        all,
        i,
    ) by {
        assert(all.take(i) == replies.take(i));
        if i < replies.len() {
            assert(is_reply::<E, R, K, V>(map, request, kind, file_len, read, replies, i));
        } else {
            assert(replies.take(i) == replies);
        }
    }
}

/// How far the work on an entry has come.
pub open spec fn lookup_of<'k, K: Key + ?Sized, V: Value>(
    map: MapModel,
    state: EntryState<'k, K>,
) -> Lookup<V> {
    match state {
        EntryState::ReadingOffset { requested_key } => Lookup::Bucket {
            range: bucket_read(map, requested_key.slot(map.levels, map.words)->0),
            requested: requested_key.encoding(),
        },
        EntryState::ReadingEntry {
            byte_offset,
            buf,
            expected_len,
            requested_key,
            parse_state,
        } => Lookup::Bytes {
            byte_offset,
            buf: buf@,
            expected_len,
            requested: sparse::requested_encoding(requested_key),
            known: parse_state,
        },
    }
}

/// The work on a request starts as its lookup does, whatever else is worked on: what is read first is
/// what its lookup reads first.
pub proof fn law_request_starts_as_lookup<'k, Meta, K: Key + ?Sized, V: Value>(
    map: MapModel,
    request: (Meta, Request<'k, K>),
    kind: PartialEntryKind,
    file_len: u64,
    refilled: Result<Refill<'k, Meta, K>, DataError>,
)
    requires
        sparse::started(map, kind.spec_est_size::<K, V>() as u64, file_len, request, refilled),
    ensures
        ({
            let first = first_lookup::<K, V>(map, request.1, kind);
            match refilled {
                Err(error) => first == Lookup::<V>::Told(Err(error)),
                Ok(Refill::Missing(_)) => first == Lookup::<V>::Told(Ok(None)),
                Ok(Refill::Drained) => false,
                Ok(Refill::Schedule(entry, range)) => {
                    &&& first == lookup_of::<K, V>(map, entry.state)
                    &&& range == first.range(file_len)
                },
            }
        }),
{
}

/// The work on an entry goes on as its lookup does, whatever else is worked on.
pub proof fn law_work_goes_on_as_lookup<'k, Meta, K: Key + ?Sized, V: Value>(
    map: MapModel,
    kind: PartialEntryKind,
    entry: Entry<'k, Meta, K>,
    data: Seq<u8>,
    advanced: Result<Processed<Meta, K, V>, DataError>,
    queued: Option<Entry<'k, Meta, K>>,
)
    requires
        sparse::advances(
            map,
            kind,
            kind.spec_est_size::<K, V>() as u64,
            entry,
            data,
            advanced,
            queued,
        ),
    ensures
        ({
            let next = next_lookup::<K, V>(map, kind, lookup_of(map, entry.state), data);
            match advanced {
                Ok(Processed::Deliver(_, found)) => next == Lookup::<V>::Told(Ok(model_of(found))),
                Err(error) => next == Lookup::<V>::Told(Err(error)),
                Ok(Processed::Queued) => queued matches Some(queued) && next == lookup_of::<K, V>(
                    map,
                    queued.state,
                ),
            }
        }),
{
}

/// What is found is what was wanted.
pub(crate) proof fn lemma_found_is_wanted<K: Key + ?Sized, V: Value>(
    state: State,
    buf: Seq<u8>,
    requested: Option<Seq<u8>>,
    kind: PartialEntryKind,
)
    ensures
        sparse::entry_outcome::<K, V>(state, buf, requested, kind) matches Outcome::Found(model)
            ==> model.is_of(kind),
{
}

/// The encoding of the key that `bytes` start with, if it is complete.
pub open spec fn complete_key<K: Key + ?Sized>(bytes: Seq<u8>) -> Option<Seq<u8>> {
    let start = state::key_start::<K>(0);
    match State::fresh().key_search::<K>(bytes, 0) {
        Ok(size) => Some(bytes.subrange(start, start + size)),
        Err(_) => None,
    }
}

/// What a read of an entry brings depends on its key: a request for a key is answered with nothing
/// just where another key is complete, what it is answered with has the key that was requested, and
/// the key is compared no more once it is complete.
pub proof fn law_only_requested_key_is_delivered<'k, Meta, K: Key + ?Sized, V: Value>(
    map: MapModel,
    kind: PartialEntryKind,
    est: u64,
    entry: Entry<'k, Meta, K>,
    data: Seq<u8>,
    processed: Result<Processed<Meta, K, V>, DataError>,
    queued: Option<Entry<'k, Meta, K>>,
)
    requires
        entry.state is ReadingEntry,
        entry.state->parse_state.knows::<K>(entry.state->buf@, 0),
        aligned::fits_buffer((entry.state->buf@ + data).len() as int),
        sparse::processes(map, kind, est, entry, data, processed, queued),
    ensures
        ({
            let requested = entry.state->ReadingEntry_requested_key;
            let stored = complete_key::<K>(entry.state->buf@ + data);
            &&& (processed matches Ok(Processed::Deliver(_, None))) == (stored is Some && requested
                is Some && stored != sparse::requested_encoding(requested))
            &&& processed matches Ok(Processed::Deliver(_, Some(found))) ==> requested matches Some(
                key,
            ) ==> found.model().key() == key.encoding()
            &&& processed matches Ok(Processed::Queued) ==> queued matches Some(next)
                && next.state->ReadingEntry_requested_key == (if stored is Some {
                None
            } else {
                requested
            })
        }),
{
    let bytes = entry.state->buf@ + data;
    let known = entry.state->parse_state;
    state::law_state_stays_true::<K>(known, entry.state->buf@, data, 0);
    state::law_resumed_parse_is_fresh::<K, V>(known, bytes, 0, kind);
    state::law_found_key_is_read::<K>(bytes, 0);
    K::law_layout();
    align::law_padding_aligns(0, K::spec_align());
    let start = state::key_start::<K>(0);
    K::law_found_in_bounds(bytes.skip(start), start, 0);
}

/// Whether what is known of the entry at `byte_offset`, whose key is to have the encoding
/// `requested`, is true of `file`.
pub open spec fn is_true_of<K: Key + ?Sized, V: Value>(
    lookup: Lookup<V>,
    file: Seq<u8>,
    byte_offset: int,
    requested: Option<Seq<u8>>,
) -> bool {
    let known = lookup->known;
    let buf = lookup->buf;
    &&& lookup is Bytes
    &&& lookup->byte_offset == byte_offset
    &&& buf.len() < lookup->expected_len
    &&& buf.len() <= usize::MAX
    &&& buf.is_prefix_of(file_from(file, byte_offset))
    &&& known.knows::<K>(buf, 0)
    &&& match lookup->Bytes_requested {
        Some(left) => requested == Some(left),
        None => requested matches Some(requested) ==> known.key_size is Some && state::key_in::<K>(
            buf,
            0,
            known.key_size->0 as nat,
        ) == Ok::<Seq<u8>, ReadError>(requested),
    }
}

/// A read of the range that was asked for brings the truth nearer: what comes of it is what `file`
/// tells, or what is known stays true of `file` and more is asked for. What memory cannot hold is
/// not read.
pub proof fn law_read_brings_truth<K: Key + ?Sized, V: Value>(
    map: MapModel,
    lookup: Lookup<V>,
    file: Seq<u8>,
    byte_offset: int,
    requested: Option<Seq<u8>>,
    kind: PartialEntryKind,
)
    requires
        is_true_of::<K, V>(lookup, file, byte_offset, requested),
        file.len() <= u64::MAX,
    ensures
        ({
            let data = lookup.range(file.len() as u64).of(file);
            let next = next_lookup::<K, V>(map, kind, lookup, data);
            match next {
                Lookup::Told(answer) => answer == told(
                    entry_answer::<K, V>(file, byte_offset, requested, kind),
                ) || answer == Err::<Option<PartialModel<V>>, DataError>(DataError::TooLarge)
                    && !aligned::fits_buffer(file.len() as int),
                _ => is_true_of::<K, V>(next, file, byte_offset, requested),
            }
        }),
{
    let whole = file_from(file, byte_offset);
    let buf = lookup->buf;
    let range = sparse::missing_range(lookup->byte_offset, buf.len(), lookup->expected_len);
    let data = range.of(file);
    file::law_clamped_range(range, file, file.len() as u64);
    let bytes = buf + data;
    let known = lookup->known;
    let left = lookup->Bytes_requested;
    assert(buf == whole.take(buf.len() as int));
    assert(bytes == whole.take(bytes.len() as int)) by {
        if data.len() > 0 {
            assert forall|i: int| 0 <= i < bytes.len() implies bytes[i] == whole[i] by {
                if i < buf.len() {
                    assert(buf[i] == whole.take(buf.len() as int)[i]);
                }
            }
        } else {
            assert(bytes == buf);
        }
    }
    if aligned::fits_buffer(bytes.len() as int) {
        let rest = whole.skip(bytes.len() as int);
        assert(bytes + rest == whole);
        state::law_state_stays_true::<K>(known, buf, data, 0);
        if left is None && requested is Some {
            let start = state::key_start::<K>(0);
            let size = known.key_size->0 as nat;
            K::law_layout();
            align::law_padding_aligns(0, K::spec_align());
            K::law_found_in_bounds(buf.skip(start), start, 0);
            state::lemma_key_in_stays::<K>(buf, data, 0, size);
        }
        let outcome = sparse::entry_outcome::<K, V>(known, bytes, left, kind);
        assert(outcome == sparse::entry_outcome::<K, V>(known, bytes, requested, kind));
        law_first_bytes_tell_the_truth::<K, V>(known, bytes, rest, requested, kind);
        state::law_resumed_parse_is_fresh::<K, V>(known, bytes, 0, kind);
        if data.len() == 0 {
            assert(bytes == whole);
        }
        sparse::lemma_grown_len_fits::<K>(bytes.len());
        sparse::law_grown_len_grows::<K>(bytes.len());
    }
}

/// Whether a lookup that has come so far will tell what `file` tells of the request.
pub open spec fn leads_to_truth<'k, K: Key + ?Sized, V: Value>(
    map: MapModel,
    request: Request<'k, K>,
    kind: PartialEntryKind,
    lookup: Lookup<V>,
    file: Seq<u8>,
) -> bool {
    let truth = request_answer::<K, V>(map, file, request, kind);
    match lookup {
        Lookup::Bucket { .. } => lookup == first_lookup::<K, V>(map, request, kind),
        Lookup::Bytes { byte_offset, .. } => {
            let requested = request_encoding(request);
            &&& is_true_of::<K, V>(lookup, file, byte_offset as int, requested)
            &&& truth == entry_answer::<K, V>(file, byte_offset as int, requested, kind)
        },
        Lookup::Told(answer) => answer == told(truth) || answer == Err::<
            Option<PartialModel<V>>,
            DataError,
        >(DataError::TooLarge) && !aligned::fits_buffer(file.len() as int),
    }
}

proof fn lemma_entry_lookup_leads_to_truth<'k, K: Key + ?Sized, V: Value>(
    map: MapModel,
    request: Request<'k, K>,
    kind: PartialEntryKind,
    byte_offset: int,
    file: Seq<u8>,
)
    requires
        kind.spec_est_size::<K, V>() <= usize::MAX,
        0 <= byte_offset,
        request_answer::<K, V>(map, file, request, kind) == (if byte_offset > u64::MAX {
            Outcome::<V>::Damaged(DataError::Position)
        } else {
            entry_answer::<K, V>(file, byte_offset, request_encoding(request), kind)
        }),
    ensures
        leads_to_truth::<K, V>(
            map,
            request,
            kind,
            entry_lookup::<K, V>(byte_offset, request_encoding(request), kind),
            file,
        ),
{
    K::law_layout();
    V::law_layout();
    align::law_padding_aligns(0, K::spec_align());
    assert(kind matches PartialEntryKind::KeyAndValues(count) ==> 0 <= values::value_size::<V>()
        * count) by (nonlinear_arith)
        requires
            values::value_size::<V>() >= 0,
    ;
    assert(Seq::<u8>::empty().is_prefix_of(file_from(file, byte_offset)));
}

/// What a lookup has without its last reply is what it had before.
proof fn lemma_earlier_follows<
    'k,
    E,
    R: FnMut(ReadRange) -> Result<Vec<u8>, E>,
    K: Key + ?Sized,
    V: Value,
>(
    map: MapModel,
    request: Request<'k, K>,
    kind: PartialEntryKind,
    file_len: u64,
    read: R,
    replies: Seq<Seq<u8>>,
)
    requires
        replies.len() > 0,
        follows_lookup::<E, R, K, V>(map, request, kind, file_len, read, replies),
    ensures
        follows_lookup::<E, R, K, V>(map, request, kind, file_len, read, replies.drop_last()),
{
    let earlier = replies.drop_last();
    assert forall|i: int| 0 <= i < earlier.len() implies #[trigger] is_reply::<E, R, K, V>(
        map,
        request,
        kind,
        file_len,
        read,
        earlier,
        i,
    ) by {
        assert(earlier.take(i) == replies.take(i));
        assert(is_reply::<E, R, K, V>(map, request, kind, file_len, read, replies, i));
    }
}

proof fn lemma_lookup_leads_to_truth<
    'k,
    E,
    R: FnMut(ReadRange) -> Result<Vec<u8>, E>,
    K: Key + ?Sized,
    V: Value,
>(
    map: MapModel,
    request: Request<'k, K>,
    kind: PartialEntryKind,
    file_len: u64,
    read: R,
    replies: Seq<Seq<u8>>,
    file: Seq<u8>,
)
    requires
        kind.spec_est_size::<K, V>() <= usize::MAX,
        follows_lookup::<E, R, K, V>(map, request, kind, file_len, read, replies),
        file::reads_file::<E, R>(read, file),
        file.len() == file_len,
    ensures
        leads_to_truth::<K, V>(
            map,
            request,
            kind,
            lookup_after::<K, V>(map, request, kind, replies),
            file,
        ),
    decreases replies.len(),
{
    if replies.len() == 0 {
        if let Request::Offset(offset) = request {
            lemma_entry_lookup_leads_to_truth::<K, V>(
                map,
                request,
                kind,
                map.entries_start + offset,
                file,
            );
        }
    } else {
        let earlier = replies.drop_last();
        let data = replies.last();
        lemma_earlier_follows::<E, R, K, V>(map, request, kind, file_len, read, replies);
        lemma_lookup_leads_to_truth::<E, R, K, V>(
            map,
            request,
            kind,
            file_len,
            read,
            earlier,
            file,
        );
        assert(replies.take(replies.len() - 1) == earlier);
        let before = lookup_after::<K, V>(map, request, kind, earlier);
        let last = replies.len() - 1;
        assert(is_reply::<E, R, K, V>(map, request, kind, file_len, read, replies, last));
        assert(data == before.range(file_len).of(file));
        match before {
            Lookup::Bucket { range, requested } => {
                file::law_clamped_range(range, file, file_len);
                if data.len() == file::BUCKET_OFFSET_SIZE {
                    lemma_entry_lookup_leads_to_truth::<K, V>(
                        map,
                        request,
                        kind,
                        map.entries_start + file::bucket_offset(data),
                        file,
                    );
                }
            },
            Lookup::Bytes { byte_offset, .. } => {
                law_read_brings_truth::<K, V>(
                    map,
                    before,
                    file,
                    byte_offset as int,
                    request_encoding(request),
                    kind,
                );
            },
            Lookup::Told(_) => {},
        }
    }
}

/// What comes of a lookup is what the file tells that its reads are made of, unless a read fails or
/// memory cannot hold the entry.
pub proof fn law_lookup_tells_the_truth<
    'k,
    E,
    R: FnMut(ReadRange) -> Result<Vec<u8>, E>,
    K: Key + ?Sized,
    V: Value,
>(
    map: MapModel,
    request: Request<'k, K>,
    kind: PartialEntryKind,
    file_len: u64,
    read: R,
    answer: Result<Option<PartialModel<V>>, MapError<E>>,
    file: Seq<u8>,
)
    requires
        kind.spec_est_size::<K, V>() <= usize::MAX,
        looked_up::<E, R, K, V>(map, request, kind, file_len, read, answer),
        file::reads_file::<E, R>(read, file),
        file.len() == file_len,
    ensures
        ({
            let truth = told(request_answer::<K, V>(map, file, request, kind));
            match answer {
                Ok(found) => truth == Ok::<Option<PartialModel<V>>, DataError>(found),
                Err(MapError::Data(error)) => truth == Err::<Option<PartialModel<V>>, DataError>(
                    error,
                ) || error == DataError::TooLarge && !aligned::fits_buffer(file.len() as int),
                Err(MapError::Caller(_)) => true,
            }
        }),
{
    let replies = choose|replies: Seq<Seq<u8>>| #[trigger]
        follows_lookup::<E, R, K, V>(map, request, kind, file_len, read, replies) && ends_lookup::<
            E,
            R,
            V,
        >(lookup_after::<K, V>(map, request, kind, replies), file_len, read, answer);
    lemma_lookup_leads_to_truth::<E, R, K, V>(map, request, kind, file_len, read, replies, file);
}

/// A lookup reads no further than it needs: before each of its reads there is less of the entry than
/// the `end` of what is wanted of it, and the read ends at the guess of its size, or at less than
/// twice what is wanted. So the reads for a number of values do not depend on the values.
pub proof fn law_lookup_reads_no_further<
    'k,
    E,
    R: FnMut(ReadRange) -> Result<Vec<u8>, E>,
    K: Key + ?Sized,
    V: Value,
>(
    map: MapModel,
    request: Request<'k, K>,
    kind: PartialEntryKind,
    file_len: u64,
    read: R,
    replies: Seq<Seq<u8>>,
    file: Seq<u8>,
)
    requires
        kind.spec_est_size::<K, V>() <= usize::MAX,
        follows_lookup::<E, R, K, V>(map, request, kind, file_len, read, replies),
        file::reads_file::<E, R>(read, file),
        file.len() == file_len,
    ensures
        lookup_after::<K, V>(map, request, kind, replies) matches Lookup::Bytes {
            byte_offset,
            buf,
            expected_len,
            ..
        } ==> (State::fresh().parsed::<K, V>(
            file_from(file, byte_offset as int),
            0,
            kind,
        ) matches Ok((_, end)) ==> buf.len() < end && (expected_len
            <= kind.spec_est_size::<K, V>() || expected_len < 2 * end)),
{
    let lookup = lookup_after::<K, V>(map, request, kind, replies);
    if let Lookup::Bytes { byte_offset, buf, expected_len, .. } = lookup {
        let whole = file_from(file, byte_offset as int);
        if let Ok((_, end)) = State::fresh().parsed::<K, V>(whole, 0, kind) {
            lemma_lookup_leads_to_truth::<E, R, K, V>(
                map,
                request,
                kind,
                file_len,
                read,
                replies,
                file,
            );
            K::law_layout();
            V::law_layout();
            align::law_padding_aligns(0, K::spec_align());
            lemma_wanted_has_bytes::<K, V>(whole, kind);
            assert(kind matches PartialEntryKind::KeyAndValues(count) ==> 0 <= values::value_size::<
                V,
            >() * count) by (nonlinear_arith)
                requires
                    values::value_size::<V>() >= 0,
            ;
            if buf.len() > 0 {
                let earlier = replies.drop_last();
                lemma_earlier_follows::<E, R, K, V>(map, request, kind, file_len, read, replies);
                lemma_lookup_leads_to_truth::<E, R, K, V>(
                    map,
                    request,
                    kind,
                    file_len,
                    read,
                    earlier,
                    file,
                );
                let before = lookup_after::<K, V>(map, request, kind, earlier);
                let known = before->known;
                state::law_state_stays_true::<K>(known, before->buf, replies.last(), 0);
                state::law_resumed_parse_is_fresh::<K, V>(known, buf, 0, kind);
                if buf.len() >= end {
                    state::law_parse_needs_only_its_bytes::<K, V>(whole, 0, kind);
                    let head = whole.take(end);
                    assert(buf == head + buf.skip(end));
                    state::law_more_bytes_keep_parse::<K, V>(head, buf.skip(end), 0, kind);
                }
                sparse::lemma_grown_len_bound::<K>(buf.len());
                sparse::lemma_grown_len_fits::<K>(buf.len());
            }
        }
    }
}

/// What is wanted of an entry takes some bytes.
proof fn lemma_wanted_has_bytes<K: Key + ?Sized, V: Value>(buf: Seq<u8>, kind: PartialEntryKind)
    ensures
        State::fresh().parsed::<K, V>(buf, 0, kind) matches Ok((_, end)) ==> 0 < end,
{
    let start = state::key_start::<K>(0);
    K::law_layout();
    V::law_layout();
    align::law_padding_aligns(0, K::spec_align());
    if let Ok(size) = State::fresh().key_search::<K>(buf, 0) {
        K::law_found_in_bounds(buf.skip(start), start, 0);
        align::law_padding_aligns(size as int, values::value_size::<V>());
        align::law_padding_aligns(4, values::value_size::<V>());
        if let Ok(count) = entry::len_at(
            buf,
            0,
            start + align::round_up(size as int, values::value_size::<V>()),
        ) {
            assert(0 <= count * values::value_size::<V>()) by (nonlinear_arith)
                requires
                    count >= 0,
                    values::value_size::<V>() >= 0,
            ;
        }
    }
}

/// Whether the bucket of `key` tells that its entry lies at `byte_offset`.
pub open spec fn points_to<K: Key + ?Sized>(
    map: MapModel,
    file: Seq<u8>,
    key: &K,
    byte_offset: int,
) -> bool {
    &&& key.slot(map.levels, map.words) matches Some(hash)
    &&& ({
        let bucket = map.buckets_pos + hash * file::BUCKET_OFFSET_SIZE;
        &&& bucket <= u64::MAX
        &&& bucket + file::BUCKET_OFFSET_SIZE <= file.len()
        &&& byte_offset == map.entries_start + file::bucket_offset(
            file.subrange(bucket, bucket + file::BUCKET_OFFSET_SIZE),
        )
        &&& byte_offset <= u64::MAX
    })
}

/// Whether `file` holds the entry at `byte_offset`, so that what `kind` wants of it can be read at
/// an aligned address.
pub open spec fn holds_entry<'a, K: Key + ?Sized, V: Value>(
    file: Seq<u8>,
    byte_offset: int,
    stored: StoredEntry<'a, K, V>,
    kind: PartialEntryKind,
) -> bool {
    &&& stored.is_laid_out(0, kind)
    &&& stored.bytes().is_prefix_of(file_from(file, byte_offset))
}

proof fn lemma_held_entry_is_found<'a, K: Key + ?Sized, V: Value>(
    file: Seq<u8>,
    byte_offset: int,
    stored: StoredEntry<'a, K, V>,
    requested: Option<Seq<u8>>,
    kind: PartialEntryKind,
)
    requires
        holds_entry(file, byte_offset, stored, kind),
        stored.key.encoding().len() <= usize::MAX,
        requested is None || requested == Some(stored.key.encoding()),
    ensures
        entry_answer::<K, V>(file, byte_offset, requested, kind) == Outcome::Found(
            stored.wanted(kind),
        ),
{
    let bytes = stored.bytes();
    let whole = file_from(file, byte_offset);
    let rest = whole.skip(bytes.len() as int);
    assert(bytes + rest == whole);
    state::law_stored_entry_is_read(stored, rest, 0, kind);
    let to_key = stored.before_key + stored.key.encoding();
    let behind = whole.skip(to_key.len() as int);
    assert(to_key == bytes.take(to_key.len() as int));
    assert(to_key + behind == whole);
    state::law_stored_key_is_known(stored.key, stored.before_key, behind, 0);
}

/// What is stored under a key is what a lookup of that key gives.
pub proof fn law_stored_key_is_looked_up<'a, K: Key + ?Sized, V: Value>(
    map: MapModel,
    file: Seq<u8>,
    byte_offset: int,
    stored: StoredEntry<'a, K, V>,
    kind: PartialEntryKind,
)
    requires
        points_to(map, file, stored.key, byte_offset),
        holds_entry(file, byte_offset, stored, kind),
        stored.key.encoding().len() <= usize::MAX,
    ensures
        request_answer::<K, V>(map, file, Request::Key(stored.key), kind) == Outcome::Found(
            stored.wanted(kind),
        ),
{
    lemma_held_entry_is_found(file, byte_offset, stored, Some(stored.key.encoding()), kind);
}

/// An entry is what a lookup of its offset gives.
pub proof fn law_stored_offset_is_looked_up<'a, K: Key + ?Sized, V: Value>(
    map: MapModel,
    file: Seq<u8>,
    offset: u64,
    stored: StoredEntry<'a, K, V>,
    kind: PartialEntryKind,
)
    requires
        map.entries_start + offset <= u64::MAX,
        holds_entry(file, map.entries_start + offset, stored, kind),
        stored.key.encoding().len() <= usize::MAX,
    ensures
        request_answer::<K, V>(map, file, Request::Offset(offset), kind) == Outcome::Found(
            stored.wanted(kind),
        ),
{
    lemma_held_entry_is_found(file, map.entries_start + offset, stored, None, kind);
}

/// A key whose bucket leads to the entry of another key is not stored.
pub proof fn law_other_key_is_absent<K: Key + ?Sized, V: Value>(
    map: MapModel,
    file: Seq<u8>,
    byte_offset: int,
    key: &K,
    other: &K,
    kind: PartialEntryKind,
)
    requires
        points_to(map, file, key, byte_offset),
        other.encoding().is_prefix_of(file_from(file, byte_offset)),
        other.encoding().len() <= usize::MAX,
        key.encoding() != other.encoding(),
    ensures
        request_answer::<K, V>(map, file, Request::Key(key), kind) == Outcome::<V>::Absent,
{
    let whole = file_from(file, byte_offset);
    let behind = whole.skip(other.encoding().len() as int);
    let before_key = Seq::<u8>::empty();
    assert(before_key + other.encoding() + behind == whole);
    K::law_layout();
    align::lemma_divisor_of_alignment(0, aligned::BUFFER_ALIGN as int, K::spec_align());
    state::law_stored_key_is_known(other, before_key, behind, 0);
}

/// An entry that is cut off by the end of the file, before all that is wanted of it is there, is told to
/// be cut off, wherever that is, unless its key is there and is not the one that is looked for.
pub proof fn law_cut_off_entry_is_told<'a, K: Key + ?Sized, V: Value>(
    file: Seq<u8>,
    byte_offset: int,
    stored: StoredEntry<'a, K, V>,
    requested: Option<Seq<u8>>,
    kind: PartialEntryKind,
    present: int,
)
    requires
        stored.is_laid_out(0, kind),
        stored.key.encoding().len() <= usize::MAX,
        requested is None || requested == Some(stored.key.encoding()),
        0 <= present <= stored.bytes().len(),
        file_from(file, byte_offset) == stored.bytes().take(present),
        present < (match kind {
            PartialEntryKind::KeyOnly => stored.before_key.len() + stored.key.encoding().len(),
            PartialEntryKind::KeyAndValuesLen => stored.values_pos() as nat,
            PartialEntryKind::KeyAndValues(_) => stored.bytes().len(),
        }),
    ensures
        told(entry_answer::<K, V>(file, byte_offset, requested, kind)) == Err::<
            Option<PartialModel<V>>,
            DataError,
        >(DataError::CutOff),
{
    let there = stored.bytes().take(present);
    let key = stored.key.encoding();
    let key_end = stored.before_key.len() + key.len();
    state::law_part_of_stored_entry_is_read(stored, present, 0, kind);
    K::law_layout();
    align::law_padding_aligns(0, K::spec_align());
    if present >= key_end {
        let behind = there.skip(key_end as int);
        assert(there == stored.before_key + key + behind);
        state::law_stored_key_is_known(stored.key, stored.before_key, behind, 0);
    } else {
        let start = stored.before_key.len() as int;
        if start <= present {
            let part = there.skip(start);
            let more = stored.bytes().skip(present);
            let behind = stored.bytes().skip(key_end as int);
            assert(part + more == key + behind);
            stored.key.law_stored_key_is_found(behind, start);
            K::law_found_in_bounds(part, start, 0);
            if K::scan(part, start, 0) != Err::<nat, ReadError>(ReadError::Incomplete) {
                K::law_more_bytes_change_nothing(part, more, start, 0);
            }
        }
    }
}

/// Where the bytes of an entry can never be a key, that is told, whatever is wanted of it and whichever
/// key is looked for.
pub proof fn law_damaged_key_is_told<K: Key + ?Sized, V: Value>(
    file: Seq<u8>,
    byte_offset: int,
    requested: Option<Seq<u8>>,
    kind: PartialEntryKind,
)
    requires
        K::scan(file_from(file, byte_offset), 0, 0) == Err::<nat, ReadError>(ReadError::Invalid),
    ensures
        told(entry_answer::<K, V>(file, byte_offset, requested, kind)) == Err::<
            Option<PartialModel<V>>,
            DataError,
        >(DataError::Entry),
{
    let whole = file_from(file, byte_offset);
    K::law_layout();
    align::lemma_divisor_of_alignment(0, aligned::BUFFER_ALIGN as int, K::spec_align());
    assert(whole.skip(0) == whole);
}

/// What comes of a request is what the entry tells that it leads to: the one at its offset, or the one
/// at the offset that is in the bucket of its key. Where the bucket is not all in the file, that is
/// told, and so is a position past the last one.
pub proof fn law_request_leads_to_entry<K: Key + ?Sized, V: Value>(
    map: MapModel,
    file: Seq<u8>,
    key: &K,
    hash: u64,
    offset: u64,
    kind: PartialEntryKind,
)
    ensures
        ({
            let given = request_answer::<K, V>(map, file, Request::<K>::Offset(offset), kind);
            let position = map.entries_start + offset;
            if position > u64::MAX {
                told(given) == Err::<Option<PartialModel<V>>, DataError>(DataError::Position)
            } else {
                given == entry_answer::<K, V>(file, position, None, kind)
            }
        }),
        key.slot(map.levels, map.words) is None ==> told(
            request_answer::<K, V>(map, file, Request::Key(key), kind),
        ) == Ok::<Option<PartialModel<V>>, DataError>(None),
        key.slot(map.levels, map.words) == Some(hash) ==> {
            let given = request_answer::<K, V>(map, file, Request::Key(key), kind);
            let bucket = map.buckets_pos + 8 * hash;
            if bucket > u64::MAX {
                told(given) == Err::<Option<PartialModel<V>>, DataError>(DataError::Position)
            } else if bucket + 8 > file.len() {
                told(given) == Err::<Option<PartialModel<V>>, DataError>(DataError::BucketOffset)
            } else {
                file.subrange(bucket, bucket + 8) == native::native_bytes(offset as nat, 8) ==> {
                    let position = map.entries_start + offset;
                    if position > u64::MAX {
                        told(given) == Err::<Option<PartialModel<V>>, DataError>(
                            DataError::Position,
                        )
                    } else {
                        given == entry_answer::<K, V>(file, position, Some(key.encoding()), kind)
                    }
                }
            }
        },
{
    native::lemma_byte_values();
    native::law_value_of_bytes(offset as nat, 8);
    assert(hash * file::BUCKET_OFFSET_SIZE == 8 * hash);
}

} // verus!
