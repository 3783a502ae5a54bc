//! A hash map that is kept in a file and read piece by piece.

use crate::align;
use crate::aligned;
use crate::file;
use crate::file::{DataError, Header, HeaderModel, MapError, ReadRange};
use crate::keys::Key;
use crate::lookup;
use crate::phf;
use crate::record;
use crate::record::{ReadCall, Recorded};
use crate::sparse;
use crate::sparse::{Processed, Refill, Request, SparsePipeline};
use crate::state;
use crate::state::{PartialEntry, PartialEntryKind, PartialModel, State, StoredEntry};
use crate::values::Value;
use core::marker::PhantomData;
use ph::fmph::Function;
use std::collections::VecDeque;
use vstd::prelude::*;

verus! {

/// On-disk hash map. It knows where things are; the bytes are read by its callers.
pub struct UniversalHashMap<K: ?Sized, V> {
    header: Header,
    phf: Function,
    /// Whether `phf` has an answer for every key.
    usable: bool,
    /// Absolute byte offset where entry data begins (right after the bucket offsets array).
    entries_start: u64,
    phantom_value: PhantomData<V>,
    phantom_key: PhantomData<K>,
}

/// The parts of a hash map: where the offsets of the entries are and how many, where the entries
/// start, and the levels and words of the hash function that gives a key its bucket.
#[verifier::ext_equal]
pub struct MapModel {
    pub buckets_pos: u64,
    pub buckets_count: u64,
    pub entries_start: u64,
    pub levels: Seq<u64>,
    pub words: Seq<u64>,
}

/// The range of the hash function, or what is wrong with the header that `header_bytes` start with.
/// Between the header and the buckets there are the hash function and some padding.
pub open spec fn spec_phf_range<K: Key + ?Sized>(header_bytes: Seq<u8>) -> Result<
    ReadRange,
    DataError,
> {
    match file::stored_header(header_bytes) {
        None => Err(DataError::InvalidHeader),
        Some(header) => if header.key_type != K::spec_name() {
            Err(DataError::KeyTypeMismatch)
        } else if header.buckets_pos < file::HEADER_SIZE {
            Err(DataError::BucketsPosBeforeHeaderEnd)
        } else {
            Ok(
                ReadRange {
                    byte_offset: file::HEADER_SIZE,
                    length: (header.buckets_pos - file::HEADER_SIZE) as u64,
                },
            )
        },
    }
}

/// The hash map of the header that `header_bytes` start with and the hash function that `phf_bytes`
/// start with.
pub open spec fn map_of_parts<K: Key + ?Sized>(header_bytes: Seq<u8>, phf_bytes: Seq<u8>) -> Result<
    MapModel,
    DataError,
> {
    match spec_phf_range::<K>(header_bytes) {
        Err(error) => Err(error),
        Ok(_) => match phf::stored_phf(phf_bytes) {
            None => Err(DataError::HashFunction),
            Some((levels, words)) => {
                let header = file::stored_header(header_bytes)->0;
                let entries_start = header.buckets_pos + header.buckets_count
                    * file::BUCKET_OFFSET_SIZE;
                if entries_start > u64::MAX {
                    Err(DataError::Position)
                } else {
                    Ok(
                        MapModel {
                            buckets_pos: header.buckets_pos,
                            buckets_count: header.buckets_count,
                            entries_start: entries_start as u64,
                            levels,
                            words,
                        },
                    )
                }
            },
        },
    }
}

/// The range of the header.
pub open spec fn header_range() -> ReadRange {
    ReadRange { byte_offset: 0, length: file::HEADER_SIZE }
}

/// Whether `opened` is what comes of opening a hash map whose header is in `header_bytes`: the hash
/// map of the hash function that is read, or what is wrong with them, or the error of that read.
pub open spec fn opens_behind_header<
    E,
    R: FnMut(ReadRange) -> Result<Vec<u8>, E>,
    K: Key + ?Sized,
>(read: R, header_bytes: Seq<u8>, opened: Result<MapModel, MapError<E>>) -> bool {
    match spec_phf_range::<K>(header_bytes) {
        Err(error) => opened == Err::<MapModel, MapError<E>>(MapError::Data(error)),
        Ok(range) => {
            ||| opened matches Err(MapError::Caller(error)) && file::read_fails::<E, R>(
                read,
                range,
                error,
            )
            ||| exists|phf_bytes: Seq<u8>| #[trigger]
                file::read_gives::<E, R>(read, range, phf_bytes) && opened == file::by_data::<
                    MapModel,
                    E,
                >(map_of_parts::<K>(header_bytes, phf_bytes))
        },
    }
}

/// Whether `opened` is what comes of opening a hash map: the header is read first, and then, where
/// it tells, the hash function.
pub open spec fn opens<E, R: FnMut(ReadRange) -> Result<Vec<u8>, E>, K: Key + ?Sized>(
    read: R,
    opened: Result<MapModel, MapError<E>>,
) -> bool {
    ||| opened matches Err(MapError::Caller(error)) && file::read_fails::<E, R>(
        read,
        header_range(),
        error,
    )
    ||| exists|header_bytes: Seq<u8>| #[trigger]
        file::read_gives::<E, R>(read, header_range(), header_bytes) && opens_behind_header::<
            E,
            R,
            K,
        >(read, header_bytes, opened)
}

/// Whether `read` may be called on the range of the header, and on that of the hash function where
/// the header tells it. It is called on no other.
pub open spec fn allows_open<E, R: FnMut(ReadRange) -> Result<Vec<u8>, E>, K: Key + ?Sized>(
    read: R,
) -> bool {
    &&& call_requires(read, (header_range(),))
    &&& forall|header_bytes: Seq<u8>| #[trigger]
        file::read_gives::<E, R>(read, header_range(), header_bytes) ==> match spec_phf_range::<K>(
            header_bytes,
        ) {
            Ok(range) => call_requires(read, (range,)),
            Err(_) => true,
        }
}

/// Whether `read` [`allows_open`]. [`law_function_may_open`] shows it.
pub closed spec fn may_open_map<E, R: FnMut(ReadRange) -> Result<Vec<u8>, E>, K: Key + ?Sized>(
    read: R,
) -> bool {
    allows_open::<E, R, K>(read)
}

/// Whether a hash map may be opened with `read`: it may be called on every range, or on those that it
/// is called on.
pub open spec fn may_open<E, R: FnMut(ReadRange) -> Result<Vec<u8>, E>, K: Key + ?Sized>(
    read: R,
) -> bool {
    file::reads_all::<E, R>(read) || may_open_map::<E, R, K>(read)
}

/// A function that allows all reads of opening a hash map may be used for it.
pub proof fn law_function_may_open<
    E,
    R: FnMut(ReadRange) -> Result<Vec<u8>, E>,
    K: Key + ?Sized,
>(read: R)
    requires
        allows_open::<E, R, K>(read),
    ensures
        may_open::<E, R, K>(read),
{
}

/// Whether `reads` are all reads of opening a hash map, and `opened` is what they tell: the header is
/// read once, and then, where it tells, the hash function, once. A read that fails is the last.
pub open spec fn open_is_logged<E, K: Key + ?Sized>(
    reads: Seq<ReadCall<E>>,
    opened: Result<MapModel, MapError<E>>,
) -> bool {
    &&& reads.len() > 0
    &&& reads[0].range == header_range()
    &&& match reads[0].reply {
        Err(error) => {
            &&& reads.len() == 1
            &&& opened == Err::<MapModel, MapError<E>>(MapError::Caller(error))
        },
        Ok(header_bytes) => match spec_phf_range::<K>(header_bytes) {
            Err(error) => {
                &&& reads.len() == 1
                &&& opened == Err::<MapModel, MapError<E>>(MapError::Data(error))
            },
            Ok(range) => {
                &&& reads.len() == 2
                &&& reads[1].range == range
                &&& match reads[1].reply {
                    Err(error) => opened == Err::<MapModel, MapError<E>>(MapError::Caller(error)),
                    Ok(phf_bytes) => opened == file::by_data::<MapModel, E>(
                        map_of_parts::<K>(header_bytes, phf_bytes),
                    ),
                }
            },
        },
    }
}

/// What is known of a hash map that has been opened.
pub open spec fn opened_model<E, K: Key + ?Sized, V: Value>(
    opened: Result<UniversalHashMap<K, V>, MapError<E>>,
) -> Result<MapModel, MapError<E>> {
    match opened {
        Ok(map) => Ok(map@),
        Err(error) => Err(error),
    }
}

/// The hash map that `file` holds.
pub open spec fn map_of_file<K: Key + ?Sized>(file: Seq<u8>) -> Result<MapModel, DataError> {
    let header_bytes = header_range().of(file);
    match spec_phf_range::<K>(header_bytes) {
        Err(error) => Err(error),
        Ok(range) => map_of_parts::<K>(header_bytes, range.of(file)),
    }
}

/// A file that starts with a header of this type of keys, and holds a complete hash function between
/// the header and the buckets, is opened as the hash map of that header and hash function.
pub proof fn law_stored_map_is_opened<K: Key + ?Sized>(
    file: Seq<u8>,
    header: HeaderModel,
    levels: Seq<u64>,
    words: Seq<u64>,
)
    requires
        file::header_bytes(header).is_prefix_of(file),
        header.key_type == K::spec_name(),
        header.key_type.len() == 8,
        header.buckets_pos >= file::HEADER_SIZE,
        header.buckets_pos <= file.len(),
        phf::stored_phf(
            file.subrange(file::HEADER_SIZE as int, header.buckets_pos as int),
        ) == Some((levels, words)),
        header.buckets_pos + header.buckets_count * file::BUCKET_OFFSET_SIZE <= u64::MAX,
    ensures
        map_of_file::<K>(file) == Ok::<MapModel, DataError>(
            MapModel {
                buckets_pos: header.buckets_pos,
                buckets_count: header.buckets_count,
                entries_start: (header.buckets_pos + header.buckets_count
                    * file::BUCKET_OFFSET_SIZE) as u64,
                levels,
                words,
            },
        ),
{
    let bytes = file::header_bytes(header);
    file::law_stored_header_is_read(header, Seq::empty());
    assert(bytes + Seq::<u8>::empty() == bytes);
    assert(header_range().of(file) == bytes);
    let phf_range = ReadRange {
        byte_offset: file::HEADER_SIZE,
        length: (header.buckets_pos - file::HEADER_SIZE) as u64,
    };
    assert(phf_range.of(file) =~= file.subrange(
        file::HEADER_SIZE as int,
        header.buckets_pos as int,
    ));
}

/// A file that does not hold a hash map of keys of this type is refused, and told is the first thing
/// that is wrong: it is shorter than a header, or its header is that of another type of keys, or tells
/// that the buckets start within the header, or the hash function in front of the buckets is cut off,
/// or the entries would start past the last position.
pub proof fn law_damaged_map_is_refused<K: Key + ?Sized>(bytes: Seq<u8>, header: HeaderModel)
    requires
        header.key_type.len() == 8,
    ensures
        bytes.len() < 24 ==> map_of_file::<K>(bytes) == Err::<MapModel, DataError>(
            DataError::InvalidHeader,
        ),
        file::header_bytes(header).is_prefix_of(bytes) ==> {
            let held = ReadRange {
                byte_offset: 24,
                length: (header.buckets_pos - 24) as u64,
            };
            map_of_file::<K>(bytes) matches Err(error) ==> if header.key_type != K::NAME@ {
                error == DataError::KeyTypeMismatch
            } else if header.buckets_pos < 24 {
                error == DataError::BucketsPosBeforeHeaderEnd
            } else if phf::stored_phf(held.of(bytes)) is None {
                error == DataError::HashFunction
            } else {
                error == DataError::Position
            }
        },
        file::header_bytes(header).is_prefix_of(bytes) ==> (map_of_file::<K>(bytes) is Err
            <==> header.key_type != K::NAME@ || header.buckets_pos < 24 || phf::stored_phf(
            (ReadRange { byte_offset: 24, length: (header.buckets_pos - 24) as u64 }).of(bytes),
        ) is None || header.buckets_pos + 8 * header.buckets_count > u64::MAX),
{
    K::law_layout();
    if file::header_bytes(header).is_prefix_of(bytes) {
        let start = file::header_bytes(header);
        file::law_stored_header_is_read(header, Seq::empty());
        assert(start + Seq::<u8>::empty() == start);
        assert(header_range().of(bytes) == start);
    }
}

/// Opening a hash map reads the first 24 bytes of a file, and then, where the header is that of a hash
/// map of these keys, all from there to the buckets, and nothing else.
pub proof fn law_open_reads_up_to_buckets<E, K: Key + ?Sized>(
    reads: Seq<ReadCall<E>>,
    opened: Result<MapModel, MapError<E>>,
    header: HeaderModel,
    more: Seq<u8>,
)
    requires
        open_is_logged::<E, K>(reads, opened),
        header.key_type.len() == 8,
        reads[0].reply == Ok::<Seq<u8>, E>(file::header_bytes(header) + more),
    ensures
        reads[0].range.byte_offset == 0 && reads[0].range.length == 24,
        reads.len() == (if header.key_type == K::NAME@ && header.buckets_pos >= 24 {
            2nat
        } else {
            1nat
        }),
        reads.len() == 2 ==> reads[1].range.byte_offset == 24 && 24 + reads[1].range.length
            == header.buckets_pos,
        opened matches Ok(map) ==> map.buckets_pos == header.buckets_pos && map.buckets_count
            == header.buckets_count && map.entries_start == header.buckets_pos + 8
            * header.buckets_count,
{
    K::law_layout();
    file::law_stored_header_is_read(header, more);
}

/// Where the offsets of the entries are.
pub open spec fn bucket_range(map: MapModel) -> ReadRange {
    ReadRange {
        byte_offset: map.buckets_pos,
        length: (map.buckets_count * file::BUCKET_OFFSET_SIZE) as u64,
    }
}

impl<K: Key + ?Sized, V: Value> View for UniversalHashMap<K, V> {
    type V = MapModel;

    closed spec fn view(&self) -> MapModel {
        MapModel {
            buckets_pos: self.header.buckets_pos,
            buckets_count: self.header.buckets_count,
            entries_start: self.entries_start,
            levels: phf::phf_levels(self.phf),
            words: phf::phf_words(self.phf),
        }
    }
}

impl<K: Key + ?Sized, V: Value> UniversalHashMap<K, V> {
    /// The entries lie right behind the offsets.
    pub closed spec fn wf(&self) -> bool {
        &&& self.entries_start == self.header.buckets_pos + self.header.buckets_count
            * file::BUCKET_OFFSET_SIZE
        &&& self.usable == phf::usable_levels(phf::phf_levels(self.phf))
    }

    /// The entries lie right behind the offsets.
    pub proof fn law_entries_behind_buckets(&self)
        requires
            self.wf(),
        ensures
            self@.entries_start == self@.buckets_pos + self@.buckets_count
                * file::BUCKET_OFFSET_SIZE,
    {
    }

    /// The range of the hash function, by the bytes of the header.
    pub fn phf_range(header_bytes: &[u8]) -> (range: Result<ReadRange, DataError>)
        ensures
            range == spec_phf_range::<K>(header_bytes@),
    {
        proof {
            K::law_layout();
        }
        match Header::read_from_prefix(header_bytes) {
            None => Err(DataError::InvalidHeader),
            Some(header) => {
                if !header.has_key_type(&K::NAME) {
                    Err(DataError::KeyTypeMismatch)
                } else if header.buckets_pos < file::HEADER_SIZE {
                    Err(DataError::BucketsPosBeforeHeaderEnd)
                } else {
                    Ok(
                        ReadRange {
                            byte_offset: file::HEADER_SIZE,
                            length: header.buckets_pos - file::HEADER_SIZE,
                        },
                    )
                }
            },
        }
    }

    /// The hash map of a header and a hash function.
    pub fn from_parts(header_bytes: &[u8], phf_bytes: &[u8]) -> (map: Result<Self, DataError>)
        ensures
            match map_of_parts::<K>(header_bytes@, phf_bytes@) {
                Ok(model) => map matches Ok(map) && map@ == model && map.wf(),
                Err(error) => map == Err::<Self, DataError>(error),
            },
    {
        if let Err(error) = Self::phf_range(header_bytes) {
            return Err(error);
        }
        let phf = match phf::read_phf(phf_bytes) {
            Some(phf) => phf,
            None => {
                return Err(DataError::HashFunction);
            },
        };
        let usable = phf::phf_is_usable(phf_bytes);
        match Header::read_from_prefix(header_bytes) {
            None => Err(DataError::InvalidHeader),
            Some(header) => {
                if header.buckets_count > (u64::MAX - header.buckets_pos)
                    / file::BUCKET_OFFSET_SIZE {
                    return Err(DataError::Position);
                }
                let entries_start: u64 = header.buckets_pos + header.buckets_count
                    * file::BUCKET_OFFSET_SIZE;
                Ok(
                    UniversalHashMap {
                        header,
                        phf,
                        usable,
                        entries_start,
                        phantom_value: PhantomData,
                        phantom_key: PhantomData,
                    },
                )
            },
        }
    }

    /// Load the hash map from a file, as [`UniversalHashMap::open`] does. The log of the function
    /// tells how it is read.
    pub fn open_recorded<E, R: FnMut(ReadRange) -> Result<Vec<u8>, E>>(
        read: &mut Recorded<R, ReadCall<E>>,
    ) -> (map: Result<Self, MapError<E>>)
        requires
            old(read).wf(),
            old(read).log().len() == 0,
            may_open::<E, R, K>(old(read).function()),
        ensures
            final(read).wf(),
            final(read).function() == old(read).function(),
            open_is_logged::<E, K>(final(read).log(), opened_model(map)),
            map matches Ok(map) ==> map.wf(),
            opens::<E, R, K>(old(read).function(), opened_model(map)),
            match map {
                Ok(map) => forall|bytes: Seq<u8>| #[trigger]
                    file::reads_file::<E, R>(old(read).function(), bytes) ==> map_of_file::<K>(
                        bytes,
                    ) == Ok::<MapModel, DataError>(map@),
                Err(MapError::Data(error)) => forall|bytes: Seq<u8>| #[trigger]
                    file::reads_file::<E, R>(old(read).function(), bytes) ==> map_of_file::<K>(
                        bytes,
                    ) == Err::<MapModel, DataError>(error),
                Err(MapError::Caller(_)) => true,
            },
    {
        let ghost reader = read.function();
        assert(allows_open::<E, R, K>(reader));
        // 1. Read header.
        let header_range = ReadRange::new(0, file::HEADER_SIZE);
        assert(header_range == self::header_range());
        let header_bytes = match read.read(header_range) {
            Ok(bytes) => bytes,
            Err(error) => {
                assert(file::read_fails::<E, R>(reader, header_range, error));
                return Err(MapError::Caller(error));
            },
        };
        assert(call_ensures(reader, (header_range,), Ok::<Vec<u8>, E>(header_bytes)));
        assert(file::read_gives::<E, R>(reader, header_range, header_bytes@));
        let phf_range = match Self::phf_range(&header_bytes) {
            Ok(range) => range,
            Err(error) => {
                return Err(MapError::Data(error));
            },
        };
        // 2. Read PHF.
        let phf_bytes = match read.read(phf_range) {
            Ok(bytes) => bytes,
            Err(error) => {
                assert(file::read_fails::<E, R>(reader, phf_range, error));
                return Err(MapError::Caller(error));
            },
        };
        assert(call_ensures(reader, (phf_range,), Ok::<Vec<u8>, E>(phf_bytes)));
        assert(file::read_gives::<E, R>(reader, phf_range, phf_bytes@));
        match Self::from_parts(&header_bytes, &phf_bytes) {
            Ok(map) => Ok(map),
            Err(error) => Err(MapError::Data(error)),
        }
    }

    /// Number of distinct keys stored in the hash map.
    pub fn keys_count(&self) -> (count: usize)
        ensures
            count == self@.buckets_count as usize,
    {
        self.header.buckets_count as usize
    }

    /// The bucket of a key.
    pub fn bucket(&self, key: &K) -> (slot: Option<u64>)
        requires
            phf::usable_levels(self@.levels),
        ensures
            slot == key.slot(self@.levels, self@.words),
    {
        key.phf_slot(&self.phf)
    }

    /// Where the offsets of the entries start.
    pub fn buckets_pos(&self) -> (pos: u64)
        ensures
            pos == self@.buckets_pos,
    {
        self.header.buckets_pos
    }

    /// Where the offsets of the entries are.
    pub fn bucket_range(&self) -> (range: ReadRange)
        requires
            self.wf(),
        ensures
            range == bucket_range(self@),
    {
        ReadRange::new(
            self.header.buckets_pos,
            self.header.buckets_count * file::BUCKET_OFFSET_SIZE,
        )
    }

    /// Where the entries start.
    pub fn entries_start(&self) -> (pos: u64)
        ensures
            pos == self@.entries_start,
    {
        self.entries_start
    }

    /// Whether the hash function has an answer for every key. One whose last level is empty has
    /// none for the keys that fall through the others.
    pub fn answers_keys(&self) -> (answers: bool)
        requires
            self.wf(),
        ensures
            answers == phf::usable_levels(self@.levels),
    {
        self.usable
    }
}

/// Whether `answer` is what `truth` gives of every file of `file_len` bytes that `read` gives the
/// bytes of, unless `read` fails. What memory cannot hold is not read.
pub open spec fn tells<E, R: FnMut(ReadRange) -> Result<Vec<u8>, E>, T>(
    read: R,
    file_len: u64,
    answer: Result<T, MapError<E>>,
    truth: spec_fn(Seq<u8>) -> Result<T, DataError>,
) -> bool {
    forall|bytes: Seq<u8>| #[trigger]
        file::reads_file::<E, R>(read, bytes) && bytes.len() == file_len ==> match answer {
            Ok(given) => truth(bytes) == Ok::<T, DataError>(given),
            Err(MapError::Data(error)) => truth(bytes) == Err::<T, DataError>(error) || error
                == DataError::TooLarge && !aligned::fits_buffer(bytes.len() as int),
            Err(MapError::Caller(_)) => true,
        }
}

/// The answer as mathematical values.
pub open spec fn answer_model<E, K: Key + ?Sized, V: Value>(
    answer: Result<Option<PartialEntry<K, V>>, MapError<E>>,
) -> Result<Option<PartialModel<V>>, MapError<E>> {
    match answer {
        Ok(entry) => Ok(lookup::model_of(entry)),
        Err(error) => Err(error),
    }
}

impl<K: Key + ?Sized, V: Value> UniversalHashMap<K, V> {
    /// Reads what is wanted of one entry.
    pub(crate) fn answer<'k, E, R: FnMut(ReadRange) -> Result<Vec<u8>, E>>(
        &self,
        entry_kind: PartialEntryKind,
        file_len: u64,
        request: Request<'k, K>,
        read: &mut Recorded<R, ReadCall<E>>,
    ) -> (answer: Result<Option<PartialEntry<K, V>>, MapError<E>>)
        requires
            self.wf(),
            entry_kind.spec_est_size::<K, V>() <= usize::MAX,
            request is Offset || phf::usable_levels(self@.levels),
            old(read).wf(),
            lookup::allows_lookup::<E, R, K, V>(
                self@,
                request,
                entry_kind,
                file_len,
                old(read).function(),
            ),
        ensures
            final(read).wf(),
            final(read).function() == old(read).function(),
            answer matches Ok(Some(entry)) ==> entry.model().is_of(entry_kind),
            request is Offset ==> answer != Ok::<Option<PartialEntry<K, V>>, MapError<E>>(None),
            lookup::looked_up::<E, R, K, V>(
                self@,
                request,
                entry_kind,
                file_len,
                old(read).function(),
                answer_model(answer),
            ),
            record::goes_on(old(read).log(), final(read).log()),
            lookup::lookup_is_logged::<E, R, K, V>(
                self@,
                request,
                entry_kind,
                file_len,
                old(read).function(),
                record::since(old(read).log(), final(read).log()),
                answer_model(answer),
            ),
    {
        let ghost reader = read.function();
        let ghost earlier = read.log();
        let ghost first = ((), request);
        let ghost mut replies: Seq<Seq<u8>> = Seq::empty();
        let ghost mut made: Seq<ReadCall<E>> = Seq::empty();
        assert(read.log() == earlier + made);
        assert(made == lookup::lookup_reads::<E, K, V>(
            self@,
            request,
            entry_kind,
            file_len,
            replies,
            Ok(None),
        ));
        let mut requests: VecDeque<((), Request<'k, K>)> = VecDeque::new();
        requests.push_back(((), request));
        let mut pipeline: SparsePipeline<'_, 'k, (), K, V> = SparsePipeline::new(
            self,
            entry_kind,
            file_len,
        );
        loop
            invariant
                pipeline.wf(),
                pipeline.map == self,
                pipeline.entry_kind == entry_kind,
                pipeline.file_len == file_len,
                entry_kind.spec_est_size::<K, V>() <= usize::MAX,
                read.wf(),
                read.function() == reader,
                old(read).function() == reader,
                old(read).log() == earlier,
                read.log() == earlier + made,
                made == lookup::lookup_reads::<E, K, V>(
                    self@,
                    request,
                    entry_kind,
                    file_len,
                    replies,
                    Ok(None),
                ),
                first == ((), request),
                request is Offset || phf::usable_levels(self@.levels),
                lookup::allows_lookup::<E, R, K, V>(self@, request, entry_kind, file_len, reader),
                ({
                    ||| requests@ == seq![first] && pipeline.to_schedule@.len() == 0
                        && replies.len() == 0
                    ||| requests@.len() == 0 && pipeline.to_schedule@.len() == 1
                }),
                lookup::follows_lookup::<E, R, K, V>(
                    self@,
                    request,
                    entry_kind,
                    file_len,
                    reader,
                    replies,
                ),
                pipeline.to_schedule@.len() == 1 ==> {
                    let state = pipeline.to_schedule@[0].state;
                    &&& lookup::lookup_after::<K, V>(self@, request, entry_kind, replies)
                        == lookup::lookup_of::<K, V>(self@, state)
                    &&& state->buf@.len() <= usize::MAX
                    &&& request is Offset ==> state->ReadingEntry_requested_key is None
                },
            decreases
                    requests@.len(),
                    if pipeline.to_schedule@.len() > 0 {
                        usize::MAX + 1 - pipeline.to_schedule@[0].state->buf@.len()
                    } else {
                        0
                    },
        {
            let ghost fresh = requests@.len() > 0;
            let ghost before = lookup::lookup_after::<K, V>(self@, request, entry_kind, replies);
            let refilled = pipeline.refill(&mut requests);
            proof {
                if fresh {
                    lookup::law_request_starts_as_lookup::<(), K, V>(
                        self@,
                        first,
                        entry_kind,
                        file_len,
                        refilled,
                    );
                }
            }
            let (entry, range) = match refilled {
                Ok(Refill::Schedule(entry, range)) => (entry, range),
                Ok(Refill::Missing(_)) => {
                    proof {
                        lookup::lemma_lookup_is_logged::<E, R, K, V>(
                            self@,
                            request,
                            entry_kind,
                            file_len,
                            reader,
                            replies,
                            Ok(None),
                            earlier,
                            read.log(),
                        );
                    }
                    return Ok(None);
                },
                Ok(Refill::Drained) => {
                    assert(false);
                    return Ok(None);
                },
                Err(error) => {
                    proof {
                        lookup::lemma_lookup_is_logged::<E, R, K, V>(
                            self@,
                            request,
                            entry_kind,
                            file_len,
                            reader,
                            replies,
                            Err(MapError::Data(error)),
                            earlier,
                            read.log(),
                        );
                    }
                    return Err(MapError::Data(error));
                },
            };
            assert(before == lookup::lookup_of::<K, V>(self@, entry.state));
            assert(range == before.range(file_len));
            let data = match read.read(range) {
                Ok(data) => data,
                Err(error) => {
                    assert(file::read_fails::<E, R>(reader, range, error));
                    proof {
                        lookup::lemma_lookup_is_logged::<E, R, K, V>(
                            self@,
                            request,
                            entry_kind,
                            file_len,
                            reader,
                            replies,
                            Err(MapError::Caller(error)),
                            earlier,
                            read.log(),
                        );
                    }
                    return Err(MapError::Caller(error));
                },
            };
            assert(call_ensures(reader, (range,), Ok::<Vec<u8>, E>(data)));
            let ghost was = entry;
            let advanced = pipeline.advance(entry, &data);
            proof {
                assert(file::read_gives::<E, R>(reader, range, data@));
                lookup::law_lookup_goes_on::<E, R, K, V>(
                    self@,
                    request,
                    entry_kind,
                    file_len,
                    reader,
                    replies,
                    data@,
                );
                lookup::lemma_lookup_reads_go_on::<E, K, V>(
                    self@,
                    request,
                    entry_kind,
                    file_len,
                    replies,
                    data@,
                );
                let call = ReadCall { range, reply: Ok::<Seq<u8>, E>(data@) };
                assert((earlier + made).push(call) == earlier + made.push(call));
                made = made.push(call);
                replies = replies.push(data@);
                let queued = if pipeline.to_schedule@.len() > 0 {
                    Some(pipeline.to_schedule@.last())
                } else {
                    None
                };
                lookup::law_work_goes_on_as_lookup::<(), K, V>(
                    self@,
                    entry_kind,
                    was,
                    data@,
                    advanced,
                    queued,
                );
                if was.state is ReadingEntry {
                    lookup::lemma_found_is_wanted::<K, V>(
                        was.state->parse_state,
                        was.state->buf@ + data@,
                        sparse::requested_encoding(was.state->ReadingEntry_requested_key),
                        entry_kind,
                    );
                }
            }
            match advanced {
                Ok(Processed::Deliver(_, found)) => {
                    proof {
                        lookup::lemma_lookup_is_logged::<E, R, K, V>(
                            self@,
                            request,
                            entry_kind,
                            file_len,
                            reader,
                            replies,
                            Ok(lookup::model_of(found)),
                            earlier,
                            read.log(),
                        );
                    }
                    return Ok(found);
                },
                Ok(Processed::Queued) => {},
                Err(error) => {
                    proof {
                        lookup::lemma_lookup_is_logged::<E, R, K, V>(
                            self@,
                            request,
                            entry_kind,
                            file_len,
                            reader,
                            replies,
                            Err(MapError::Data(error)),
                            earlier,
                            read.log(),
                        );
                    }
                    return Err(MapError::Data(error));
                },
            }
        }
    }
}

/// What `file` holds under `key`.
pub open spec fn stored_values<K: Key + ?Sized, V: Value>(
    map: MapModel,
    file: Seq<u8>,
    key: &K,
) -> Result<Option<Seq<V>>, DataError> {
    let kind = PartialEntryKind::KeyAndValues(1);
    match lookup::told(lookup::request_answer::<K, V>(map, file, Request::Key(key), kind)) {
        Ok(Some(PartialModel::KeyAndValues(_, stored))) => Ok(Some(stored)),
        Ok(_) => Ok(None),
        Err(error) => Err(error),
    }
}

/// How many values `file` holds under `key`.
pub open spec fn stored_count<K: Key + ?Sized, V: Value>(
    map: MapModel,
    file: Seq<u8>,
    key: &K,
) -> Result<Option<usize>, DataError> {
    let kind = PartialEntryKind::KeyAndValuesLen;
    match lookup::told(lookup::request_answer::<K, V>(map, file, Request::Key(key), kind)) {
        Ok(Some(PartialModel::KeyAndValuesLen(_, count))) => Ok(Some(count as usize)),
        Ok(_) => Ok(None),
        Err(error) => Err(error),
    }
}

/// The values that a lookup gives.
pub open spec fn values_of<E, V>(answer: Result<Option<PartialModel<V>>, MapError<E>>) -> Result<
    Option<Seq<V>>,
    MapError<E>,
> {
    match answer {
        Ok(Some(PartialModel::KeyAndValues(_, stored))) => Ok(Some(stored)),
        Ok(_) => Ok(None),
        Err(error) => Err(error),
    }
}

/// Whether `values` is what comes of a lookup of the values of `key`.
pub open spec fn values_looked_up<
    E,
    R: FnMut(ReadRange) -> Result<Vec<u8>, E>,
    K: Key + ?Sized,
    V: Value,
>(
    map: MapModel,
    key: &K,
    file_len: u64,
    read: R,
    values: Result<Option<Seq<V>>, MapError<E>>,
) -> bool {
    exists|answer: Result<Option<PartialModel<V>>, MapError<E>>| #[trigger]
        lookup::looked_up::<E, R, K, V>(
            map,
            Request::Key(key),
            PartialEntryKind::KeyAndValues(1),
            file_len,
            read,
            answer,
        ) && values == values_of(answer)
}

/// Whether `values` is what comes of a lookup of the values of `key`, and `reads` are all reads that it made.
pub open spec fn values_are_logged<
    E,
    R: FnMut(ReadRange) -> Result<Vec<u8>, E>,
    K: Key + ?Sized,
    V: Value,
>(
    map: MapModel,
    key: &K,
    file_len: u64,
    read: R,
    reads: Seq<ReadCall<E>>,
    values: Result<Option<Seq<V>>, MapError<E>>,
) -> bool {
    exists|answer: Result<Option<PartialModel<V>>, MapError<E>>| #[trigger]
        lookup::lookup_is_logged::<E, R, K, V>(
            map,
            Request::Key(key),
            PartialEntryKind::KeyAndValues(1),
            file_len,
            read,
            reads,
            answer,
        ) && values == values_of(answer)
}

/// A lookup of values whose reads are logged is a lookup of those values.
pub(crate) proof fn lemma_logged_values_are_looked_up<
    E,
    R: FnMut(ReadRange) -> Result<Vec<u8>, E>,
    K: Key + ?Sized,
    V: Value,
>(
    map: MapModel,
    key: &K,
    file_len: u64,
    read: R,
    reads: Seq<ReadCall<E>>,
    values: Result<Option<Seq<V>>, MapError<E>>,
)
    requires
        values_are_logged::<E, R, K, V>(map, key, file_len, read, reads, values),
    ensures
        values_looked_up::<E, R, K, V>(map, key, file_len, read, values),
{
    let kind = PartialEntryKind::KeyAndValues(1);
    let answer = choose|answer: Result<Option<PartialModel<V>>, MapError<E>>| #[trigger]
        lookup::lookup_is_logged::<E, R, K, V>(
            map,
            Request::Key(key),
            kind,
            file_len,
            read,
            reads,
            answer,
        ) && values == values_of(answer);
    assert(lookup::looked_up::<E, R, K, V>(
        map,
        Request::Key(key),
        kind,
        file_len,
        read,
        answer,
    ));
}

/// The number of values that a lookup gives.
pub open spec fn count_of<E, V>(answer: Result<Option<PartialModel<V>>, MapError<E>>) -> Result<
    Option<usize>,
    MapError<E>,
> {
    match answer {
        Ok(Some(PartialModel::KeyAndValuesLen(_, count))) => Ok(Some(count as usize)),
        Ok(_) => Ok(None),
        Err(error) => Err(error),
    }
}

/// Whether `count` is what comes of a lookup of the number of values of `key`.
pub open spec fn count_looked_up<
    E,
    R: FnMut(ReadRange) -> Result<Vec<u8>, E>,
    K: Key + ?Sized,
    V: Value,
>(
    map: MapModel,
    key: &K,
    file_len: u64,
    read: R,
    count: Result<Option<usize>, MapError<E>>,
) -> bool {
    exists|answer: Result<Option<PartialModel<V>>, MapError<E>>| #[trigger]
        lookup::looked_up::<E, R, K, V>(
            map,
            Request::Key(key),
            PartialEntryKind::KeyAndValuesLen,
            file_len,
            read,
            answer,
        ) && count == count_of(answer)
}

/// Whether `count` is what comes of a lookup of the number of values of `key`, and `reads` are all reads that it made.
pub open spec fn count_is_logged<
    E,
    R: FnMut(ReadRange) -> Result<Vec<u8>, E>,
    K: Key + ?Sized,
    V: Value,
>(
    map: MapModel,
    key: &K,
    file_len: u64,
    read: R,
    reads: Seq<ReadCall<E>>,
    count: Result<Option<usize>, MapError<E>>,
) -> bool {
    exists|answer: Result<Option<PartialModel<V>>, MapError<E>>| #[trigger]
        lookup::lookup_is_logged::<E, R, K, V>(
            map,
            Request::Key(key),
            PartialEntryKind::KeyAndValuesLen,
            file_len,
            read,
            reads,
            answer,
        ) && count == count_of(answer)
}

/// Whether the position of the bucket of `key` is above `u64::MAX`.
pub open spec fn bucket_out_of_range<K: Key + ?Sized>(map: MapModel, key: &K) -> bool {
    key.slot(map.levels, map.words) matches Some(hash) && map.buckets_pos + hash
        * file::BUCKET_OFFSET_SIZE > u64::MAX
}

/// What a lookup of values gives is what is stored.
pub proof fn law_values_looked_up_are_stored<
    E,
    R: FnMut(ReadRange) -> Result<Vec<u8>, E>,
    K: Key + ?Sized,
    V: Value,
>(
    map: MapModel,
    key: &K,
    file_len: u64,
    read: R,
    values: Result<Option<Seq<V>>, MapError<E>>,
)
    requires
        PartialEntryKind::KeyAndValues(1).spec_est_size::<K, V>() <= usize::MAX,
        values_looked_up::<E, R, K, V>(map, key, file_len, read, values),
    ensures
        tells::<E, R, Option<Seq<V>>>(
            read,
            file_len,
            values,
            |bytes: Seq<u8>| stored_values::<K, V>(map, bytes, key),
        ),
{
    let kind = PartialEntryKind::KeyAndValues(1);
    let answer = choose|answer: Result<Option<PartialModel<V>>, MapError<E>>| #[trigger]
        lookup::looked_up::<E, R, K, V>(map, Request::Key(key), kind, file_len, read, answer)
            && values == values_of(answer);
    assert forall|bytes: Seq<u8>| #[trigger]
        file::reads_file::<E, R>(read, bytes) && bytes.len() == file_len implies match values {
        Ok(given) => stored_values::<K, V>(map, bytes, key) == Ok::<Option<Seq<V>>, DataError>(
            given,
        ),
        Err(MapError::Data(error)) => stored_values::<K, V>(map, bytes, key) == Err::<
            Option<Seq<V>>,
            DataError,
        >(error) || error == DataError::TooLarge && !aligned::fits_buffer(bytes.len() as int),
        Err(MapError::Caller(_)) => true,
    } by {
        lookup::law_lookup_tells_the_truth::<E, R, K, V>(
            map,
            Request::Key(key),
            kind,
            file_len,
            read,
            answer,
            bytes,
        );
    }
}

/// What a lookup of a number of values gives is what is stored.
pub proof fn law_count_looked_up_is_stored<
    E,
    R: FnMut(ReadRange) -> Result<Vec<u8>, E>,
    K: Key + ?Sized,
    V: Value,
>(map: MapModel, key: &K, file_len: u64, read: R, count: Result<Option<usize>, MapError<E>>)
    requires
        PartialEntryKind::KeyAndValuesLen.spec_est_size::<K, V>() <= usize::MAX,
        count_looked_up::<E, R, K, V>(map, key, file_len, read, count),
    ensures
        tells::<E, R, Option<usize>>(
            read,
            file_len,
            count,
            |bytes: Seq<u8>| stored_count::<K, V>(map, bytes, key),
        ),
{
    let kind = PartialEntryKind::KeyAndValuesLen;
    let answer = choose|answer: Result<Option<PartialModel<V>>, MapError<E>>| #[trigger]
        lookup::looked_up::<E, R, K, V>(map, Request::Key(key), kind, file_len, read, answer)
            && count == count_of(answer);
    assert forall|bytes: Seq<u8>| #[trigger]
        file::reads_file::<E, R>(read, bytes) && bytes.len() == file_len implies match count {
        Ok(given) => stored_count::<K, V>(map, bytes, key) == Ok::<Option<usize>, DataError>(given),
        Err(MapError::Data(error)) => stored_count::<K, V>(map, bytes, key) == Err::<
            Option<usize>,
            DataError,
        >(error) || error == DataError::TooLarge && !aligned::fits_buffer(bytes.len() as int),
        Err(MapError::Caller(_)) => true,
    } by {
        lookup::law_lookup_tells_the_truth::<E, R, K, V>(
            map,
            Request::Key(key),
            kind,
            file_len,
            read,
            answer,
            bytes,
        );
    }
}

/// What can be read does not matter where it need not be: a key without a bucket has no values, and
/// a position of a bucket that is out of range is told.
pub proof fn law_values_without_reads<
    E,
    R: FnMut(ReadRange) -> Result<Vec<u8>, E>,
    K: Key + ?Sized,
    V: Value,
>(
    map: MapModel,
    key: &K,
    file_len: u64,
    read: R,
    values: Result<Option<Seq<V>>, MapError<E>>,
)
    requires
        values_looked_up::<E, R, K, V>(map, key, file_len, read, values),
    ensures
        key.slot(map.levels, map.words) is None ==> values == Ok::<Option<Seq<V>>, MapError<E>>(
            None,
        ),
        bucket_out_of_range(map, key) ==> values == Err::<Option<Seq<V>>, MapError<E>>(
            MapError::Data(DataError::Position),
        ),
{
    let kind = PartialEntryKind::KeyAndValues(1);
    let request = Request::Key(key);
    let answer = choose|answer: Result<Option<PartialModel<V>>, MapError<E>>| #[trigger]
        lookup::looked_up::<E, R, K, V>(map, request, kind, file_len, read, answer) && values
            == values_of(answer);
    if key.slot(map.levels, map.words) is None || bucket_out_of_range(map, key) {
        lookup::law_lookup_without_reads::<E, R, K, V>(
            map,
            request,
            kind,
            file_len,
            read,
            answer,
        );
    }
}

/// What can be read does not matter to the number of values of a key without a bucket either.
pub proof fn law_count_without_reads<
    E,
    R: FnMut(ReadRange) -> Result<Vec<u8>, E>,
    K: Key + ?Sized,
    V: Value,
>(map: MapModel, key: &K, file_len: u64, read: R, count: Result<Option<usize>, MapError<E>>)
    requires
        count_looked_up::<E, R, K, V>(map, key, file_len, read, count),
    ensures
        key.slot(map.levels, map.words) is None ==> count == Ok::<Option<usize>, MapError<E>>(None),
        bucket_out_of_range(map, key) ==> count == Err::<Option<usize>, MapError<E>>(
            MapError::Data(DataError::Position),
        ),
{
    let kind = PartialEntryKind::KeyAndValuesLen;
    let request = Request::Key(key);
    let answer = choose|answer: Result<Option<PartialModel<V>>, MapError<E>>| #[trigger]
        lookup::looked_up::<E, R, K, V>(map, request, kind, file_len, read, answer) && count
            == count_of(answer);
    if key.slot(map.levels, map.words) is None || bucket_out_of_range(map, key) {
        lookup::law_lookup_without_reads::<E, R, K, V>(
            map,
            request,
            kind,
            file_len,
            read,
            answer,
        );
    }
}

/// Where reads give the bytes of a file and never fail, and memory can hold the file, what is given
/// for a key is what the file holds.
pub proof fn law_reliable_reads_give_values<
    E,
    R: FnMut(ReadRange) -> Result<Vec<u8>, E>,
    K: Key + ?Sized,
    V: Value,
>(
    map: MapModel,
    file: Seq<u8>,
    key: &K,
    read: R,
    values: Result<Option<Seq<V>>, MapError<E>>,
)
    requires
        PartialEntryKind::KeyAndValues(1).spec_est_size::<K, V>() <= usize::MAX,
        file.len() <= u64::MAX,
        aligned::fits_buffer(file.len() as int),
        file::reads_file::<E, R>(read, file),
        file::never_fails::<E, R>(read),
        values_looked_up::<E, R, K, V>(map, key, file.len() as u64, read, values),
    ensures
        values == file::by_data::<Option<Seq<V>>, E>(stored_values::<K, V>(map, file, key)),
{
    let kind = PartialEntryKind::KeyAndValues(1);
    let file_len = file.len() as u64;
    let answer = choose|answer: Result<Option<PartialModel<V>>, MapError<E>>| #[trigger]
        lookup::looked_up::<E, R, K, V>(map, Request::Key(key), kind, file_len, read, answer)
            && values == values_of(answer);
    lookup::law_lookup_fails_by_read::<E, R, K, V>(
        map,
        Request::Key(key),
        kind,
        file_len,
        read,
        answer,
    );
    law_values_looked_up_are_stored::<E, R, K, V>(map, key, file_len, read, values);
}

/// Where reads give the bytes of a file and never fail, and memory can hold the file, the number that
/// is given for a key is what the file holds.
pub proof fn law_reliable_reads_give_count<
    E,
    R: FnMut(ReadRange) -> Result<Vec<u8>, E>,
    K: Key + ?Sized,
    V: Value,
>(
    map: MapModel,
    file: Seq<u8>,
    key: &K,
    read: R,
    count: Result<Option<usize>, MapError<E>>,
)
    requires
        PartialEntryKind::KeyAndValuesLen.spec_est_size::<K, V>() <= usize::MAX,
        file.len() <= u64::MAX,
        aligned::fits_buffer(file.len() as int),
        file::reads_file::<E, R>(read, file),
        file::never_fails::<E, R>(read),
        count_looked_up::<E, R, K, V>(map, key, file.len() as u64, read, count),
    ensures
        count == file::by_data::<Option<usize>, E>(stored_count::<K, V>(map, file, key)),
{
    let kind = PartialEntryKind::KeyAndValuesLen;
    let file_len = file.len() as u64;
    let answer = choose|answer: Result<Option<PartialModel<V>>, MapError<E>>| #[trigger]
        lookup::looked_up::<E, R, K, V>(map, Request::Key(key), kind, file_len, read, answer)
            && count == count_of(answer);
    lookup::law_lookup_fails_by_read::<E, R, K, V>(
        map,
        Request::Key(key),
        kind,
        file_len,
        read,
        answer,
    );
    law_count_looked_up_is_stored::<E, R, K, V>(map, key, file_len, read, count);
}

/// The values as sequences.
pub open spec fn seqs_of<V, E>(values: Result<Option<Vec<V>>, MapError<E>>) -> Result<
    Option<Seq<V>>,
    MapError<E>,
> {
    match values {
        Ok(Some(values)) => Ok(Some(values@)),
        Ok(None) => Ok(None),
        Err(error) => Err(error),
    }
}

impl<K: Key + ?Sized, V: Value> UniversalHashMap<K, V> {
    /// Return the values for `key`, of a file of `file_len` bytes, of which `read` gives the bytes
    /// in a range.
    pub fn get<E, R: FnMut(ReadRange) -> Result<Vec<u8>, E>>(
        &self,
        key: &K,
        file_len: u64,
        read: R,
    ) -> (values: Result<Option<Vec<V>>, MapError<E>>)
        requires
            self.wf(),
            phf::usable_levels(self@.levels),
            PartialEntryKind::KeyAndValues(1).spec_est_size::<K, V>() <= usize::MAX,
            lookup::may_read::<E, R, K, V>(
                self@,
                Request::Key(key),
                PartialEntryKind::KeyAndValues(1),
                file_len,
                read,
            ),
        ensures
            values_looked_up::<E, R, K, V>(self@, key, file_len, read, seqs_of(values)),
            tells::<E, R, Option<Seq<V>>>(
                read,
                file_len,
                seqs_of(values),
                |bytes: Seq<u8>| stored_values::<K, V>(self@, bytes, key),
            ),
            key.slot(self@.levels, self@.words) is None ==> values == Ok::<
                Option<Vec<V>>,
                MapError<E>,
            >(None),
            bucket_out_of_range(self@, key) ==> values == Err::<Option<Vec<V>>, MapError<E>>(
                MapError::Data(DataError::Position),
            ),
    {
        let mut recorded: Recorded<R, ReadCall<E>> = Recorded::new(read);
        self.get_recorded(key, file_len, &mut recorded)
    }

    /// Return the values for `key`, as [`get`](Self::get) does. The log of the function tells how
    /// they are read: each range that the lookup asks for is read once, in that order.
    pub fn get_recorded<E, R: FnMut(ReadRange) -> Result<Vec<u8>, E>>(
        &self,
        key: &K,
        file_len: u64,
        read: &mut Recorded<R, ReadCall<E>>,
    ) -> (values: Result<Option<Vec<V>>, MapError<E>>)
        requires
            self.wf(),
            phf::usable_levels(self@.levels),
            PartialEntryKind::KeyAndValues(1).spec_est_size::<K, V>() <= usize::MAX,
            old(read).wf(),
            old(read).log().len() == 0,
            lookup::may_read::<E, R, K, V>(
                self@,
                Request::Key(key),
                PartialEntryKind::KeyAndValues(1),
                file_len,
                old(read).function(),
            ),
        ensures
            final(read).wf(),
            final(read).function() == old(read).function(),
            values_looked_up::<E, R, K, V>(
                self@,
                key,
                file_len,
                old(read).function(),
                seqs_of(values),
            ),
            values_are_logged::<E, R, K, V>(
                self@,
                key,
                file_len,
                old(read).function(),
                final(read).log(),
                seqs_of(values),
            ),
            tells::<E, R, Option<Seq<V>>>(
                old(read).function(),
                file_len,
                seqs_of(values),
                |bytes: Seq<u8>| stored_values::<K, V>(self@, bytes, key),
            ),
            key.slot(self@.levels, self@.words) is None ==> values == Ok::<
                Option<Vec<V>>,
                MapError<E>,
            >(None),
            bucket_out_of_range(self@, key) ==> values == Err::<Option<Vec<V>>, MapError<E>>(
                MapError::Data(DataError::Position),
            ),
    {
        let ghost reader = read.function();
        let kind = PartialEntryKind::KeyAndValues(1);
        let answer = self.answer_once(kind, file_len, Request::Key(key), read);
        proof {
            let model = answer_model(answer);
            assert(values_looked_up::<E, R, K, V>(self@, key, file_len, reader, values_of(model)));
            law_values_looked_up_are_stored::<E, R, K, V>(
                self@,
                key,
                file_len,
                reader,
                values_of(model),
            );
            law_values_without_reads::<E, R, K, V>(self@, key, file_len, reader, values_of(model));
        }
        Self::given_values(answer)
    }

    /// The values that a lookup gives.
    fn given_values<E>(answer: Result<Option<PartialEntry<K, V>>, MapError<E>>) -> (values: Result<
        Option<Vec<V>>,
        MapError<E>,
    >)
        ensures
            seqs_of(values) == values_of(answer_model(answer)),
    {
        match answer {
            Ok(Some(PartialEntry::KeyAndValues(_, values))) => Ok(Some(values)),
            Ok(_) => Ok(None),
            Err(error) => Err(error),
        }
    }

    /// Return the values for `key`, as [`get`](Self::get) does, by a function that is used again.
    pub(crate) fn get_shared<E, R: FnMut(ReadRange) -> Result<Vec<u8>, E>>(
        &self,
        key: &K,
        file_len: u64,
        read: &mut Recorded<R, ReadCall<E>>,
    ) -> (values: Result<Option<Vec<V>>, MapError<E>>)
        requires
            self.wf(),
            phf::usable_levels(self@.levels),
            PartialEntryKind::KeyAndValues(1).spec_est_size::<K, V>() <= usize::MAX,
            old(read).wf(),
            lookup::allows_lookup::<E, R, K, V>(
                self@,
                Request::Key(key),
                PartialEntryKind::KeyAndValues(1),
                file_len,
                old(read).function(),
            ),
        ensures
            final(read).wf(),
            final(read).function() == old(read).function(),
            values_looked_up::<E, R, K, V>(
                self@,
                key,
                file_len,
                old(read).function(),
                seqs_of(values),
            ),
            record::goes_on(old(read).log(), final(read).log()),
            values_are_logged::<E, R, K, V>(
                self@,
                key,
                file_len,
                old(read).function(),
                record::since(old(read).log(), final(read).log()),
                seqs_of(values),
            ),
            tells::<E, R, Option<Seq<V>>>(
                old(read).function(),
                file_len,
                seqs_of(values),
                |bytes: Seq<u8>| stored_values::<K, V>(self@, bytes, key),
            ),
            key.slot(self@.levels, self@.words) is None ==> values == Ok::<
                Option<Vec<V>>,
                MapError<E>,
            >(None),
            bucket_out_of_range(self@, key) ==> values == Err::<Option<Vec<V>>, MapError<E>>(
                MapError::Data(DataError::Position),
            ),
    {
        let ghost reader = read.function();
        let kind = PartialEntryKind::KeyAndValues(1);
        let answer = self.answer(kind, file_len, Request::Key(key), read);
        proof {
            let model = answer_model(answer);
            assert(values_looked_up::<E, R, K, V>(self@, key, file_len, reader, values_of(model)));
            law_values_looked_up_are_stored::<E, R, K, V>(
                self@,
                key,
                file_len,
                reader,
                values_of(model),
            );
            law_values_without_reads::<E, R, K, V>(self@, key, file_len, reader, values_of(model));
        }
        Self::given_values(answer)
    }

    /// Return the number of values for `key` *without* reading the values themselves.
    pub fn get_values_count<E, R: FnMut(ReadRange) -> Result<Vec<u8>, E>>(
        &self,
        key: &K,
        file_len: u64,
        read: R,
    ) -> (count: Result<Option<usize>, MapError<E>>)
        requires
            self.wf(),
            phf::usable_levels(self@.levels),
            PartialEntryKind::KeyAndValuesLen.spec_est_size::<K, V>() <= usize::MAX,
            lookup::may_read::<E, R, K, V>(
                self@,
                Request::Key(key),
                PartialEntryKind::KeyAndValuesLen,
                file_len,
                read,
            ),
        ensures
            count_looked_up::<E, R, K, V>(self@, key, file_len, read, count),
            tells::<E, R, Option<usize>>(
                read,
                file_len,
                count,
                |bytes: Seq<u8>| stored_count::<K, V>(self@, bytes, key),
            ),
            key.slot(self@.levels, self@.words) is None ==> count == Ok::<
                Option<usize>,
                MapError<E>,
            >(None),
            bucket_out_of_range(self@, key) ==> count == Err::<Option<usize>, MapError<E>>(
                MapError::Data(DataError::Position),
            ),
    {
        let mut recorded: Recorded<R, ReadCall<E>> = Recorded::new(read);
        self.get_values_count_recorded(key, file_len, &mut recorded)
    }

    /// Return the number of values for `key`, as [`get_values_count`](Self::get_values_count) does.
    /// The log of the function tells how it is read: each range that the lookup asks for is read
    /// once, in that order.
    pub fn get_values_count_recorded<E, R: FnMut(ReadRange) -> Result<Vec<u8>, E>>(
        &self,
        key: &K,
        file_len: u64,
        read: &mut Recorded<R, ReadCall<E>>,
    ) -> (count: Result<Option<usize>, MapError<E>>)
        requires
            self.wf(),
            phf::usable_levels(self@.levels),
            PartialEntryKind::KeyAndValuesLen.spec_est_size::<K, V>() <= usize::MAX,
            old(read).wf(),
            old(read).log().len() == 0,
            lookup::may_read::<E, R, K, V>(
                self@,
                Request::Key(key),
                PartialEntryKind::KeyAndValuesLen,
                file_len,
                old(read).function(),
            ),
        ensures
            final(read).wf(),
            final(read).function() == old(read).function(),
            count_looked_up::<E, R, K, V>(self@, key, file_len, old(read).function(), count),
            count_is_logged::<E, R, K, V>(
                self@,
                key,
                file_len,
                old(read).function(),
                final(read).log(),
                count,
            ),
            tells::<E, R, Option<usize>>(
                old(read).function(),
                file_len,
                count,
                |bytes: Seq<u8>| stored_count::<K, V>(self@, bytes, key),
            ),
            key.slot(self@.levels, self@.words) is None ==> count == Ok::<
                Option<usize>,
                MapError<E>,
            >(None),
            bucket_out_of_range(self@, key) ==> count == Err::<Option<usize>, MapError<E>>(
                MapError::Data(DataError::Position),
            ),
    {
        let ghost reader = read.function();
        let kind = PartialEntryKind::KeyAndValuesLen;
        let answer = self.answer_once(kind, file_len, Request::Key(key), read);
        proof {
            let model = answer_model(answer);
            assert(count_looked_up::<E, R, K, V>(self@, key, file_len, reader, count_of(model)));
            law_count_looked_up_is_stored::<E, R, K, V>(
                self@,
                key,
                file_len,
                reader,
                count_of(model),
            );
            law_count_without_reads::<E, R, K, V>(self@, key, file_len, reader, count_of(model));
        }
        match answer {
            Ok(Some(PartialEntry::KeyAndValuesLen(_, count))) => Ok(Some(count as usize)),
            Ok(_) => Ok(None),
            Err(error) => Err(error),
        }
    }
}

/// What is stored under a key is what [`UniversalHashMap::get`] gives for it, and how many values
/// that are is what [`UniversalHashMap::get_values_count`] gives.
pub proof fn law_stored_values_are_given<'a, K: Key + ?Sized, V: Value>(
    map: MapModel,
    file: Seq<u8>,
    byte_offset: int,
    stored: StoredEntry<'a, K, V>,
)
    requires
        lookup::points_to(map, file, stored.key, byte_offset),
        lookup::holds_entry(file, byte_offset, stored, PartialEntryKind::KeyAndValues(1)),
        stored.key.encoding().len() <= usize::MAX,
    ensures
        stored_values::<K, V>(map, file, stored.key) == Ok::<Option<Seq<V>>, DataError>(
            Some(stored.values),
        ),
        stored_count::<K, V>(map, file, stored.key) == Ok::<Option<usize>, DataError>(
            Some(stored.values.len() as usize),
        ),
{
    let kind = PartialEntryKind::KeyAndValues(1);
    lookup::law_stored_key_is_looked_up(map, file, byte_offset, stored, kind);
    let kind = PartialEntryKind::KeyAndValuesLen;
    lookup::law_stored_key_is_looked_up(map, file, byte_offset, stored, kind);
}

/// A key that has no bucket, or whose bucket leads to the entry of another key, has no values.
pub proof fn law_absent_key_has_no_values<K: Key + ?Sized, V: Value>(
    map: MapModel,
    file: Seq<u8>,
    byte_offset: int,
    key: &K,
    other: &K,
)
    requires
        key.slot(map.levels, map.words) is None || {
            &&& lookup::points_to(map, file, key, byte_offset)
            &&& other.encoding().is_prefix_of(lookup::file_from(file, byte_offset))
            &&& other.encoding().len() <= usize::MAX
            &&& key.encoding() != other.encoding()
        },
    ensures
        stored_values::<K, V>(map, file, key) == Ok::<Option<Seq<V>>, DataError>(None),
        stored_count::<K, V>(map, file, key) == Ok::<Option<usize>, DataError>(None),
{
    if key.slot(map.levels, map.words) is Some {
        let kind = PartialEntryKind::KeyAndValues(1);
        lookup::law_other_key_is_absent::<K, V>(map, file, byte_offset, key, other, kind);
        let kind = PartialEntryKind::KeyAndValuesLen;
        lookup::law_other_key_is_absent::<K, V>(map, file, byte_offset, key, other, kind);
    }
}

/// Whatever the file holds, the number of values is that of the values: where values are given, so
/// many are counted, and a key has values just where they are counted, unless they are damaged.
pub proof fn law_count_agrees_with_values<K: Key + ?Sized, V: Value>(
    map: MapModel,
    file: Seq<u8>,
    key: &K,
)
    ensures
        stored_values::<K, V>(map, file, key) matches Ok(Some(stored)) ==> stored_count::<K, V>(
            map,
            file,
            key,
        ) == Ok::<Option<usize>, DataError>(Some(stored.len() as usize)),
        (stored_values::<K, V>(map, file, key) == Ok::<Option<Seq<V>>, DataError>(None)) == (
        stored_count::<K, V>(map, file, key) == Ok::<Option<usize>, DataError>(None)),
{
}

/// The number of values does not depend on the values: it is the same in two files in which the
/// bucket of the key leads to the same position, with the same bytes from there to the values.
pub proof fn law_count_ignores_values<K: Key + ?Sized, V: Value>(
    map: MapModel,
    file: Seq<u8>,
    other: Seq<u8>,
    key: &K,
    byte_offset: int,
)
    requires
        lookup::points_to(map, file, key, byte_offset),
        lookup::points_to(map, other, key, byte_offset),
        State::fresh().parsed::<K, V>(
            lookup::file_from(file, byte_offset),
            0,
            PartialEntryKind::KeyAndValuesLen,
        ) matches Ok((_, values_pos)) && values_pos <= usize::MAX && ({
            let entry = lookup::file_from(file, byte_offset);
            let changed = lookup::file_from(other, byte_offset);
            changed.len() >= values_pos && changed.take(values_pos) == entry.take(values_pos)
        }),
    ensures
        stored_count::<K, V>(map, other, key) == stored_count::<K, V>(map, file, key),
{
    let kind = PartialEntryKind::KeyAndValuesLen;
    let requested = Some(key.encoding());
    let entry = lookup::file_from(file, byte_offset);
    let changed = lookup::file_from(other, byte_offset);
    let end = State::fresh().parsed::<K, V>(entry, 0, kind)->Ok_0.1;
    let head = entry.take(end);
    state::law_parse_needs_only_its_bytes::<K, V>(entry, 0, kind);
    assert(head + entry.skip(end) == entry);
    assert(head + changed.skip(end) == changed);
    let fresh = State::fresh();
    K::law_layout();
    align::law_padding_aligns(0, K::spec_align());
    lookup::law_first_bytes_tell_the_truth::<K, V>(fresh, head, entry.skip(end), requested, kind);
    lookup::law_first_bytes_tell_the_truth::<K, V>(
        fresh,
        head,
        changed.skip(end),
        requested,
        kind,
    );
}

} // verus!
