//! Reading all entries of a map, one after the other, from chunks of bytes.

use crate::align;
use crate::aligned;
use crate::aligned::AlignedBuf;
use crate::entry;
use crate::file::{DataError, ReadRange};
use crate::keys::{Key, ReadError};
use crate::sparse;
use crate::state;
use crate::state::{PartialEntry, PartialEntryKind, PartialModel, State, StoredEntry};
use crate::values;
use crate::values::Value;
use core::marker::PhantomData;
use vstd::prelude::*;

verus! {

/// What is in a run of bytes: the encodings of the keys and the values of the entries, the bytes
/// behind the last entry and what is known of them, and whether they can become an entry.
pub struct ScanModel<V> {
    pub entries: Seq<(Seq<u8>, Seq<V>)>,
    pub rest: Seq<u8>,
    pub state: State,
    pub valid: bool,
}

impl<V> ScanModel<V> {
    /// What is wrong with the bytes behind the last entry when nothing follows them.
    pub open spec fn wrong(self) -> Option<DataError> {
        if !self.valid {
            Some(DataError::Entry)
        } else if self.rest.len() > 0 {
            Some(DataError::TrailingBytes)
        } else {
            None
        }
    }
}

/// The key and the values of an entry.
pub open spec fn key_and_values<V>(model: PartialModel<V>) -> (Seq<u8>, Seq<V>) {
    match model {
        PartialModel::KeyAndValues(key, stored) => (key, stored),
        _ => (model.key(), Seq::empty()),
    }
}

/// What is in `view`, which lies at a distance of `pos` from an aligned address, where `state` is
/// what is known of its first entry.
pub open spec fn scan<K: Key + ?Sized, V: Value>(state: State, view: Seq<u8>, pos: int) -> ScanModel<
    V,
>
    decreases view.len(),
{
    match state.parsed::<K, V>(view, pos, PartialEntryKind::KeyAndValues(0)) {
        Ok((model, end)) => {
            proof {
                state::law_parsed_in_bounds::<K, V>(
                    state,
                    view,
                    pos,
                    PartialEntryKind::KeyAndValues(0),
                );
            }
            let behind = scan::<K, V>(State::fresh(), view.skip(end), pos + end);
            ScanModel { entries: seq![key_and_values(model)] + behind.entries, ..behind }
        },
        Err(error) => ScanModel {
            entries: Seq::empty(),
            rest: view,
            state: state.searched::<K>(view, pos),
            valid: error is Incomplete,
        },
    }
}

/// The entries that a chunk completed, and what is wrong with the bytes behind them.
pub struct Scan<K: Key + ?Sized, V> {
    pub entries: Vec<(K::Owned, Vec<V>)>,
    pub error: Option<DataError>,
}

/// The encodings of the keys and the values of entries.
pub open spec fn models_of<K: Key + ?Sized, V: Value>(entries: Seq<(K::Owned, Vec<V>)>) -> Seq<
    (Seq<u8>, Seq<V>),
> {
    entries.map_values(|entry: (K::Owned, Vec<V>)| (K::owned_encoding(entry.0), entry.1@))
}

/// Reads entries from chunks of bytes. The bytes of an entry that is not complete are kept.
pub struct EntryScanner<K: ?Sized, V> {
    buf: AlignedBuf,
    state: State,
    phantom_value: PhantomData<V>,
    phantom_key: PhantomData<K>,
}

impl<K: Key + ?Sized, V: Value> EntryScanner<K, V> {
    /// The bytes that are kept.
    pub closed spec fn kept(&self) -> Seq<u8> {
        self.buf@
    }

    /// What is known of the bytes that are kept.
    pub closed spec fn known(&self) -> State {
        self.state
    }

    /// A scanner that has got no chunk yet.
    pub fn new() -> (scanner: Self)
        ensures
            scanner.kept() == Seq::<u8>::empty(),
            scanner.known() == State::fresh(),
    {
        EntryScanner {
            buf: AlignedBuf::for_entries(),
            state: State::default(),
            phantom_value: PhantomData,
            phantom_key: PhantomData,
        }
    }

    /// Takes the next chunk and gives the entries that are complete now.
    pub fn feed(&mut self, chunk: &[u8]) -> (scanned: Scan<K, V>)
        ensures
            ({
                let view = old(self).kept() + chunk@;
                let model = scan::<K, V>(old(self).known(), view, 0);
                if aligned::fits_buffer(view.len() as int) {
                    &&& models_of::<K, V>(scanned.entries@) == model.entries
                    &&& scanned.error == (if model.valid {
                        None
                    } else {
                        Some(DataError::Entry)
                    })
                    &&& final(self).kept() == model.rest
                    &&& final(self).known() == model.state
                } else {
                    &&& scanned.entries@.len() == 0
                    &&& scanned.error == Some(DataError::TooLarge)
                    &&& final(self).kept() == old(self).kept()
                    &&& final(self).known() == old(self).known()
                }
            }),
    {
        let kind = PartialEntryKind::KeyAndValues(0);
        let mut entries: Vec<(K::Owned, Vec<V>)> = Vec::new();
        if chunk.len() > usize::MAX - self.buf.len() || !aligned::check_fits_buffer(
            self.buf.len() + chunk.len(),
        ) {
            return Scan { entries, error: Some(DataError::TooLarge) };
        }
        let ghost model = scan::<K, V>(self.state, self.buf@ + chunk@, 0);
        self.buf.extend(chunk);
        let addr: usize = self.buf.address();
        let bytes = self.buf.as_slice();
        let mut view = bytes;
        let mut state: State = self.state;
        let mut consumed: usize = 0;
        assert(view@ == bytes@.skip(0));
        assert(models_of::<K, V>(entries@) + model.entries == model.entries);
        let valid;
        loop
            invariant_except_break
                ({
                    let behind = scan::<K, V>(state, view@, consumed as int);
                    &&& model.entries == models_of::<K, V>(entries@) + behind.entries
                    &&& model.rest == behind.rest
                    &&& model.state == behind.state
                    &&& model.valid == behind.valid
                }),
            invariant
                kind == PartialEntryKind::KeyAndValues(0),
                addr % aligned::BUFFER_ALIGN == 0,
                addr + bytes@.len() <= usize::MAX,
                consumed <= bytes@.len(),
                view@ == bytes@.skip(consumed as int),
            ensures
                model.entries == models_of::<K, V>(entries@),
                model.rest == view@,
                model.state == state,
                model.valid == valid,
            decreases view@.len(),
        {
            let ghost before = state;
            proof {
                broadcast use vstd::layout::align_nonzero;

                K::law_layout();
                sparse::lemma_aligned_address::<K, V>(addr as int);
                align::lemma_same_distance(addr as int, 0, consumed as int, K::spec_align());
                align::lemma_same_distance(addr as int, 0, consumed as int, entry::len_align());
                align::lemma_same_distance(
                    addr as int,
                    0,
                    consumed as int,
                    values::value_align::<V>(),
                );
                state::law_only_alignment_matters::<K, V>(
                    state,
                    view@,
                    addr + consumed,
                    consumed as int,
                    kind,
                );
                state::law_parsed_in_bounds::<K, V>(state, view@, consumed as int, kind);
            }
            match state.parse::<K, V>(view, addr + consumed, kind) {
                Ok((PartialEntry::KeyAndValues(key, values), rest)) => {
                    let ghost found = (K::owned_encoding(key), values@);
                    let ghost earlier = entries@;
                    consumed = consumed + (view.len() - rest.len());
                    view = rest;
                    entries.push((key, values));
                    state.reset();
                    proof {
                        assert(models_of::<K, V>(entries@) == models_of::<K, V>(earlier).push(
                            found,
                        ));
                        let behind = scan::<K, V>(state, view@, consumed as int);
                        assert(models_of::<K, V>(earlier) + (seq![found] + behind.entries)
                            == models_of::<K, V>(entries@) + behind.entries);
                        assert(view@ == bytes@.skip(consumed as int));
                    }
                },
                Ok(_) => {
                    assert(false);
                    valid = true;
                    break ;
                },
                Err(ReadError::Incomplete) => {
                    valid = true;
                    break ;
                },
                Err(ReadError::Invalid) => {
                    valid = false;
                    break ;
                },
            }
        }
        self.buf.drop_front(consumed);
        self.state = state;
        Scan {
            entries,
            error: if valid {
                None
            } else {
                Some(DataError::Entry)
            },
        }
    }

    /// Tells whether all bytes were entries.
    pub fn finish(&self) -> (finished: Result<(), DataError>)
        ensures
            finished == (if self.kept().len() == 0 {
                Ok::<(), DataError>(())
            } else {
                Err(DataError::TrailingBytes)
            }),
    {
        if self.buf.is_empty() {
            Ok(())
        } else {
            Err(DataError::TrailingBytes)
        }
    }
}

/// Whether a distance keeps the alignment of keys, numbers of values and values.
pub open spec fn keeps_alignment<K: Key + ?Sized, V: Value>(pos: int) -> bool {
    &&& pos % K::spec_align() == 0int % K::spec_align()
    &&& pos % entry::len_align() == 0int % entry::len_align()
    &&& pos % values::value_align::<V>() == 0int % values::value_align::<V>()
}

/// Whether each entry in `view` ends at a distance that keeps the alignment.
pub open spec fn entries_keep_alignment<K: Key + ?Sized, V: Value>(view: Seq<u8>) -> bool
    decreases view.len(),
{
    match State::fresh().parsed::<K, V>(view, 0, PartialEntryKind::KeyAndValues(0)) {
        Ok((_, end)) => {
            proof {
                state::law_parsed_in_bounds::<K, V>(
                    State::fresh(),
                    view,
                    0,
                    PartialEntryKind::KeyAndValues(0),
                );
            }
            keeps_alignment::<K, V>(end) && entries_keep_alignment::<K, V>(view.skip(end))
        },
        Err(_) => true,
    }
}

/// What is in bytes depends only on how far they are from an aligned address.
proof fn lemma_scan_moves<K: Key + ?Sized, V: Value>(state: State, view: Seq<u8>, pos: int)
    requires
        keeps_alignment::<K, V>(pos),
    ensures
        scan::<K, V>(state, view, pos) == scan::<K, V>(state, view, 0),
{
    lemma_scan_moves_between::<K, V>(state, view, pos, 0);
}

proof fn lemma_scan_moves_between<K: Key + ?Sized, V: Value>(
    state: State,
    view: Seq<u8>,
    pos: int,
    other: int,
)
    requires
        pos % K::spec_align() == other % K::spec_align(),
        pos % entry::len_align() == other % entry::len_align(),
        pos % values::value_align::<V>() == other % values::value_align::<V>(),
    ensures
        scan::<K, V>(state, view, pos) == scan::<K, V>(state, view, other),
    decreases view.len(),
{
    broadcast use vstd::layout::align_nonzero;

    let kind = PartialEntryKind::KeyAndValues(0);
    K::law_layout();
    state::law_only_alignment_matters::<K, V>(state, view, pos, other, kind);
    state::law_parsed_in_bounds::<K, V>(state, view, pos, kind);
    if let Ok((_, end)) = state.parsed::<K, V>(view, pos, kind) {
        align::lemma_same_distance(pos, other, end, K::spec_align());
        align::lemma_same_distance(pos, other, end, entry::len_align());
        align::lemma_same_distance(pos, other, end, values::value_align::<V>());
        lemma_scan_moves_between::<K, V>(State::fresh(), view.skip(end), pos + end, other + end);
    }
}

/// What is found does not depend on what is known already, and what is known then is true.
proof fn lemma_scan_resumes<K: Key + ?Sized, V: Value>(state: State, view: Seq<u8>)
    requires
        state.knows::<K>(view, 0),
        view.len() <= usize::MAX,
        entries_keep_alignment::<K, V>(view),
    ensures
        ({
            let resumed = scan::<K, V>(state, view, 0);
            let fresh = scan::<K, V>(State::fresh(), view, 0);
            &&& resumed.entries == fresh.entries
            &&& resumed.rest == fresh.rest
            &&& resumed.valid == fresh.valid
            &&& resumed.valid ==> resumed.state.knows::<K>(resumed.rest, 0)
        }),
    decreases view.len(),
{
    let kind = PartialEntryKind::KeyAndValues(0);
    K::law_layout();
    align::law_padding_aligns(0, K::spec_align());
    state::law_resumed_parse_is_fresh::<K, V>(state, view, 0, kind);
    state::law_parsed_in_bounds::<K, V>(State::fresh(), view, 0, kind);
    if let Ok((_, end)) = State::fresh().parsed::<K, V>(view, 0, kind) {
        let behind = view.skip(end);
        lemma_scan_moves::<K, V>(State::fresh(), behind, end);
        lemma_scan_resumes::<K, V>(State::fresh(), behind);
    }
}

/// The entries of two runs of bytes, one behind the other, are those of the first, and those of
/// what it left with the second behind it.
proof fn lemma_scan_goes_on<K: Key + ?Sized, V: Value>(first: Seq<u8>, second: Seq<u8>)
    requires
        entries_keep_alignment::<K, V>(first),
        scan::<K, V>(State::fresh(), first, 0).valid,
    ensures
        ({
            let before = scan::<K, V>(State::fresh(), first, 0);
            let after = scan::<K, V>(State::fresh(), before.rest + second, 0);
            let whole = scan::<K, V>(State::fresh(), first + second, 0);
            &&& whole.entries == before.entries + after.entries
            &&& whole.rest == after.rest
            &&& whole.valid == after.valid
            &&& entries_keep_alignment::<K, V>(first + second) ==> entries_keep_alignment::<K, V>(
                before.rest + second,
            )
        }),
    decreases first.len(),
{
    let kind = PartialEntryKind::KeyAndValues(0);
    let before = scan::<K, V>(State::fresh(), first, 0);
    let after = scan::<K, V>(State::fresh(), before.rest + second, 0);
    state::law_parsed_in_bounds::<K, V>(State::fresh(), first, 0, kind);
    if let Ok((model, end)) = State::fresh().parsed::<K, V>(first, 0, kind) {
        let behind = first.skip(end);
        state::law_more_bytes_keep_parse::<K, V>(first, second, 0, kind);
        assert((first + second).skip(end) == behind + second);
        lemma_scan_moves::<K, V>(State::fresh(), behind, end);
        lemma_scan_moves::<K, V>(State::fresh(), behind + second, end);
        lemma_scan_goes_on::<K, V>(behind, second);
        let mid = scan::<K, V>(State::fresh(), behind, 0);
        assert(before.entries == seq![key_and_values(model)] + mid.entries);
        assert(seq![key_and_values(model)] + (mid.entries + after.entries) == before.entries
            + after.entries);
    } else {
        assert(before.entries + after.entries == after.entries);
    }
}

/// It does not matter where the bytes are cut into chunks: after the bytes `seen`, of which the
/// scanner keeps those behind the last entry, a chunk gives the entries that all bytes have beyond
/// those of `seen`. That takes entries whose ends keep the alignment, as the kept bytes are moved
/// to an aligned address.
pub proof fn law_chunks_do_not_matter<K: Key + ?Sized, V: Value>(
    seen: Seq<u8>,
    kept: Seq<u8>,
    known: State,
    chunk: Seq<u8>,
)
    requires
        scan::<K, V>(State::fresh(), seen, 0).valid,
        scan::<K, V>(State::fresh(), seen, 0).rest == kept,
        known.knows::<K>(kept, 0),
        entries_keep_alignment::<K, V>(seen),
        entries_keep_alignment::<K, V>(seen + chunk),
        (seen + chunk).len() <= usize::MAX,
    ensures
        ({
            let before = scan::<K, V>(State::fresh(), seen, 0);
            let after = scan::<K, V>(known, kept + chunk, 0);
            let whole = scan::<K, V>(State::fresh(), seen + chunk, 0);
            &&& whole.entries == before.entries + after.entries
            &&& whole.rest == after.rest
            &&& whole.valid == after.valid
            &&& after.valid ==> after.state.knows::<K>(after.rest, 0)
        }),
{
    lemma_scan_goes_on::<K, V>(seen, chunk);
    state::law_state_stays_true::<K>(known, kept, chunk, 0);
    lemma_rest_is_shorter::<K, V>(State::fresh(), seen, 0);
    lemma_scan_resumes::<K, V>(known, kept + chunk);
}

/// What is left is no longer than what there was.
proof fn lemma_rest_is_shorter<K: Key + ?Sized, V: Value>(state: State, view: Seq<u8>, pos: int)
    ensures
        scan::<K, V>(state, view, pos).rest.len() <= view.len(),
    decreases view.len(),
{
    let kind = PartialEntryKind::KeyAndValues(0);
    state::law_parsed_in_bounds::<K, V>(state, view, pos, kind);
    if let Ok((_, end)) = state.parsed::<K, V>(view, pos, kind) {
        lemma_rest_is_shorter::<K, V>(State::fresh(), view.skip(end), pos + end);
    }
}

/// The bytes of the entries, one after the other.
pub open spec fn entries_bytes<'a, K: Key + ?Sized, V: Value>(
    stored: Seq<StoredEntry<'a, K, V>>,
) -> Seq<u8>
    decreases stored.len(),
{
    if stored.len() == 0 {
        Seq::empty()
    } else {
        stored[0].bytes() + entries_bytes(stored.skip(1))
    }
}

/// Whether the entries can be stored one after the other, the first at a distance of `pos` from an
/// aligned address.
pub open spec fn are_laid_out<'a, K: Key + ?Sized, V: Value>(
    stored: Seq<StoredEntry<'a, K, V>>,
    pos: int,
) -> bool
    decreases stored.len(),
{
    stored.len() > 0 ==> {
        &&& stored[0].is_laid_out(pos, PartialEntryKind::KeyAndValues(0))
        &&& are_laid_out(stored.skip(1), pos + stored[0].bytes().len())
    }
}

/// All entries that are stored one after the other are found, in their order, in front of what
/// follows them.
pub proof fn law_all_entries_are_scanned<'a, K: Key + ?Sized, V: Value>(
    stored: Seq<StoredEntry<'a, K, V>>,
    behind: Seq<u8>,
    pos: int,
)
    requires
        are_laid_out(stored, pos),
    ensures
        ({
            let whole = scan::<K, V>(State::fresh(), entries_bytes(stored) + behind, pos);
            let rest = scan::<K, V>(State::fresh(), behind, pos + entries_bytes(stored).len());
            &&& whole.entries == stored.map_values(
                |entry: StoredEntry<'a, K, V>| (entry.key.encoding(), entry.values),
            ) + rest.entries
            &&& whole.rest == rest.rest
            &&& whole.valid == rest.valid
        }),
    decreases stored.len(),
{
    let model = |entry: StoredEntry<'a, K, V>| (entry.key.encoding(), entry.values);
    let kind = PartialEntryKind::KeyAndValues(0);
    if stored.len() > 0 {
        let first = stored[0];
        let others = stored.skip(1);
        let next = entries_bytes(others) + behind;
        let end = first.bytes().len() as int;
        state::law_stored_entry_is_read(first, next, pos, kind);
        assert(entries_bytes(stored) + behind == first.bytes() + next);
        assert((first.bytes() + next).skip(end) == next);
        law_all_entries_are_scanned(others, behind, pos + end);
        let rest = scan::<K, V>(State::fresh(), behind, pos + entries_bytes(stored).len());
        assert(seq![model(first)] + (others.map_values(model) + rest.entries)
            == stored.map_values(model) + rest.entries);
    } else {
        let rest = scan::<K, V>(State::fresh(), behind, pos);
        assert(entries_bytes(stored) + behind == behind);
        assert(stored.map_values(model) + rest.entries == rest.entries);
    }
}

/// Where nothing is stored, nothing is found and nothing is left.
pub proof fn law_nothing_is_scanned<K: Key + ?Sized, V: Value>(key: &K, pos: int)
    ensures
        ({
            let found = scan::<K, V>(State::fresh(), Seq::empty(), pos);
            found.entries.len() == 0 && found.rest.len() == 0 && found.valid
        }),
{
    let kind = PartialEntryKind::KeyAndValues(0);
    let none = Seq::<u8>::empty();
    let start = state::key_start::<K>(pos);
    K::law_layout();
    align::law_padding_aligns(pos, K::spec_align());
    state::law_parsed_in_bounds::<K, V>(State::fresh(), none, pos, kind);
    if start == 0 {
        key.law_stored_key_is_found(none, pos);
        assert(key.encoding() + none == key.encoding());
        assert(none.skip(0) == none);
        assert(none + key.encoding() == key.encoding());
        if K::scan(none, pos, 0) != Err::<nat, ReadError>(ReadError::Incomplete) {
            K::law_more_bytes_change_nothing(none, key.encoding(), pos, 0);
            K::law_found_in_bounds(none, pos, 0);
        }
    }
}

/// Where a chunk that starts at `pos` ends.
pub open spec fn chunk_end(file_len: int, pos: int, chunk_len: int) -> int {
    if pos + chunk_len < file_len {
        pos + chunk_len
    } else {
        file_len
    }
}

/// The entries of `file` from `pos` on, read in chunks of `chunk_len` bytes, and what is wrong with
/// what is behind them, where `kept` are the bytes in front of `pos` that belong to no entry yet,
/// and `known` is what is known of them.
pub open spec fn scan_file<K: Key + ?Sized, V: Value>(
    file: Seq<u8>,
    pos: int,
    chunk_len: int,
    kept: Seq<u8>,
    known: State,
) -> (Seq<(Seq<u8>, Seq<V>)>, Option<DataError>)
    decreases file.len() - pos,
{
    if pos >= file.len() || chunk_len <= 0 {
        if kept.len() == 0 {
            (Seq::empty(), None)
        } else {
            (Seq::empty(), Some(DataError::TrailingBytes))
        }
    } else {
        let end = chunk_end(file.len() as int, pos, chunk_len);
        let view = kept + file.subrange(pos, end);
        let found = scan::<K, V>(known, view, 0);
        if !aligned::fits_buffer(view.len() as int) {
            (Seq::empty(), Some(DataError::TooLarge))
        } else if !found.valid {
            (found.entries, Some(DataError::Entry))
        } else {
            let (entries, error) = scan_file::<K, V>(
                file,
                end,
                chunk_len,
                found.rest,
                found.state,
            );
            (found.entries + entries, error)
        }
    }
}

/// Where the chunk of number `i` starts, in a file of `file_len` bytes that is read from `start` on
/// in chunks of `chunk_len` bytes.
pub open spec fn chunk_start(start: int, file_len: int, chunk_len: int, i: nat) -> int
    decreases i,
{
    if i == 0 {
        start
    } else {
        chunk_end(file_len, chunk_start(start, file_len, chunk_len, (i - 1) as nat), chunk_len)
    }
}

/// The range of the chunk of number `i`.
pub open spec fn chunk_range(start: int, file_len: int, chunk_len: int, i: nat) -> ReadRange {
    let from = chunk_start(start, file_len, chunk_len, i);
    ReadRange {
        byte_offset: from as u64,
        length: (chunk_end(file_len, from, chunk_len) - from) as u64,
    }
}

/// What has been found in chunks: the entries, the bytes behind them that belong to no entry yet
/// and what is known of them, and what is wrong with them.
pub struct ChunksModel<V> {
    pub entries: Seq<(Seq<u8>, Seq<V>)>,
    pub kept: Seq<u8>,
    pub known: State,
    pub error: Option<DataError>,
}

/// What is found in chunks, one after the other, up to the first in which something is wrong.
pub open spec fn scan_chunks<K: Key + ?Sized, V: Value>(chunks: Seq<Seq<u8>>) -> ChunksModel<V>
    decreases chunks.len(),
{
    if chunks.len() == 0 {
        ChunksModel {
            entries: Seq::empty(),
            kept: Seq::empty(),
            known: State::fresh(),
            error: None,
        }
    } else {
        let before = scan_chunks::<K, V>(chunks.drop_last());
        let view = before.kept + chunks.last();
        let found = scan::<K, V>(before.known, view, 0);
        if before.error is Some {
            before
        } else if !aligned::fits_buffer(view.len() as int) {
            ChunksModel { error: Some(DataError::TooLarge), ..before }
        } else {
            ChunksModel {
                entries: before.entries + found.entries,
                kept: found.rest,
                known: found.state,
                error: if found.valid {
                    None
                } else {
                    Some(DataError::Entry)
                },
            }
        }
    }
}

/// Whether `chunks[i]` is a chunk of `file`, and nothing is wrong with those in front of it.
pub open spec fn is_chunk_of<K: Key + ?Sized, V: Value>(
    file: Seq<u8>,
    start: int,
    chunk_len: int,
    chunks: Seq<Seq<u8>>,
    i: int,
) -> bool {
    &&& chunk_start(start, file.len() as int, chunk_len, i as nat) < file.len()
    &&& scan_chunks::<K, V>(chunks.take(i)).error is None
    &&& chunks[i] == chunk_range(start, file.len() as int, chunk_len, i as nat).of(file)
}

/// What is found in chunks of a file is what is found in the file, as far as it has been read.
pub proof fn law_chunks_are_of_file<K: Key + ?Sized, V: Value>(
    file: Seq<u8>,
    start: int,
    chunk_len: int,
    chunks: Seq<Seq<u8>>,
)
    requires
        0 <= start <= file.len() <= u64::MAX,
        chunk_len > 0,
        forall|i: int|
            0 <= i < chunks.len() ==> #[trigger] is_chunk_of::<K, V>(
                file,
                start,
                chunk_len,
                chunks,
                i,
            ),
    ensures
        ({
            let model = scan_chunks::<K, V>(chunks);
            let pos = chunk_start(start, file.len() as int, chunk_len, chunks.len());
            let whole = scan_file::<K, V>(file, start, chunk_len, Seq::empty(), State::fresh());
            &&& start <= pos <= file.len()
            &&& match model.error {
                None => {
                    let rest = scan_file::<K, V>(file, pos, chunk_len, model.kept, model.known);
                    whole == (model.entries + rest.0, rest.1)
                },
                Some(error) => whole == (model.entries, Some(error)),
            }
        }),
    decreases chunks.len(),
{
    let file_len = file.len() as int;
    let whole = scan_file::<K, V>(file, start, chunk_len, Seq::empty(), State::fresh());
    if chunks.len() == 0 {
        assert(Seq::<(Seq<u8>, Seq<V>)>::empty() + whole.0 == whole.0);
    } else {
        let earlier = chunks.drop_last();
        let last = (chunks.len() - 1) as nat;
        assert forall|i: int| 0 <= i < earlier.len() implies #[trigger] is_chunk_of::<K, V>(
            file,
            start,
            chunk_len,
            earlier,
            i,
        ) by {
            assert(is_chunk_of::<K, V>(file, start, chunk_len, chunks, i));
            assert(earlier.take(i) == chunks.take(i));
        }
        law_chunks_are_of_file::<K, V>(file, start, chunk_len, earlier);
        let before = scan_chunks::<K, V>(earlier);
        let pos = chunk_start(start, file_len, chunk_len, last);
        let end = chunk_end(file_len, pos, chunk_len);
        let chunk = chunks[last as int];
        assert(is_chunk_of::<K, V>(file, start, chunk_len, chunks, last as int));
        assert(chunks.take(last as int) == earlier);
        assert(chunk == file.subrange(pos, end));
        let found = scan::<K, V>(before.known, before.kept + chunk, 0);
        let rest = scan_file::<K, V>(file, end, chunk_len, found.rest, found.state);
        assert(before.entries + (found.entries + rest.0) == before.entries + found.entries
            + rest.0);
        assert(before.entries + Seq::<(Seq<u8>, Seq<V>)>::empty() == before.entries);
    }
}

/// What can never be an entry can be none with more bytes behind it, and what is in front of it
/// stays.
proof fn lemma_invalid_stays<K: Key + ?Sized, V: Value>(first: Seq<u8>, second: Seq<u8>, pos: int)
    requires
        !scan::<K, V>(State::fresh(), first, pos).valid,
    ensures
        !scan::<K, V>(State::fresh(), first + second, pos).valid,
        scan::<K, V>(State::fresh(), first + second, pos).entries == scan::<K, V>(
            State::fresh(),
            first,
            pos,
        ).entries,
    decreases first.len(),
{
    let kind = PartialEntryKind::KeyAndValues(0);
    state::law_parsed_in_bounds::<K, V>(State::fresh(), first, pos, kind);
    state::law_more_bytes_keep_parse::<K, V>(first, second, pos, kind);
    if let Ok((_, end)) = State::fresh().parsed::<K, V>(first, pos, kind) {
        assert((first + second).skip(end) == first.skip(end) + second);
        lemma_invalid_stays::<K, V>(first.skip(end), second, pos + end);
    }
}

proof fn lemma_file_is_scanned<K: Key + ?Sized, V: Value>(
    file: Seq<u8>,
    start: int,
    pos: int,
    chunk_len: int,
    kept: Seq<u8>,
    known: State,
)
    requires
        0 <= start <= pos <= file.len(),
        chunk_len > 0,
        aligned::fits_buffer(file.len() as int),
        forall|end: int|
            start <= end <= file.len() ==> entries_keep_alignment::<K, V>(
                #[trigger] file.subrange(start, end),
            ),
        scan::<K, V>(State::fresh(), file.subrange(start, pos), 0).valid,
        scan::<K, V>(State::fresh(), file.subrange(start, pos), 0).rest == kept,
        known.knows::<K>(kept, 0),
    ensures
        ({
            let before = scan::<K, V>(State::fresh(), file.subrange(start, pos), 0);
            let whole = scan::<K, V>(State::fresh(), file.skip(start), 0);
            let (entries, error) = scan_file::<K, V>(file, pos, chunk_len, kept, known);
            &&& whole.entries == before.entries + entries
            &&& error == whole.wrong()
        }),
    decreases file.len() - pos,
{
    let seen = file.subrange(start, pos);
    let before = scan::<K, V>(State::fresh(), seen, 0);
    let whole = scan::<K, V>(State::fresh(), file.skip(start), 0);
    lemma_rest_is_shorter::<K, V>(State::fresh(), seen, 0);
    if pos >= file.len() {
        assert(seen == file.skip(start));
        assert(before.entries + Seq::<(Seq<u8>, Seq<V>)>::empty() == before.entries);
    } else {
        let end = chunk_end(file.len() as int, pos, chunk_len);
        let chunk = file.subrange(pos, end);
        let found = scan::<K, V>(known, kept + chunk, 0);
        let next = file.subrange(start, end);
        assert(seen + chunk == next);
        law_chunks_do_not_matter::<K, V>(seen, kept, known, chunk);
        assert(next + file.skip(end) == file.skip(start));
        if !found.valid {
            lemma_invalid_stays::<K, V>(next, file.skip(end), 0);
        } else {
            lemma_file_is_scanned::<K, V>(file, start, end, chunk_len, found.rest, found.state);
            let (entries, _) = scan_file::<K, V>(file, end, chunk_len, found.rest, found.state);
            assert(before.entries + (found.entries + entries) == before.entries + found.entries
                + entries);
        }
    }
}

/// The entries of a file from `start` on are found, and what is wrong behind them is told, whatever
/// the size of the chunks, if the ends of the entries keep the alignment and memory can hold the
/// file.
pub proof fn law_chunk_size_does_not_matter<K: Key + ?Sized, V: Value>(
    file: Seq<u8>,
    start: int,
    chunk_len: int,
    key: &K,
)
    requires
        0 <= start <= file.len(),
        chunk_len > 0,
        aligned::fits_buffer(file.len() as int),
        forall|end: int|
            start <= end <= file.len() ==> entries_keep_alignment::<K, V>(
                #[trigger] file.subrange(start, end),
            ),
    ensures
        ({
            let whole = scan::<K, V>(State::fresh(), file.skip(start), 0);
            scan_file::<K, V>(file, start, chunk_len, Seq::empty(), State::fresh()) == (
                whole.entries,
                whole.wrong(),
            )
        }),
{
    let none = Seq::<u8>::empty();
    assert(file.subrange(start, start) == none);
    law_nothing_is_scanned::<K, V>(key, 0);
    K::law_layout();
    align::law_padding_aligns(0, K::spec_align());
    assert(scan::<K, V>(State::fresh(), none, 0).rest == none);
    lemma_file_is_scanned::<K, V>(file, start, start, chunk_len, none, State::fresh());
    let before = scan::<K, V>(State::fresh(), none, 0);
    let (entries, _) = scan_file::<K, V>(file, start, chunk_len, none, State::fresh());
    assert(before.entries + entries == entries);
}

/// Whether the entry is stored so that the entry behind it starts as aligned as itself.
pub open spec fn ends_aligned<'a, K: Key + ?Sized, V: Value>(stored: StoredEntry<'a, K, V>) -> bool {
    &&& stored.is_laid_out(0, PartialEntryKind::KeyAndValues(0))
    &&& keeps_alignment::<K, V>(stored.bytes().len() as int)
}

proof fn lemma_run_is_scanned<'a, K: Key + ?Sized, V: Value>(stored: Seq<StoredEntry<'a, K, V>>)
    requires
        stored.len() > 0,
        forall|i: int| 0 <= i < stored.len() ==> ends_aligned(#[trigger] stored[i]),
    ensures
        ({
            let whole = scan::<K, V>(State::fresh(), entries_bytes(stored), 0);
            &&& whole.entries == stored.map_values(
                |entry: StoredEntry<'a, K, V>| (entry.key.encoding(), entry.values),
            )
            &&& whole.rest.len() == 0
            &&& whole.valid
        }),
    decreases stored.len(),
{
    let model = |entry: StoredEntry<'a, K, V>| (entry.key.encoding(), entry.values);
    let first = stored[0];
    let others = stored.skip(1);
    let next = entries_bytes(others);
    let end = first.bytes().len() as int;
    state::law_stored_entry_is_read(first, next, 0, PartialEntryKind::KeyAndValues(0));
    assert((first.bytes() + next).skip(end) == next);
    lemma_scan_moves::<K, V>(State::fresh(), next, end);
    if others.len() > 0 {
        assert forall|i: int| 0 <= i < others.len() implies ends_aligned(#[trigger] others[i]) by {
            assert(others[i] == stored[i + 1]);
        }
        lemma_run_is_scanned(others);
    } else {
        law_nothing_is_scanned::<K, V>(first.key, 0);
    }
    let rest = scan::<K, V>(State::fresh(), next, 0);
    assert(rest.entries == others.map_values(model));
    assert(seq![model(first)] + others.map_values(model) == stored.map_values(model));
}

proof fn lemma_run_keeps_alignment<'a, K: Key + ?Sized, V: Value>(
    stored: Seq<StoredEntry<'a, K, V>>,
    len: int,
)
    requires
        forall|i: int| 0 <= i < stored.len() ==> ends_aligned(#[trigger] stored[i]),
        0 <= len <= entries_bytes(stored).len(),
    ensures
        entries_keep_alignment::<K, V>(entries_bytes(stored).take(len)),
    decreases stored.len(),
{
    let kind = PartialEntryKind::KeyAndValues(0);
    let there = entries_bytes(stored).take(len);
    if stored.len() > 0 {
        let first = stored[0];
        let others = stored.skip(1);
        let end = first.bytes().len() as int;
        if len < end {
            state::law_partial_entry_is_incomplete(first, len, 0, kind);
            assert(there == first.bytes().take(len));
        } else {
            let next = entries_bytes(others).take(len - end);
            state::law_stored_entry_is_read(first, next, 0, kind);
            assert(there == first.bytes() + next);
            assert(there.skip(end) == next);
            assert forall|i: int| 0 <= i < others.len() implies ends_aligned(
                #[trigger] others[i],
            ) by {
                assert(others[i] == stored[i + 1]);
            }
            lemma_run_keeps_alignment(others, len - end);
        }
    } else {
        state::law_parsed_in_bounds::<K, V>(State::fresh(), there, 0, kind);
    }
}

/// All entries that a file holds from `start` on are given, in their order, whatever the size of the
/// chunks, and nothing is wrong. That takes entries whose ends keep the alignment, and a file that
/// memory can hold.
pub proof fn law_all_stored_entries_are_given<'a, K: Key + ?Sized, V: Value>(
    file: Seq<u8>,
    start: int,
    chunk_len: int,
    stored: Seq<StoredEntry<'a, K, V>>,
)
    requires
        0 <= start <= file.len(),
        chunk_len > 0,
        aligned::fits_buffer(file.len() as int),
        file.skip(start) == entries_bytes(stored),
        forall|i: int| 0 <= i < stored.len() ==> ends_aligned(#[trigger] stored[i]),
    ensures
        scan_file::<K, V>(file, start, chunk_len, Seq::empty(), State::fresh()) == (
            stored.map_values(
                |entry: StoredEntry<'a, K, V>| (entry.key.encoding(), entry.values),
            ),
            None::<DataError>,
        ),
{
    let model = |entry: StoredEntry<'a, K, V>| (entry.key.encoding(), entry.values);
    if stored.len() > 0 {
        lemma_run_is_scanned(stored);
        assert forall|end: int| start <= end <= file.len() implies entries_keep_alignment::<K, V>(
            #[trigger] file.subrange(start, end),
        ) by {
            lemma_run_keeps_alignment(stored, end - start);
            assert(file.subrange(start, end) == file.skip(start).take(end - start));
        }
        law_chunk_size_does_not_matter::<K, V>(file, start, chunk_len, stored[0].key);
    } else {
        assert(file.skip(start).len() == file.len() - start);
        assert(stored.map_values(model) == Seq::<(Seq<u8>, Seq<V>)>::empty());
    }
}

/// Entries that are stored one after the other are found in front of bytes that are no entry.
proof fn lemma_run_is_scanned_before<'a, K: Key + ?Sized, V: Value>(
    stored: Seq<StoredEntry<'a, K, V>>,
    tail: Seq<u8>,
)
    requires
        forall|i: int| 0 <= i < stored.len() ==> ends_aligned(#[trigger] stored[i]),
        State::fresh().parsed::<K, V>(tail, 0, PartialEntryKind::KeyAndValues(0)) is Err,
    ensures
        ({
            let whole = scan::<K, V>(State::fresh(), entries_bytes(stored) + tail, 0);
            &&& whole.entries == stored.map_values(
                |entry: StoredEntry<'a, K, V>| (entry.key.encoding(), entry.values),
            )
            &&& whole.rest == tail
            &&& whole.valid == (State::fresh().parsed::<K, V>(
                tail,
                0,
                PartialEntryKind::KeyAndValues(0),
            )->Err_0 is Incomplete)
        }),
    decreases stored.len(),
{
    let model = |entry: StoredEntry<'a, K, V>| (entry.key.encoding(), entry.values);
    if stored.len() > 0 {
        let first = stored[0];
        let others = stored.skip(1);
        let next = entries_bytes(others) + tail;
        let end = first.bytes().len() as int;
        state::law_stored_entry_is_read(first, next, 0, PartialEntryKind::KeyAndValues(0));
        assert(entries_bytes(stored) + tail == first.bytes() + next);
        assert((first.bytes() + next).skip(end) == next);
        lemma_scan_moves::<K, V>(State::fresh(), next, end);
        assert forall|i: int| 0 <= i < others.len() implies ends_aligned(#[trigger] others[i]) by {
            assert(others[i] == stored[i + 1]);
        }
        lemma_run_is_scanned_before(others, tail);
        assert(seq![model(first)] + others.map_values(model) == stored.map_values(model));
    } else {
        assert(entries_bytes(stored) + tail == tail);
        assert(stored.map_values(model) == Seq::<(Seq<u8>, Seq<V>)>::empty());
    }
}

proof fn lemma_run_before_keeps_alignment<'a, K: Key + ?Sized, V: Value>(
    stored: Seq<StoredEntry<'a, K, V>>,
    tail: Seq<u8>,
    len: int,
)
    requires
        forall|i: int| 0 <= i < stored.len() ==> ends_aligned(#[trigger] stored[i]),
        State::fresh().parsed::<K, V>(tail, 0, PartialEntryKind::KeyAndValues(0)) is Err,
        0 <= len <= (entries_bytes(stored) + tail).len(),
    ensures
        entries_keep_alignment::<K, V>((entries_bytes(stored) + tail).take(len)),
    decreases stored.len(),
{
    let kind = PartialEntryKind::KeyAndValues(0);
    let there = (entries_bytes(stored) + tail).take(len);
    if stored.len() > 0 {
        let first = stored[0];
        let others = stored.skip(1);
        let end = first.bytes().len() as int;
        let behind = entries_bytes(others) + tail;
        assert(entries_bytes(stored) + tail == first.bytes() + behind);
        if len < end {
            state::law_partial_entry_is_incomplete(first, len, 0, kind);
            assert(there == first.bytes().take(len));
        } else {
            let next = behind.take(len - end);
            state::law_stored_entry_is_read(first, next, 0, kind);
            assert(there == first.bytes() + next);
            assert(there.skip(end) == next);
            assert forall|i: int| 0 <= i < others.len() implies ends_aligned(
                #[trigger] others[i],
            ) by {
                assert(others[i] == stored[i + 1]);
            }
            lemma_run_before_keeps_alignment(others, tail, len - end);
        }
    } else {
        assert(there == tail.take(len));
        if State::fresh().parsed::<K, V>(there, 0, kind) is Ok {
            state::law_more_bytes_keep_parse::<K, V>(there, tail.skip(len), 0, kind);
            assert(there + tail.skip(len) == tail);
        }
    }
}

proof fn lemma_damage_is_told<'a, K: Key + ?Sized, V: Value>(
    file: Seq<u8>,
    start: int,
    chunk_len: int,
    stored: Seq<StoredEntry<'a, K, V>>,
    tail: Seq<u8>,
    key: &K,
)
    requires
        0 <= start <= file.len(),
        chunk_len > 0,
        aligned::fits_buffer(file.len() as int),
        file.skip(start) == entries_bytes(stored) + tail,
        forall|i: int| 0 <= i < stored.len() ==> ends_aligned(#[trigger] stored[i]),
        tail.len() > 0,
        State::fresh().parsed::<K, V>(tail, 0, PartialEntryKind::KeyAndValues(0)) is Err,
    ensures
        scan_file::<K, V>(file, start, chunk_len, Seq::empty(), State::fresh()) == (
            stored.map_values(
                |entry: StoredEntry<'a, K, V>| (entry.key.encoding(), entry.values),
            ),
            Some(
                if State::fresh().parsed::<K, V>(
                    tail,
                    0,
                    PartialEntryKind::KeyAndValues(0),
                )->Err_0 is Incomplete {
                    DataError::TrailingBytes
                } else {
                    DataError::Entry
                },
            ),
        ),
{
    lemma_run_is_scanned_before(stored, tail);
    assert forall|end: int| start <= end <= file.len() implies entries_keep_alignment::<K, V>(
        #[trigger] file.subrange(start, end),
    ) by {
        assert(file.skip(start).len() == file.len() - start);
        lemma_run_before_keeps_alignment(stored, tail, end - start);
        assert(file.subrange(start, end) == file.skip(start).take(end - start));
    }
    law_chunk_size_does_not_matter::<K, V>(file, start, chunk_len, key);
}

/// Where the last entry of a file is cut off, all entries in front of it are given, in their order,
/// and told is that bytes are left over, wherever it is cut off and whatever the size of the chunks.
pub proof fn law_cut_off_entry_is_left_over<'a, K: Key + ?Sized, V: Value>(
    file: Seq<u8>,
    start: int,
    chunk_len: int,
    stored: Seq<StoredEntry<'a, K, V>>,
    last: StoredEntry<'a, K, V>,
    present: int,
)
    requires
        0 <= start <= file.len(),
        chunk_len > 0,
        aligned::fits_buffer(file.len() as int),
        file.skip(start) == entries_bytes(stored) + last.bytes().take(present),
        forall|i: int| 0 <= i < stored.len() ==> ends_aligned(#[trigger] stored[i]),
        ends_aligned(last),
        0 < present < last.bytes().len(),
    ensures
        scan_file::<K, V>(file, start, chunk_len, Seq::empty(), State::fresh()) == (
            stored.map_values(
                |entry: StoredEntry<'a, K, V>| (entry.key.encoding(), entry.values),
            ),
            Some(DataError::TrailingBytes),
        ),
{
    let tail = last.bytes().take(present);
    state::law_partial_entry_is_incomplete(last, present, 0, PartialEntryKind::KeyAndValues(0));
    lemma_damage_is_told(file, start, chunk_len, stored, tail, last.key);
}

/// Where bytes that can never be a key stand in the place of an entry, all entries in front of them are
/// given, in their order, and told is that there is no entry, whatever the size of the chunks.
pub proof fn law_damaged_entry_is_told<'a, K: Key + ?Sized, V: Value>(
    file: Seq<u8>,
    start: int,
    chunk_len: int,
    stored: Seq<StoredEntry<'a, K, V>>,
    tail: Seq<u8>,
    key: &K,
)
    requires
        0 <= start <= file.len(),
        chunk_len > 0,
        aligned::fits_buffer(file.len() as int),
        file.skip(start) == entries_bytes(stored) + tail,
        forall|i: int| 0 <= i < stored.len() ==> ends_aligned(#[trigger] stored[i]),
        tail.len() > 0,
        K::scan(tail, 0, 0) == Err::<nat, ReadError>(ReadError::Invalid),
    ensures
        scan_file::<K, V>(file, start, chunk_len, Seq::empty(), State::fresh()) == (
            stored.map_values(
                |entry: StoredEntry<'a, K, V>| (entry.key.encoding(), entry.values),
            ),
            Some(DataError::Entry),
        ),
{
    K::law_layout();
    align::lemma_divisor_of_alignment(0, aligned::BUFFER_ALIGN as int, K::spec_align());
    assert(tail.skip(0) == tail);
    lemma_damage_is_told(file, start, chunk_len, stored, tail, key);
}

} // verus!
