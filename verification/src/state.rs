//! Reading an entry, or a part of it, from bytes that arrive little by little.

use crate::align;
use crate::entry;
use crate::keys;
use crate::keys::{Key, ReadError, ReadResult};
use crate::values;
use crate::values::Value;
use vstd::prelude::*;

verus! {

/// How much of an entry is wanted.
#[derive(Debug, Clone, Copy, PartialEq, Eq, Structural)]
pub enum PartialEntryKind {
    KeyOnly,
    KeyAndValuesLen,
    /// With this number of values, as far as can be guessed.
    KeyAndValues(u32),
}

impl PartialEntryKind {
    /// A guess of how many bytes are wanted. The key and the number of values may each be followed
    /// by padding, which is shorter than a value.
    pub open spec fn spec_est_size<K: Key + ?Sized, V: Value>(self) -> int {
        let v_size = values::value_size::<V>();
        match self {
            PartialEntryKind::KeyOnly => K::spec_value_size_est(),
            PartialEntryKind::KeyAndValuesLen => K::spec_value_size_est() + (v_size - 1) + 4,
            PartialEntryKind::KeyAndValues(count) => K::spec_value_size_est() + (v_size - 1) + 4 + (v_size
                - 1) + v_size * count,
        }
    }

    /// A guess of how many bytes are wanted.
    pub fn est_size<K: Key + ?Sized, V: Value>(self) -> (size: usize)
        requires
            self.spec_est_size::<K, V>() <= usize::MAX,
        ensures
            size == self.spec_est_size::<K, V>(),
    {
        proof {
            K::law_layout();
            V::law_layout();
        }
        let v_size: usize = core::mem::size_of::<V>();
        match self {
            PartialEntryKind::KeyOnly => K::VALUE_SIZE_EST,
            PartialEntryKind::KeyAndValuesLen => K::VALUE_SIZE_EST + (v_size - 1) + 4,
            PartialEntryKind::KeyAndValues(count) => {
                assert(v_size * count >= 0) by (nonlinear_arith);
                K::VALUE_SIZE_EST + (v_size - 1) + 4 + (v_size - 1) + v_size * count as usize
            },
        }
    }
}

/// What is wanted of an entry: the encoding of its key, the number of its values, the values.
pub enum PartialModel<V> {
    KeyOnly(Seq<u8>),
    KeyAndValuesLen(Seq<u8>, u32),
    KeyAndValues(Seq<u8>, Seq<V>),
}

impl<V> PartialModel<V> {
    /// The encoding of the key.
    pub open spec fn key(self) -> Seq<u8> {
        match self {
            PartialModel::KeyOnly(key) => key,
            PartialModel::KeyAndValuesLen(key, _) => key,
            PartialModel::KeyAndValues(key, _) => key,
        }
    }

    /// Whether this is what `kind` wants.
    pub open spec fn is_of(self, kind: PartialEntryKind) -> bool {
        match kind {
            PartialEntryKind::KeyOnly => self is KeyOnly,
            PartialEntryKind::KeyAndValuesLen => self is KeyAndValuesLen,
            PartialEntryKind::KeyAndValues(_) => self is KeyAndValues,
        }
    }
}

/// What is wanted of an entry.
pub enum PartialEntry<K: Key + ?Sized, V> {
    KeyOnly(K::Owned),
    KeyAndValuesLen(K::Owned, u32),
    KeyAndValues(K::Owned, Vec<V>),
}

impl<K: Key + ?Sized, V> PartialEntry<K, V> {
    /// The entry as mathematical values.
    pub open spec fn model(self) -> PartialModel<V> {
        match self {
            PartialEntry::KeyOnly(key) => PartialModel::KeyOnly(K::owned_encoding(key)),
            PartialEntry::KeyAndValuesLen(key, len) => PartialModel::KeyAndValuesLen(
                K::owned_encoding(key),
                len,
            ),
            PartialEntry::KeyAndValues(key, values) => PartialModel::KeyAndValues(
                K::owned_encoding(key),
                values@,
            ),
        }
    }
}

/// Where the key of an entry starts in bytes at `addr`.
pub open spec fn key_start<K: Key + ?Sized>(addr: int) -> int {
    align::pad_to_align(addr, K::spec_align())
}

/// The encoding of the key that takes `size` bytes of `buf`, which lies at `addr`.
pub open spec fn key_in<K: Key + ?Sized>(buf: Seq<u8>, addr: int, size: nat) -> ReadResult<
    Seq<u8>,
> {
    let start = key_start::<K>(addr);
    if start > buf.len() {
        Err(ReadError::Incomplete)
    } else if start + size > buf.len() {
        Err(ReadError::Invalid)
    } else {
        match K::scan(buf.subrange(start, start + size), addr + start, 0) {
            Ok(len) => Ok(buf.subrange(start, start + len)),
            Err(_) => Err(ReadError::Invalid),
        }
    }
}

/// What `kind` wants of the entry in `buf`, which lies at `addr`, when its key takes `size` bytes,
/// and where it ends. Behind the key and behind the number of values there is padding to a multiple
/// of the size of a value:
///
/// ```text
/// padding            padding                padding
/// ####### [ key... ] ####### [ values_len ] ####### [ values... ]
/// ```
pub open spec fn entry_parts<K: Key + ?Sized, V: Value>(
    buf: Seq<u8>,
    addr: int,
    size: nat,
    kind: PartialEntryKind,
) -> ReadResult<(PartialModel<V>, int)> {
    let v_size = values::value_size::<V>();
    let start = key_start::<K>(addr);
    if kind is KeyOnly {
        if start + size > buf.len() {
            Err(ReadError::Incomplete)
        } else {
            match key_in::<K>(buf, addr, size) {
                Ok(key) => Ok((PartialModel::KeyOnly(key), start + size)),
                Err(error) => Err(error),
            }
        }
    } else {
        let len_pos = start + align::round_up(size as int, v_size);
        match entry::len_at(buf, addr, len_pos) {
            Err(error) => Err(keys::read_error(error)),
            Ok(count) => {
                let values_pos = len_pos + align::round_up(4, v_size);
                if values_pos > buf.len() {
                    Err(ReadError::Incomplete)
                } else if kind is KeyAndValuesLen {
                    match key_in::<K>(buf, addr, size) {
                        Ok(key) => Ok((PartialModel::KeyAndValuesLen(key, count), values_pos)),
                        Err(error) => Err(error),
                    }
                } else {
                    match entry::values_at::<V>(buf, addr, values_pos, count) {
                        Err(error) => Err(keys::read_error(error)),
                        Ok(stored) => match key_in::<K>(buf, addr, size) {
                            Ok(key) => Ok(
                                (
                                    PartialModel::KeyAndValues(key, stored),
                                    values_pos + count * v_size,
                                ),
                            ),
                            Err(error) => Err(error),
                        },
                    }
                }
            },
        }
    }
}

/// Parsing state for one entry. Persists across calls to [`State::parse`] so
/// that the streaming key parse and the success-only [`State::read_key`] don't
/// re-scan bytes that have already been searched.
#[derive(Debug, Clone, Copy, PartialEq, Eq)]
pub struct State {
    /// Size in bytes of the parsed key (set once the key is fully parsed).
    pub key_size: Option<usize>,
    /// `buf.len()` last seen. Tells [`Key::from_bytes_streaming_at`] how many
    /// leading bytes have already been searched for the key terminator.
    pub searched_up_to: usize,
}

impl Default for State {
    fn default() -> (state: State)
        ensures
            state == State::fresh(),
    {
        State { key_size: None, searched_up_to: 0 }
    }
}

impl State {
    /// The state in which nothing has been searched.
    pub open spec fn fresh() -> State {
        State { key_size: None, searched_up_to: 0 }
    }

    /// How many bytes the key of the entry in `buf` takes, which lies at `addr`.
    pub open spec fn key_search<K: Key + ?Sized>(self, buf: Seq<u8>, addr: int) -> ReadResult<nat> {
        let start = key_start::<K>(addr);
        if start > buf.len() {
            Err(ReadError::Incomplete)
        } else {
            match self.key_size {
                Some(size) => Ok(size as nat),
                None => K::scan(
                    buf.skip(start),
                    addr + start,
                    if self.searched_up_to > start {
                        (self.searched_up_to - start) as nat
                    } else {
                        0
                    },
                ),
            }
        }
    }

    /// The state after a key has been looked for in `buf`, which lies at `addr`.
    pub open spec fn searched<K: Key + ?Sized>(self, buf: Seq<u8>, addr: int) -> State {
        if key_start::<K>(addr) > buf.len() || self.key_size is Some {
            self
        } else {
            match self.key_search::<K>(buf, addr) {
                Ok(size) => State { key_size: Some(size as usize), ..self },
                Err(_) => State { searched_up_to: buf.len() as usize, ..self },
            }
        }
    }

    /// What `kind` wants of the entry in `buf`, which lies at `addr`, and where it ends.
    pub open spec fn parsed<K: Key + ?Sized, V: Value>(
        self,
        buf: Seq<u8>,
        addr: int,
        kind: PartialEntryKind,
    ) -> ReadResult<(PartialModel<V>, int)> {
        match self.key_search::<K>(buf, addr) {
            Ok(size) => entry_parts::<K, V>(buf, addr, size, kind),
            Err(error) => Err(error),
        }
    }

    /// Forgets what has been searched.
    pub fn reset(&mut self)
        ensures
            *final(self) == State::fresh(),
    {
        self.key_size = None;
        self.searched_up_to = 0;
    }

    /// Parse an entry from `buf`, which lies at `addr`, according to `kind`. Returns the parsed
    /// entry and the leftover slice on success. On `Incomplete`, mutates `self` so a
    /// follow-up call with a larger `buf` can resume without re-scanning.
    pub fn parse<'a, K: Key + ?Sized, V: Value>(
        &mut self,
        buf: &'a [u8],
        addr: usize,
        kind: PartialEntryKind,
    ) -> (parsed: ReadResult<(PartialEntry<K, V>, &'a [u8])>)
        requires
            addr + buf@.len() <= usize::MAX,
        ensures
            *final(self) == old(self).searched::<K>(buf@, addr as int),
            match old(self).parsed::<K, V>(buf@, addr as int, kind) {
                Ok((model, end)) => {
                    &&& parsed matches Ok((entry, rest)) && entry.model() == model && rest@
                        == buf@.skip(end)
                    &&& 0 <= end <= buf@.len()
                },
                Err(error) => parsed == Err::<(PartialEntry<K, V>, &'a [u8]), ReadError>(error),
            },
    {
        proof {
            V::law_layout();
            K::law_layout();
        }
        let len: usize = buf.len();
        let start: usize = align::align_offset(addr, K::align());
        if start > len {
            return Err(ReadError::Incomplete);
        }
        let key_size: usize = match self.parse_key_size::<K>(buf, addr, start) {
            Ok(key_size) => key_size,
            Err(error) => {
                return Err(error);
            },
        };
        if matches!(kind, PartialEntryKind::KeyOnly) {
            if key_size > len - start {
                return Err(ReadError::Incomplete);
            }
            let rest = vstd::slice::slice_subrange(buf, start + key_size, len);
            assert(rest@ == buf@.skip(start + key_size));
            return match self.read_key::<K>(buf, addr) {
                Ok(key) => Ok((PartialEntry::KeyOnly(key), rest)),
                Err(error) => Err(error),
            };
        }
        // The key and the number of values are each padded to a multiple of the size of a value,
        // not to the alignment of what follows.
        let v_size: usize = core::mem::size_of::<V>();
        let key_pad: usize = align::align_offset(key_size, v_size);
        proof {
            align::law_padding_aligns(key_size as int, v_size as int);
            align::law_padding_aligns(4, v_size as int);
        }
        if key_size > len - start || key_pad > len - start - key_size {
            return Err(ReadError::Incomplete);
        }
        let len_pos: usize = start + key_size + key_pad;
        let values_len: u32 = match entry::read_len_at(buf, addr, len_pos) {
            Ok(values_len) => values_len,
            Err(error) => {
                return Err(error.read_error());
            },
        };
        let values_len_pad: usize = align::align_offset(4, v_size);
        if values_len_pad > len - len_pos - 4 {
            return Err(ReadError::Incomplete);
        }
        let values_pos: usize = len_pos + 4 + values_len_pad;
        if matches!(kind, PartialEntryKind::KeyAndValuesLen) {
            let rest = vstd::slice::slice_subrange(buf, values_pos, len);
            assert(rest@ == buf@.skip(values_pos as int));
            return match self.read_key::<K>(buf, addr) {
                Ok(key) => Ok((PartialEntry::KeyAndValuesLen(key, values_len), rest)),
                Err(error) => Err(error),
            };
        }
        let (values, end) = match entry::read_values_at::<V>(buf, addr, values_pos, values_len) {
            Ok(read) => read,
            Err(error) => {
                return Err(error.read_error());
            },
        };
        let rest = vstd::slice::slice_subrange(buf, end, len);
        assert(rest@ == buf@.skip(end as int));
        match self.read_key::<K>(buf, addr) {
            Ok(key) => Ok((PartialEntry::KeyAndValues(key, values), rest)),
            Err(error) => Err(error),
        }
    }

    /// Read (or recall) the entry's key length, advancing the streaming key
    /// parse only if it hasn't already finished.
    fn parse_key_size<K: Key + ?Sized>(&mut self, buf: &[u8], addr: usize, start: usize) -> (size:
        ReadResult<usize>)
        requires
            addr + buf@.len() <= usize::MAX,
            start == key_start::<K>(addr as int),
            start <= buf@.len(),
        ensures
            *final(self) == old(self).searched::<K>(buf@, addr as int),
            match old(self).key_search::<K>(buf@, addr as int) {
                Ok(found) => size matches Ok(size) && size == found && final(self).key_size == Some(
                    size,
                ),
                Err(error) => size == Err::<usize, ReadError>(error),
            },
    {
        if let Some(size) = self.key_size {
            return Ok(size);
        }
        let rest = vstd::slice::slice_subrange(buf, start, buf.len());
        assert(rest@ == buf@.skip(start as int));
        let prev_size: usize = if self.searched_up_to > start {
            self.searched_up_to - start
        } else {
            0
        };
        proof {
            K::law_found_in_bounds(rest@, addr + start, prev_size as nat);
        }
        match K::from_bytes_streaming_at(rest, addr + start, prev_size) {
            Ok(key) => {
                let size: usize = K::borrow(&key).write_bytes();
                self.key_size = Some(size);
                Ok(size)
            },
            Err(error) => {
                self.searched_up_to = buf.len();
                Err(error)
            },
        }
    }

    /// Reads the key of the entry in `buf`, which lies at `addr`. Only call after [`Self::parse`]
    /// has populated `key_size` (i.e. on success paths or after a verify check).
    pub fn read_key<K: Key + ?Sized>(&self, buf: &[u8], addr: usize) -> (key: ReadResult<K::Owned>)
        requires
            self.key_size is Some,
            addr + buf@.len() <= usize::MAX,
        ensures
            match key_in::<K>(buf@, addr as int, self.key_size->0 as nat) {
                Ok(encoding) => key matches Ok(key) && K::owned_encoding(key) == encoding,
                Err(error) => key == Err::<K::Owned, ReadError>(error),
            },
    {
        let start: usize = align::align_offset(addr, K::align());
        if start > buf.len() {
            return Err(ReadError::Incomplete);
        }
        match self.key_size {
            Some(key_size) => {
                if key_size > buf.len() - start {
                    return Err(ReadError::Invalid);
                }
                let own = vstd::slice::slice_subrange(buf, start, start + key_size);
                proof {
                    K::law_found_in_bounds(own@, addr + start, 0);
                    if let Ok(len) = K::scan(own@, addr + start, 0) {
                        assert(own@.take(len as int) == buf@.subrange(start as int, start + len));
                    }
                }
                match K::from_bytes_at(own, addr + start) {
                    Some(key) => Ok(key),
                    None => Err(ReadError::Invalid),
                }
            },
            None => Err(ReadError::Invalid),
        }
    }
}

impl State {
    /// Whether the state tells the truth of what is in `buf`, which lies at `addr`: the key has the
    /// size that is recalled, or the bytes that need not be searched hold no complete key.
    pub open spec fn knows<K: Key + ?Sized>(self, buf: Seq<u8>, addr: int) -> bool {
        let start = key_start::<K>(addr);
        match self.key_size {
            Some(size) => start <= buf.len() && K::scan(buf.skip(start), addr + start, 0) == Ok::<
                nat,
                ReadError,
            >(size as nat),
            None => {
                &&& self.searched_up_to <= buf.len()
                &&& self.searched_up_to > start ==> K::scan(
                    buf.subrange(start, self.searched_up_to as int),
                    addr + start,
                    0,
                ) == Err::<nat, ReadError>(ReadError::Incomplete)
            },
        }
    }
}

/// A state that tells the truth does so still when more bytes arrive.
pub proof fn law_state_stays_true<K: Key + ?Sized>(
    state: State,
    buf: Seq<u8>,
    more: Seq<u8>,
    addr: int,
)
    requires
        state.knows::<K>(buf, addr),
    ensures
        state.knows::<K>(buf + more, addr),
{
    K::law_layout();
    align::law_padding_aligns(addr, K::spec_align());
    let start = key_start::<K>(addr);
    if state.key_size is Some {
        assert((buf + more).skip(start) == buf.skip(start) + more);
        K::law_more_bytes_change_nothing(buf.skip(start), more, addr + start, 0);
    } else if state.searched_up_to > start {
        let end = state.searched_up_to as int;
        assert((buf + more).subrange(start, end) == buf.subrange(start, end));
    }
}

/// Resuming gives what parsing from the start would give, and the state tells the truth again.
pub proof fn law_resumed_parse_is_fresh<K: Key + ?Sized, V: Value>(
    state: State,
    buf: Seq<u8>,
    addr: int,
    kind: PartialEntryKind,
)
    requires
        state.knows::<K>(buf, addr),
        buf.len() <= usize::MAX,
    ensures
        state.parsed::<K, V>(buf, addr, kind) == State::fresh().parsed::<K, V>(buf, addr, kind),
        state.key_search::<K>(buf, addr) == State::fresh().key_search::<K>(buf, addr),
        state.key_search::<K>(buf, addr) != Err::<nat, ReadError>(ReadError::Invalid)
            ==> state.searched::<K>(buf, addr).knows::<K>(buf, addr),
{
    K::law_layout();
    align::law_padding_aligns(addr, K::spec_align());
    let start = key_start::<K>(addr);
    if start <= buf.len() {
        let entry = buf.skip(start);
        K::law_found_in_bounds(entry, addr + start, 0);
        if state.key_size is None && state.searched_up_to > start {
            let seen = buf.subrange(start, state.searched_up_to as int);
            let unseen = buf.skip(state.searched_up_to as int);
            assert(entry == seen + unseen);
            K::law_search_resumes(seen, unseen, addr + start, seen.len());
        }
        assert(buf.subrange(start, buf.len() as int) == entry);
    }
}

/// A key that is complete stays the same when more bytes arrive.
pub(crate) proof fn lemma_key_in_stays<K: Key + ?Sized>(buf: Seq<u8>, more: Seq<u8>, addr: int, size: nat)
    requires
        0 <= key_start::<K>(addr),
        key_start::<K>(addr) + size <= buf.len(),
    ensures
        key_in::<K>(buf + more, addr, size) == key_in::<K>(buf, addr, size),
{
    let start = key_start::<K>(addr);
    let own = buf.subrange(start, start + size);
    assert((buf + more).subrange(start, start + size) == own);
    K::law_found_in_bounds(own, addr + start, 0);
    if let Ok(len) = K::scan(own, addr + start, 0) {
        assert((buf + more).subrange(start, start + len) == buf.subrange(start, start + len));
    }
}

/// What has been searched is remembered: the size of a key that was found, and, where none was found,
/// that all bytes have been searched. A key that is known is not searched for again.
pub proof fn law_search_is_remembered<K: Key + ?Sized>(state: State, buf: Seq<u8>, addr: int)
    requires
        key_start::<K>(addr) <= buf.len() <= usize::MAX,
    ensures
        ({
            let after = state.searched::<K>(buf, addr);
            match state.key_search::<K>(buf, addr) {
                Ok(size) => size <= usize::MAX ==> after.key_size == Some(size as usize),
                Err(_) => after.key_size is None && after.searched_up_to == buf.len(),
            }
        }),
        state.key_size is Some ==> state.searched::<K>(buf, addr) == state,
{
}

/// A key that has been found can be read, and takes all the bytes that were found for it.
pub proof fn law_found_key_is_read<K: Key + ?Sized>(buf: Seq<u8>, addr: int)
    ensures
        State::fresh().key_search::<K>(buf, addr) matches Ok(size) ==> key_in::<K>(buf, addr, size)
            == Ok::<Seq<u8>, ReadError>(
            buf.subrange(key_start::<K>(addr), key_start::<K>(addr) + size),
        ),
{
    if let Ok(size) = State::fresh().key_search::<K>(buf, addr) {
        let start = key_start::<K>(addr);
        let rest = buf.skip(start);
        K::law_layout();
        align::law_padding_aligns(addr, K::spec_align());
        K::law_found_in_bounds(rest, addr + start, 0);
        K::law_key_needs_only_its_bytes(rest, addr + start);
        assert(rest.take(size as int) == buf.subrange(start, start + size));
    }
}

/// What has been read of an entry, or can never be, stays so when more bytes arrive.
pub proof fn law_more_bytes_keep_parse<K: Key + ?Sized, V: Value>(
    buf: Seq<u8>,
    more: Seq<u8>,
    addr: int,
    kind: PartialEntryKind,
)
    requires
        State::fresh().parsed::<K, V>(buf, addr, kind) != Err::<(PartialModel<V>, int), ReadError>(
            ReadError::Incomplete,
        ),
    ensures
        State::fresh().parsed::<K, V>(buf + more, addr, kind) == State::fresh().parsed::<K, V>(
            buf,
            addr,
            kind,
        ),
{
    let v_size = values::value_size::<V>();
    let start = key_start::<K>(addr);
    K::law_layout();
    V::law_layout();
    align::law_padding_aligns(addr, K::spec_align());
    assert((buf + more).skip(start) == buf.skip(start) + more);
    K::law_more_bytes_change_nothing(buf.skip(start), more, addr + start, 0);
    K::law_found_in_bounds(buf.skip(start), addr + start, 0);
    if let Ok(size) = State::fresh().key_search::<K>(buf, addr) {
        lemma_key_in_stays::<K>(buf, more, addr, size);
        if !(kind is KeyOnly) {
            align::law_padding_aligns(size as int, v_size);
            align::law_padding_aligns(4, v_size);
            let len_pos = start + align::round_up(size as int, v_size);
            let values_pos = len_pos + align::round_up(4, v_size);
            entry::lemma_len_at_stays(buf, more, addr, len_pos);
            if let Ok(count) = entry::len_at(buf, addr, len_pos) {
                if kind is KeyAndValues {
                    entry::lemma_values_at_stays::<V>(buf, more, addr, values_pos, count);
                }
            }
        }
    }
}

/// A parsed entry ends within the bytes. With its values, it takes some.
pub proof fn law_parsed_in_bounds<K: Key + ?Sized, V: Value>(
    state: State,
    buf: Seq<u8>,
    addr: int,
    kind: PartialEntryKind,
)
    ensures
        state.parsed::<K, V>(buf, addr, kind) matches Ok((_, end)) ==> 0 <= end <= buf.len() && (
        kind is KeyAndValues ==> 0 < end),
{
    let v_size = values::value_size::<V>();
    let start = key_start::<K>(addr);
    K::law_layout();
    V::law_layout();
    align::law_padding_aligns(addr, K::spec_align());
    if let Ok(size) = state.key_search::<K>(buf, addr) {
        align::law_padding_aligns(size as int, v_size);
        align::law_padding_aligns(4, v_size);
        if let Ok(count) = entry::len_at(buf, addr, start + align::round_up(size as int, v_size)) {
            assert(0 <= count * v_size) by (nonlinear_arith)
                requires
                    count >= 0,
                    v_size >= 0,
            ;
        }
    }
}

/// What has been read of an entry needs no bytes behind its end.
pub proof fn law_parse_needs_only_its_bytes<K: Key + ?Sized, V: Value>(
    buf: Seq<u8>,
    addr: int,
    kind: PartialEntryKind,
)
    requires
        State::fresh().parsed::<K, V>(buf, addr, kind) is Ok,
    ensures
        ({
            let parsed = State::fresh().parsed::<K, V>(buf, addr, kind);
            let end = parsed->Ok_0.1;
            &&& 0 <= end <= buf.len()
            &&& State::fresh().parsed::<K, V>(buf.take(end), addr, kind) == parsed
        }),
{
    let v_size = values::value_size::<V>();
    let start = key_start::<K>(addr);
    let end = State::fresh().parsed::<K, V>(buf, addr, kind)->Ok_0.1;
    let own = buf.take(end);
    let rest = buf.skip(start);
    let size = State::fresh().key_search::<K>(buf, addr)->Ok_0;
    K::law_layout();
    V::law_layout();
    align::law_padding_aligns(addr, K::spec_align());
    align::law_padding_aligns(size as int, v_size);
    align::law_padding_aligns(4, v_size);
    law_parsed_in_bounds::<K, V>(State::fresh(), buf, addr, kind);
    K::law_found_in_bounds(rest, addr + start, 0);
    K::law_key_needs_only_its_bytes(rest, addr + start);
    let len_pos = start + align::round_up(size as int, v_size);
    if let Ok(count) = entry::len_at(buf, addr, len_pos) {
        assert(0 <= count * v_size) by (nonlinear_arith)
            requires
                count >= 0,
                v_size >= 0,
        ;
        if !(kind is KeyOnly) {
            assert(own.subrange(len_pos, len_pos + 4) == buf.subrange(len_pos, len_pos + 4));
        }
    }
    let key = rest.take(size as int);
    assert(own.skip(start) == key + own.skip(start + size));
    K::law_more_bytes_change_nothing(key, own.skip(start + size), addr + start, 0);
    law_more_bytes_keep_parse::<K, V>(own, buf.skip(end), addr, kind);
    assert(own + buf.skip(end) == buf);
}

/// An entry and the paddings that it is stored with.
pub struct StoredEntry<'a, K: ?Sized, V> {
    pub key: &'a K,
    pub values: Seq<V>,
    pub before_key: Seq<u8>,
    pub before_len: Seq<u8>,
    pub before_values: Seq<u8>,
}

impl<'a, K: Key + ?Sized, V: Value> StoredEntry<'a, K, V> {
    /// The bytes that are stored.
    pub open spec fn bytes(self) -> Seq<u8> {
        self.before_key + self.key.encoding() + self.before_len + (self.values.len() as u32).native()
            + self.before_values + values::values_bytes(self.values)
    }

    /// Where the number of values is.
    pub open spec fn len_pos(self) -> int {
        (self.before_key.len() + self.key.encoding().len() + self.before_len.len()) as int
    }

    /// Where the values are.
    pub open spec fn values_pos(self) -> int {
        self.len_pos() + 4 + self.before_values.len()
    }

    /// Whether the paddings have the sizes they have in an entry at `addr`, there are no more
    /// values than can be counted and held, and what `kind` wants lies at aligned addresses.
    pub open spec fn is_laid_out(self, addr: int, kind: PartialEntryKind) -> bool {
        let v_size = values::value_size::<V>();
        &&& self.values.len() <= u32::MAX
        &&& self.values.len() * v_size <= isize::MAX
        &&& self.before_key.len() == align::pad_to_align(addr, K::spec_align())
        &&& self.before_len.len() == align::pad_to_align(self.key.encoding().len() as int, v_size)
        &&& self.before_values.len() == align::pad_to_align(4, v_size)
        &&& kind is KeyOnly || (addr + self.len_pos()) % entry::len_align() == 0
        &&& kind is KeyAndValues ==> (addr + self.values_pos()) % values::value_align::<V>() == 0
    }

    /// What `kind` wants of the entry.
    pub open spec fn wanted(self, kind: PartialEntryKind) -> PartialModel<V> {
        match kind {
            PartialEntryKind::KeyOnly => PartialModel::KeyOnly(self.key.encoding()),
            PartialEntryKind::KeyAndValuesLen => PartialModel::KeyAndValuesLen(
                self.key.encoding(),
                self.values.len() as u32,
            ),
            PartialEntryKind::KeyAndValues(_) => PartialModel::KeyAndValues(
                self.key.encoding(),
                self.values,
            ),
        }
    }
}

/// The key of a stored entry is known as soon as its bytes are there.
pub proof fn law_stored_key_is_known<K: Key + ?Sized>(
    key: &K,
    before_key: Seq<u8>,
    behind: Seq<u8>,
    addr: int,
)
    requires
        before_key.len() == key_start::<K>(addr),
    ensures
        ({
            let buf = before_key + key.encoding() + behind;
            &&& State::fresh().key_search::<K>(buf, addr) == Ok::<nat, ReadError>(
                key.encoding().len(),
            )
            &&& key_in::<K>(buf, addr, key.encoding().len()) == Ok::<Seq<u8>, ReadError>(
                key.encoding(),
            )
        }),
{
    let buf = before_key + key.encoding() + behind;
    let start = before_key.len() as int;
    let size = key.encoding().len() as int;
    K::law_layout();
    align::law_padding_aligns(addr, K::spec_align());
    assert(buf.skip(start) == key.encoding() + behind);
    key.law_stored_key_is_found(behind, addr + start);
    key.law_stored_key_is_found(Seq::empty(), addr + start);
    assert(key.encoding() + Seq::<u8>::empty() == key.encoding());
    assert(buf.subrange(start, start + size) == key.encoding());
}

/// What is wanted of a stored entry is read back, whatever its paddings hold and whatever follows
/// it. With all of it wanted, it is read to its end.
pub proof fn law_stored_entry_is_read<'a, K: Key + ?Sized, V: Value>(
    stored: StoredEntry<'a, K, V>,
    rest: Seq<u8>,
    addr: int,
    kind: PartialEntryKind,
)
    requires
        stored.is_laid_out(addr, kind),
    ensures
        State::fresh().parsed::<K, V>(stored.bytes() + rest, addr, kind) matches Ok((model, end))
            && model == stored.wanted(kind) && end == (match kind {
            PartialEntryKind::KeyOnly => stored.before_key.len() + stored.key.encoding().len(),
            PartialEntryKind::KeyAndValuesLen => stored.values_pos() as nat,
            PartialEntryKind::KeyAndValues(_) => stored.bytes().len(),
        }),
{
    broadcast use vstd::layout::layout_of_primitives;

    let count = stored.values.len() as u32;
    let buf = stored.bytes() + rest;
    let vals = values::values_bytes(stored.values);
    let to_key = stored.before_key + stored.key.encoding();
    K::law_layout();
    V::law_layout();
    count.law_value_has_its_bytes();
    values::lemma_values_bytes_len(stored.values);
    let behind_key = stored.before_len + count.native() + stored.before_values + vals + rest;
    assert(buf == to_key + behind_key);
    law_stored_key_is_known(stored.key, stored.before_key, behind_key, addr);
    if !(kind is KeyOnly) {
        let to_len = to_key + stored.before_len;
        let behind_len = stored.before_values + vals + rest;
        assert(buf == to_len + (count.native() + behind_len));
        entry::lemma_len_is_read(to_len, count, behind_len, addr);
        if kind is KeyAndValues {
            let to_values = to_len + count.native() + stored.before_values;
            assert(buf == to_values + (vals + rest));
            entry::lemma_values_are_read(to_values, stored.values, rest, addr);
        }
    }
}

/// As long as a part of a stored entry is missing, more bytes are asked for: it is not refused, nor
/// taken for a shorter entry.
pub proof fn law_partial_entry_is_incomplete<'a, K: Key + ?Sized, V: Value>(
    stored: StoredEntry<'a, K, V>,
    present: int,
    addr: int,
    kind: PartialEntryKind,
)
    requires
        kind is KeyAndValues,
        stored.is_laid_out(addr, kind),
        0 <= present < stored.bytes().len(),
    ensures
        State::fresh().parsed::<K, V>(stored.bytes().take(present), addr, kind) == Err::<
            (PartialModel<V>, int),
            ReadError,
        >(ReadError::Incomplete),
{
    let bytes = stored.bytes();
    let there = bytes.take(present);
    law_stored_entry_is_read(stored, Seq::empty(), addr, kind);
    assert(bytes + Seq::<u8>::empty() == bytes);
    if State::fresh().parsed::<K, V>(there, addr, kind) != Err::<(PartialModel<V>, int), ReadError>(
        ReadError::Incomplete,
    ) {
        law_more_bytes_keep_parse::<K, V>(there, bytes.skip(present), addr, kind);
        assert(there + bytes.skip(present) == bytes);
        law_parsed_in_bounds::<K, V>(State::fresh(), there, addr, kind);
    }
}

/// Of a stored entry whose first `present` bytes are there, what is wanted is read as soon as they
/// hold it, and not before: the key with its last byte, the number of values with the padding behind
/// it, and the values with the last of them. Until then more bytes are asked for.
pub proof fn law_part_of_stored_entry_is_read<'a, K: Key + ?Sized, V: Value>(
    stored: StoredEntry<'a, K, V>,
    present: int,
    addr: int,
    kind: PartialEntryKind,
)
    requires
        stored.is_laid_out(addr, kind),
        0 <= present <= stored.bytes().len(),
    ensures
        ({
            let there = stored.bytes().take(present);
            let key = stored.key.encoding();
            let key_end = stored.before_key.len() + key.len();
            let len_end = key_end + stored.before_len.len() + 4 + stored.before_values.len();
            let (wanted, needed) = match kind {
                PartialEntryKind::KeyOnly => (PartialModel::<V>::KeyOnly(key), key_end as int),
                PartialEntryKind::KeyAndValuesLen => (
                    PartialModel::<V>::KeyAndValuesLen(key, stored.values.len() as u32),
                    len_end as int,
                ),
                PartialEntryKind::KeyAndValues(_) => (
                    PartialModel::KeyAndValues(key, stored.values),
                    stored.bytes().len() as int,
                ),
            };
            State::fresh().parsed::<K, V>(there, addr, kind) == (if present < needed {
                Err::<(PartialModel<V>, int), ReadError>(ReadError::Incomplete)
            } else {
                Ok((wanted, needed))
            })
        }),
{
    let bytes = stored.bytes();
    let there = bytes.take(present);
    law_stored_entry_is_read(stored, Seq::empty(), addr, kind);
    assert(bytes + Seq::<u8>::empty() == bytes);
    law_parse_needs_only_its_bytes::<K, V>(bytes, addr, kind);
    let end = State::fresh().parsed::<K, V>(bytes, addr, kind)->Ok_0.1;
    if present < end {
        if State::fresh().parsed::<K, V>(there, addr, kind) != Err::<
            (PartialModel<V>, int),
            ReadError,
        >(ReadError::Incomplete) {
            law_more_bytes_keep_parse::<K, V>(there, bytes.skip(present), addr, kind);
            assert(there + bytes.skip(present) == bytes);
            law_parsed_in_bounds::<K, V>(State::fresh(), there, addr, kind);
        }
    } else {
        law_more_bytes_keep_parse::<K, V>(
            bytes.take(end),
            bytes.subrange(end, present),
            addr,
            kind,
        );
        assert(bytes.take(end) + bytes.subrange(end, present) == there);
    }
}

/// An entry whose number of values, or whose values, lie at an address that is not aligned for them is
/// refused when they are wanted, and its key is still read when nothing else is.
pub proof fn law_misaligned_entry_is_refused<'a, K: Key + ?Sized, V: Value>(
    stored: StoredEntry<'a, K, V>,
    rest: Seq<u8>,
    addr: int,
    kind: PartialEntryKind,
)
    requires
        stored.is_laid_out(addr, PartialEntryKind::KeyOnly),
        stored.values_pos() <= (stored.bytes() + rest).len(),
        ({
            ||| !(kind is KeyOnly) && (addr + stored.len_pos()) % entry::len_align() != 0
            ||| kind is KeyAndValues && (addr + stored.values_pos()) % values::value_align::<V>()
                != 0
        }),
    ensures
        State::fresh().parsed::<K, V>(stored.bytes() + rest, addr, kind) == Err::<
            (PartialModel<V>, int),
            ReadError,
        >(ReadError::Invalid),
{
    broadcast use vstd::layout::layout_of_primitives;

    let count = stored.values.len() as u32;
    let buf = stored.bytes() + rest;
    let vals = values::values_bytes(stored.values);
    let to_key = stored.before_key + stored.key.encoding();
    K::law_layout();
    V::law_layout();
    count.law_value_has_its_bytes();
    values::lemma_values_bytes_len(stored.values);
    let behind_key = stored.before_len + count.native() + stored.before_values + vals + rest;
    assert(buf == to_key + behind_key);
    law_stored_key_is_known(stored.key, stored.before_key, behind_key, addr);
    let to_len = to_key + stored.before_len;
    let behind_len = stored.before_values + vals + rest;
    assert(buf == to_len + (count.native() + behind_len));
    if (addr + stored.len_pos()) % entry::len_align() == 0 {
        entry::lemma_len_is_read(to_len, count, behind_len, addr);
    }
}

/// A key of a known size is read from the bytes behind the padding that are its own, whatever follows
/// them. Where the padding is not all there, more bytes may come, and bytes that are no such key, or
/// are fewer, are refused.
pub proof fn law_key_of_known_size<K: Key + ?Sized>(
    key: &K,
    before_key: Seq<u8>,
    own: Seq<u8>,
    behind: Seq<u8>,
    addr: int,
)
    ensures
        before_key.len() < key_start::<K>(addr) ==> key_in::<K>(before_key, addr, own.len()) == Err::<
            Seq<u8>,
            ReadError,
        >(ReadError::Incomplete),
        before_key.len() == key_start::<K>(addr) ==> {
            let there = before_key + own + behind;
            &&& own == key.encoding() ==> key_in::<K>(there, addr, own.len()) == Ok::<
                Seq<u8>,
                ReadError,
            >(key.encoding())
            &&& K::scan(own, addr + before_key.len(), 0) is Err ==> key_in::<K>(
                there,
                addr,
                own.len(),
            ) == Err::<Seq<u8>, ReadError>(ReadError::Invalid)
            &&& forall|size: nat|
                size > own.len() + behind.len() ==> #[trigger] key_in::<K>(there, addr, size)
                    == Err::<Seq<u8>, ReadError>(ReadError::Invalid)
        },
{
    if before_key.len() == key_start::<K>(addr) {
        let there = before_key + own + behind;
        let start = before_key.len() as int;
        assert(there.subrange(start, start + own.len()) == own);
        if own == key.encoding() {
            law_stored_key_is_known(key, before_key, behind, addr);
        }
    }
}

/// Bytes that can never be a key are refused, whatever is wanted of the entry.
pub proof fn law_damaged_key_is_refused<K: Key + ?Sized, V: Value>(
    before_key: Seq<u8>,
    rest: Seq<u8>,
    addr: int,
    kind: PartialEntryKind,
)
    requires
        before_key.len() == key_start::<K>(addr),
        K::scan(rest, addr + before_key.len(), 0) == Err::<nat, ReadError>(ReadError::Invalid),
    ensures
        State::fresh().parsed::<K, V>(before_key + rest, addr, kind) == Err::<
            (PartialModel<V>, int),
            ReadError,
        >(ReadError::Invalid),
{
    assert((before_key + rest).skip(before_key.len() as int) == rest);
}

/// What is guessed to be wanted of an entry is enough for what is wanted of it, unless its key is
/// longer than a key is guessed to be, or it has more values than are guessed. It is no more than the
/// longest paddings more than that where neither is shorter.
pub proof fn law_estimate_suffices<'a, K: Key + ?Sized, V: Value>(
    stored: StoredEntry<'a, K, V>,
    addr: int,
    kind: PartialEntryKind,
)
    requires
        stored.is_laid_out(addr, kind),
    ensures
        ({
            let v_size = values::value_size::<V>();
            let key_size = stored.key.encoding().len() as int;
            let est = kind.spec_est_size::<K, V>();
            let needed = match kind {
                PartialEntryKind::KeyOnly => key_size,
                PartialEntryKind::KeyAndValuesLen => key_size + stored.before_len.len() + 4,
                PartialEntryKind::KeyAndValues(_) => stored.bytes().len()
                    - stored.before_key.len(),
            };
            let paddings = match kind {
                PartialEntryKind::KeyOnly => 0int,
                PartialEntryKind::KeyAndValuesLen => v_size - 1,
                PartialEntryKind::KeyAndValues(_) => 2 * (v_size - 1),
            };
            &&& key_size <= K::spec_value_size_est() && (kind matches PartialEntryKind::KeyAndValues(
                count,
            ) ==> stored.values.len() <= count) ==> needed <= est
            &&& key_size >= K::spec_value_size_est() && (kind matches PartialEntryKind::KeyAndValues(
                count,
            ) ==> stored.values.len() >= count) ==> est <= needed + paddings
        }),
{
    broadcast use vstd::layout::layout_of_primitives;

    let v_size = values::value_size::<V>();
    K::law_layout();
    V::law_layout();
    (stored.values.len() as u32).law_value_has_its_bytes();
    values::lemma_values_bytes_len(stored.values);
    align::law_padding_aligns(stored.key.encoding().len() as int, v_size);
    align::law_padding_aligns(4, v_size);
    if let PartialEntryKind::KeyAndValues(count) = kind {
        let len = stored.values.len() as int;
        if len <= count {
            assert(len * v_size <= v_size * count) by (nonlinear_arith)
                requires
                    len <= count,
                    v_size > 0,
            ;
        }
        if len >= count {
            assert(len * v_size >= v_size * count) by (nonlinear_arith)
                requires
                    len >= count,
                    v_size > 0,
            ;
        }
    }
}

/// Of an address it matters only how far it is from one that is aligned for a key, for a number of
/// values and for a value.
pub proof fn law_only_alignment_matters<K: Key + ?Sized, V: Value>(
    state: State,
    buf: Seq<u8>,
    addr: int,
    other: int,
    kind: PartialEntryKind,
)
    requires
        addr % K::spec_align() == other % K::spec_align(),
        addr % entry::len_align() == other % entry::len_align(),
        addr % values::value_align::<V>() == other % values::value_align::<V>(),
    ensures
        state.parsed::<K, V>(buf, addr, kind) == state.parsed::<K, V>(buf, other, kind),
        state.searched::<K>(buf, addr) == state.searched::<K>(buf, other),
        forall|size: nat| #[trigger]
            key_in::<K>(buf, addr, size) == key_in::<K>(buf, other, size),
{
    broadcast use vstd::layout::align_nonzero;

    let v_size = values::value_size::<V>();
    let start = key_start::<K>(addr);
    K::law_layout();
    align::law_padding_aligns(addr, K::spec_align());
    align::law_padding_aligns(other, K::spec_align());
    assert(key_start::<K>(other) == start);
    let prev_size = if state.searched_up_to > start {
        (state.searched_up_to - start) as nat
    } else {
        0
    };
    K::law_only_alignment_matters(buf.skip(start), addr + start, other + start, prev_size);
    assert forall|size: nat| #[trigger]
        key_in::<K>(buf, addr, size) == key_in::<K>(buf, other, size) by {
        K::law_only_alignment_matters(
            buf.subrange(start, start + size),
            addr + start,
            other + start,
            0,
        );
    }
    if let Ok(size) = state.key_search::<K>(buf, addr) {
        let len_pos = start + align::round_up(size as int, v_size);
        let values_pos = len_pos + align::round_up(4, v_size);
        align::lemma_same_distance(addr, other, len_pos, entry::len_align());
        align::lemma_same_distance(addr, other, values_pos, values::value_align::<V>());
    }
}

} // verus!
