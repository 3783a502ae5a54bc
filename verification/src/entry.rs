//! Stored entries: a key, the number of its values, and the values, each behind some padding.

use crate::align;
use crate::keys;
use crate::keys::{ConvertError, Key, ReadError};
use crate::native;
use crate::values;
use crate::values::Value;
use vstd::prelude::*;

verus! {

/// The alignment of the stored number of values.
pub open spec fn len_align() -> int {
    vstd::layout::align_of::<u32>() as int
}

/// The number of values that is stored at `buf[at..]`, where `buf` lies at `addr`.
pub open spec fn len_at(buf: Seq<u8>, addr: int, at: int) -> Result<u32, ConvertError> {
    if at > buf.len() {
        Err(ConvertError::Size)
    } else {
        match keys::cast_outcome(addr + at, len_align(), buf.len() - at, 4) {
            Ok(()) => Ok(native::native_value(buf.subrange(at, at + 4)) as u32),
            Err(error) => Err(error),
        }
    }
}

/// The `count` values that are stored at `buf[at..]`, where `buf` lies at `addr`.
pub open spec fn values_at<V: Value>(buf: Seq<u8>, addr: int, at: int, count: u32) -> Result<
    Seq<V>,
    ConvertError,
> {
    if at > buf.len() {
        Err(ConvertError::Size)
    } else {
        match values::values_outcome::<V>(addr + at, buf.len() - at, count) {
            Ok(()) => Ok(values::values_in::<V>(buf.skip(at), count as nat)),
            Err(error) => Err(error),
        }
    }
}

/// Reads the number of values at `buf[at..]`, where `buf` lies at `addr`.
pub(crate) fn read_len_at(buf: &[u8], addr: usize, at: usize) -> (read: Result<u32, ConvertError>)
    requires
        addr + buf@.len() <= usize::MAX,
        at <= buf@.len(),
    ensures
        read == len_at(buf@, addr as int, at as int),
{
    broadcast use vstd::layout::align_nonzero;

    let rest = vstd::slice::slice_subrange(buf, at, buf.len());
    match keys::check_cast(addr + at, core::mem::align_of::<u32>(), rest.len(), 4) {
        Ok(()) => {
            assert(rest@.take(4) == buf@.subrange(at as int, at + 4));
            match native::read_u32(rest) {
                Some((len, _)) => Ok(len),
                None => Err(ConvertError::Size),
            }
        },
        Err(error) => Err(error),
    }
}

/// Reads the `count` values at `buf[at..]`, where `buf` lies at `addr`, and tells where they end.
pub(crate) fn read_values_at<V: Value>(
    buf: &[u8],
    addr: usize,
    at: usize,
    count: u32,
) -> (read: Result<(Vec<V>, usize), ConvertError>)
    requires
        addr + buf@.len() <= usize::MAX,
        at <= buf@.len(),
    ensures
        match values_at::<V>(buf@, addr as int, at as int, count) {
            Ok(values) => read matches Ok((read_values, end)) && read_values@ == values && end == at
                + count * values::value_size::<V>() && end <= buf@.len(),
            Err(error) => read == Err::<(Vec<V>, usize), ConvertError>(error),
        },
{
    match values::check_values::<V>(addr + at, buf.len() - at, count) {
        Ok(()) => {
            let rest = vstd::slice::slice_subrange(buf, at, buf.len());
            assert(rest@ == buf@.skip(at as int));
            let size: usize = core::mem::size_of::<V>();
            let end: usize = at + count as usize * size;
            Ok((values::read_values::<V>(rest, count as usize), end))
        },
        Err(error) => Err(error),
    }
}

/// The position from `pos` on whose address is a multiple of `alignment`, where position 0 lies at
/// `addr` and `len` bytes follow.
fn align_position(alignment: usize, addr: usize, pos: usize, len: usize) -> (aligned: Option<usize>)
    requires
        alignment > 0,
        pos <= len,
        addr + len <= usize::MAX,
    ensures
        ({
            let next = pos + align::pad_to_align(addr + pos, alignment as int);
            aligned == (if next <= len {
                Some(next as usize)
            } else {
                None
            })
        }),
{
    let padding: usize = align::align_offset(addr + pos, alignment);
    if padding <= len - pos {
        Some(pos + padding)
    } else {
        None
    }
}

/// More bytes change nothing where a number of values was read, or can never be.
pub(crate) proof fn lemma_len_at_stays(buf: Seq<u8>, more: Seq<u8>, addr: int, at: int)
    requires
        0 <= at,
        len_at(buf, addr, at) != Err::<u32, ConvertError>(ConvertError::Size),
    ensures
        len_at(buf + more, addr, at) == len_at(buf, addr, at),
{
    if len_at(buf, addr, at) is Ok {
        assert((buf + more).subrange(at, at + 4) == buf.subrange(at, at + 4));
    }
}

/// More bytes change nothing where values were read, or can never be.
pub(crate) proof fn lemma_values_at_stays<V: Value>(
    buf: Seq<u8>,
    more: Seq<u8>,
    addr: int,
    at: int,
    count: u32,
)
    requires
        0 <= at,
        values_at::<V>(buf, addr, at, count) != Err::<Seq<V>, ConvertError>(ConvertError::Size),
    ensures
        values_at::<V>(buf + more, addr, at, count) == values_at::<V>(buf, addr, at, count),
{
    if values_at::<V>(buf, addr, at, count) is Ok {
        assert((buf + more).skip(at) == buf.skip(at) + more);
        values::lemma_values_in_prefix::<V>(buf.skip(at), more, count as nat);
    }
}

/// A stored number of values is read back.
pub(crate) proof fn lemma_len_is_read(before: Seq<u8>, len: u32, after: Seq<u8>, addr: int)
    requires
        (addr + before.len()) % len_align() == 0,
    ensures
        len_at(before + (len.native() + after), addr, before.len() as int) == Ok::<
            u32,
            ConvertError,
        >(len),
{
    broadcast use vstd::layout::layout_of_primitives;

    let at = before.len() as int;
    len.law_value_has_its_bytes();
    assert((before + (len.native() + after)).subrange(at, at + 4) == len.native());
}

/// Stored values are read back.
pub(crate) proof fn lemma_values_are_read<V: Value>(
    before: Seq<u8>,
    stored: Seq<V>,
    after: Seq<u8>,
    addr: int,
)
    requires
        (addr + before.len()) % values::value_align::<V>() == 0,
        stored.len() <= u32::MAX,
        stored.len() * values::value_size::<V>() <= isize::MAX,
    ensures
        values_at::<V>(
            before + (values::values_bytes(stored) + after),
            addr,
            before.len() as int,
            stored.len() as u32,
        ) == Ok::<Seq<V>, ConvertError>(stored),
{
    let at = before.len() as int;
    values::lemma_values_bytes_len(stored);
    values::law_stored_values_are_found(stored, after);
    assert((before + (values::values_bytes(stored) + after)).skip(at) == values::values_bytes(
        stored,
    ) + after);
}

/// What of an entry is there: nothing that can ever be an entry, not even a key, or the encoding
/// of a key, the number of its values, and the values with the position behind them.
pub enum EntryModel<V> {
    Invalid,
    NoKey,
    Key(Seq<u8>),
    KeyAndValuesLen(Seq<u8>, u32),
    KeyAndValues(Seq<u8>, Seq<V>, int),
}

/// The entry at the start of `buf`, which lies at `addr`. The key, the number of values and the
/// values each lie at an address that is a multiple of their alignment, of four, or of their size:
///
/// ```text
/// ┌─1:pad─┬────2:key─────┬─3:pad─┬─4:len─┬─5:pad─┬─────6:vals─────┐
/// │ · · · │ "abcdef\xFF" │ · · · │   5   │ · · · │ 10 20 30 40 50 │
/// └───────┴──────────────┴───────┴───────┴───────┴────────────────┘
/// ```
pub open spec fn entry_model<K: Key + ?Sized, V: Value>(buf: Seq<u8>, addr: int) -> EntryModel<V> {
    let start = align::pad_to_align(addr, K::spec_align());
    if start > buf.len() {
        EntryModel::NoKey
    } else {
        match K::scan(buf.skip(start), addr + start, 0) {
            Err(ReadError::Incomplete) => EntryModel::NoKey,
            Err(ReadError::Invalid) => EntryModel::Invalid,
            Ok(size) => {
                let key = buf.subrange(start, start + size);
                let len_pos = start + size + align::pad_to_align(addr + start + size, 4);
                match len_at(buf, addr, len_pos) {
                    Err(ConvertError::Alignment) => EntryModel::Invalid,
                    Err(ConvertError::Size) => EntryModel::Key(key),
                    Ok(count) => {
                        let values_pos = len_pos + 4 + align::pad_to_align(
                            addr + len_pos + 4,
                            values::value_size::<V>(),
                        );
                        match values_at::<V>(buf, addr, values_pos, count) {
                            Err(ConvertError::Alignment) => EntryModel::Invalid,
                            Err(ConvertError::Size) => EntryModel::KeyAndValuesLen(key, count),
                            Ok(stored) => EntryModel::KeyAndValues(
                                key,
                                stored,
                                values_pos + count * values::value_size::<V>(),
                            ),
                        }
                    },
                }
            },
        }
    }
}

/// As much of an entry as could be read.
pub enum ParsedEntry<'a, K: Key + ?Sized, V> {
    Invalid,
    NoKey,
    Key(K::Owned),
    KeyAndValuesLen(K::Owned, u32),
    KeyAndValues(K::Owned, Vec<V>, &'a [u8]),
}

impl<'a, K: Key + ?Sized, V> ParsedEntry<'a, K, V> {
    /// Whether this is what `model` says of the entry in `buf`.
    pub open spec fn is_model(self, model: EntryModel<V>, buf: Seq<u8>) -> bool {
        match model {
            EntryModel::Invalid => self is Invalid,
            EntryModel::NoKey => self is NoKey,
            EntryModel::Key(encoding) => self matches ParsedEntry::Key(key) && K::owned_encoding(key)
                == encoding,
            EntryModel::KeyAndValuesLen(encoding, count) => {
                self matches ParsedEntry::KeyAndValuesLen(key, len) && K::owned_encoding(key)
                    == encoding && len == count
            },
            EntryModel::KeyAndValues(encoding, stored, end) => {
                self matches ParsedEntry::KeyAndValues(key, values, rest) && K::owned_encoding(key)
                    == encoding && values@ == stored && rest@ == buf.skip(end)
            },
        }
    }
}

/// Reads the entry at the start of `buf`, which lies at `addr`.
pub fn parse_entry_at<'a, K: Key + ?Sized, V: Value>(buf: &'a [u8], addr: usize) -> (entry:
    ParsedEntry<'a, K, V>)
    requires
        addr + buf@.len() <= usize::MAX,
        vstd::arithmetic::power2::is_pow2(values::value_size::<V>()),
    ensures
        entry.is_model(entry_model::<K, V>(buf@, addr as int), buf@),
{
    proof {
        V::law_layout();
    }
    let len: usize = buf.len();
    // 1. padding for the key
    let start: usize = match align_position(K::align(), addr, 0, len) {
        Some(start) => start,
        None => {
            return ParsedEntry::NoKey;
        },
    };
    let rest = vstd::slice::slice_subrange(buf, start, len);
    assert(rest@ == buf@.skip(start as int));
    // 2. key
    let key = match K::from_bytes_streaming_at(rest, addr + start, 0) {
        Ok(key) => key,
        Err(ReadError::Incomplete) => {
            return ParsedEntry::NoKey;
        },
        Err(ReadError::Invalid) => {
            return ParsedEntry::Invalid;
        },
    };
    proof {
        K::law_found_in_bounds(rest@, addr + start, 0);
    }
    let ghost size = K::scan(rest@, addr + start, 0)->Ok_0;
    assert(rest@.take(size as int) == buf@.subrange(start as int, start + size));
    let key_end: usize = start + K::borrow(&key).write_bytes();
    // 3. padding for the number of values
    let len_pos: usize = match align_position(4, addr, key_end, len) {
        Some(len_pos) => len_pos,
        None => {
            return ParsedEntry::Key(key);
        },
    };
    // 4. the number of values
    let count: u32 = match read_len_at(buf, addr, len_pos) {
        Ok(count) => count,
        Err(ConvertError::Alignment) => {
            return ParsedEntry::Invalid;
        },
        Err(ConvertError::Size) => {
            return ParsedEntry::Key(key);
        },
    };
    // 5. padding for the values
    let values_pos: usize = match align_position(core::mem::size_of::<V>(), addr, len_pos + 4, len) {
        Some(values_pos) => values_pos,
        None => {
            return ParsedEntry::KeyAndValuesLen(key, count);
        },
    };
    // 6. values
    match read_values_at::<V>(buf, addr, values_pos, count) {
        Ok((values, end)) => {
            let rest = vstd::slice::slice_subrange(buf, end, len);
            assert(rest@ == buf@.skip(end as int));
            ParsedEntry::KeyAndValues(key, values, rest)
        },
        Err(ConvertError::Alignment) => ParsedEntry::Invalid,
        Err(ConvertError::Size) => ParsedEntry::KeyAndValuesLen(key, count),
    }
}

/// Reads the entry at the start of `buf`, wherever it lies.
pub fn parse_entry<'a, K: Key + ?Sized, V: Value>(buf: &'a [u8]) -> (entry: ParsedEntry<'a, K, V>)
    requires
        vstd::arithmetic::power2::is_pow2(values::value_size::<V>()),
    ensures
        exists|addr: usize|
            entry.is_model(#[trigger] entry_model::<K, V>(buf@, addr as int), buf@),
{
    parse_entry_at::<K, V>(buf, align::slice_address(buf))
}

/// What has been read of an entry stays when more bytes arrive: the key, the number of values and
/// the values. What can never be an entry stays so, and what can be one stays so when its key has
/// been read.
pub proof fn law_more_bytes_keep_entry<K: Key + ?Sized, V: Value>(
    buf: Seq<u8>,
    more: Seq<u8>,
    addr: int,
)
    ensures
        ({
            let later = entry_model::<K, V>(buf + more, addr);
            match entry_model::<K, V>(buf, addr) {
                EntryModel::Invalid => later is Invalid,
                EntryModel::NoKey => true,
                EntryModel::Key(key) => match later {
                    EntryModel::Key(same) => same == key,
                    EntryModel::KeyAndValuesLen(same, _) => same == key,
                    EntryModel::KeyAndValues(same, _, _) => same == key,
                    _ => false,
                },
                EntryModel::KeyAndValuesLen(key, count) => match later {
                    EntryModel::KeyAndValuesLen(same, len) => same == key && len == count,
                    EntryModel::KeyAndValues(same, stored, _) => same == key && stored.len()
                        == count,
                    _ => false,
                },
                EntryModel::KeyAndValues(key, stored, end) => later == EntryModel::KeyAndValues(
                    key,
                    stored,
                    end,
                ),
            }
        }),
{
    broadcast use {
        vstd::layout::layout_of_primitives,
        vstd::layout::align_properties,
        vstd::layout::align_nonzero,
    };

    K::law_layout();
    V::law_layout();
    align::law_padding_aligns(addr, K::spec_align());
    let start = align::pad_to_align(addr, K::spec_align());
    let entry = buf.skip(start);
    if start <= buf.len() && K::scan(entry, addr + start, 0) != Err::<nat, ReadError>(
        ReadError::Incomplete,
    ) {
        assert((buf + more).skip(start) == entry + more);
        K::law_more_bytes_change_nothing(entry, more, addr + start, 0);
        K::law_found_in_bounds(entry, addr + start, 0);
        if let Ok(size) = K::scan(entry, addr + start, 0) {
            assert((buf + more).subrange(start, start + size) == buf.subrange(start, start + size));
            align::law_padding_aligns(addr + start + size, 4);
            let len_pos = start + size + align::pad_to_align(addr + start + size, 4);
            align::lemma_divisor_of_alignment(addr + len_pos, 4, len_align());
            if let Ok(count) = len_at(buf, addr, len_pos) {
                lemma_len_at_stays(buf, more, addr, len_pos);
            }
            if let Ok(count) = len_at(buf + more, addr, len_pos) {
                align::law_padding_aligns(addr + len_pos + 4, values::value_size::<V>());
                let values_pos = len_pos + 4 + align::pad_to_align(
                    addr + len_pos + 4,
                    values::value_size::<V>(),
                );
                align::lemma_divisor_of_alignment(
                    addr + values_pos,
                    values::value_size::<V>(),
                    values::value_align::<V>(),
                );
                if values_at::<V>(buf, addr, values_pos, count) is Ok {
                    lemma_values_at_stays::<V>(buf, more, addr, values_pos, count);
                }
            }
        }
    }
}

/// The bytes of an entry that is stored at `addr`, with these paddings.
pub open spec fn padded_entry<K: Key + ?Sized, V: Value>(
    key: &K,
    stored: Seq<V>,
    before_key: Seq<u8>,
    before_len: Seq<u8>,
    before_values: Seq<u8>,
) -> Seq<u8> {
    before_key + key.encoding() + before_len + (stored.len() as u32).native() + before_values
        + values::values_bytes(stored)
}

/// A stored entry is read back, whatever its paddings hold and whatever follows it.
pub proof fn law_stored_entry_is_parsed<K: Key + ?Sized, V: Value>(
    key: &K,
    stored: Seq<V>,
    before_key: Seq<u8>,
    before_len: Seq<u8>,
    before_values: Seq<u8>,
    rest: Seq<u8>,
    addr: int,
)
    requires
        stored.len() <= u32::MAX,
        stored.len() * values::value_size::<V>() <= isize::MAX,
        before_key.len() == align::pad_to_align(addr, K::spec_align()),
        ({
            let key_end = before_key.len() + key.encoding().len();
            let len_end = key_end + before_len.len() + 4;
            &&& before_len.len() == align::pad_to_align(addr + key_end, 4)
            &&& before_values.len() == align::pad_to_align(
                addr + len_end,
                values::value_size::<V>(),
            )
        }),
    ensures
        ({
            let bytes = padded_entry(key, stored, before_key, before_len, before_values);
            entry_model::<K, V>(bytes + rest, addr) == EntryModel::KeyAndValues(
                key.encoding(),
                stored,
                bytes.len() as int,
            )
        }),
{
    broadcast use {
        vstd::layout::layout_of_primitives,
        vstd::layout::align_properties,
        vstd::layout::align_nonzero,
    };

    let count = stored.len() as u32;
    let bytes = padded_entry(key, stored, before_key, before_len, before_values);
    let buf = bytes + rest;
    let start = before_key.len() as int;
    let size = key.encoding().len() as int;
    let vals = values::values_bytes(stored);
    K::law_layout();
    V::law_layout();
    count.law_value_has_its_bytes();
    values::lemma_values_bytes_len(stored);
    align::law_padding_aligns(addr, K::spec_align());
    let behind_key = before_len + count.native() + before_values + vals + rest;
    assert(buf.skip(start) == key.encoding() + behind_key);
    key.law_stored_key_is_found(behind_key, addr + start);
    assert(buf.subrange(start, start + size) == key.encoding());

    let to_len = before_key + key.encoding() + before_len;
    align::law_padding_aligns(addr + start + size, 4);
    align::lemma_divisor_of_alignment(addr + to_len.len(), 4, len_align());
    assert(buf == to_len + (count.native() + (before_values + vals + rest)));
    lemma_len_is_read(to_len, count, before_values + vals + rest, addr);

    let to_values = to_len + count.native() + before_values;
    align::law_padding_aligns(addr + to_len.len() + 4, values::value_size::<V>());
    align::lemma_divisor_of_alignment(
        addr + to_values.len(),
        values::value_size::<V>(),
        values::value_align::<V>(),
    );
    assert(buf == to_values + (vals + rest));
    lemma_values_are_read(to_values, stored, rest, addr);
}

/// Of a stored entry whose first `len` bytes are there, just that is read which they hold: no key
/// before the whole key is there, the key alone before the whole number of values is, the key and
/// the number of values before all values are, and then everything. That holds of any number of
/// values, and whatever the paddings hold.
pub proof fn law_part_of_stored_entry_is_parsed<K: Key + ?Sized, V: Value>(
    key: &K,
    stored: Seq<V>,
    before_key: Seq<u8>,
    before_len: Seq<u8>,
    before_values: Seq<u8>,
    len: int,
    addr: int,
)
    requires
        stored.len() <= u32::MAX,
        stored.len() * values::value_size::<V>() <= isize::MAX,
        before_key.len() == align::pad_to_align(addr, K::spec_align()),
        ({
            let key_end = before_key.len() + key.encoding().len();
            let len_end = key_end + before_len.len() + 4;
            &&& before_len.len() == align::pad_to_align(addr + key_end, 4)
            &&& before_values.len() == align::pad_to_align(
                addr + len_end,
                values::value_size::<V>(),
            )
        }),
        0 <= len <= padded_entry(key, stored, before_key, before_len, before_values).len(),
    ensures
        ({
            let bytes = padded_entry(key, stored, before_key, before_len, before_values);
            let key_end = before_key.len() + key.encoding().len();
            let len_end = key_end + before_len.len() + 4;
            let part = entry_model::<K, V>(bytes.take(len), addr);
            &&& len < key_end ==> part is NoKey
            &&& key_end <= len < len_end ==> part == EntryModel::<V>::Key(key.encoding())
            &&& len_end <= len < bytes.len() ==> part == EntryModel::<V>::KeyAndValuesLen(
                key.encoding(),
                stored.len() as u32,
            )
            &&& len == bytes.len() ==> part == EntryModel::KeyAndValues(
                key.encoding(),
                stored,
                bytes.len() as int,
            )
        }),
{
    broadcast use {
        vstd::layout::layout_of_primitives,
        vstd::layout::align_properties,
        vstd::layout::align_nonzero,
    };

    let count = stored.len() as u32;
    let bytes = padded_entry(key, stored, before_key, before_len, before_values);
    let buf = bytes.take(len);
    let start = before_key.len() as int;
    let size = key.encoding().len() as int;
    let vals = values::values_bytes(stored);
    K::law_layout();
    V::law_layout();
    count.law_value_has_its_bytes();
    values::lemma_values_bytes_len(stored);
    align::law_padding_aligns(addr, K::spec_align());
    let behind_key = before_len + count.native() + before_values + vals;
    assert(bytes.skip(start) == key.encoding() + behind_key);
    if len == bytes.len() {
        assert(buf == bytes + Seq::<u8>::empty());
        law_stored_entry_is_parsed(
            key,
            stored,
            before_key,
            before_len,
            before_values,
            Seq::empty(),
            addr,
        );
    } else if len < start + size {
        if start <= len {
            let part = buf.skip(start);
            let more = bytes.skip(len);
            assert(part + more == bytes.skip(start));
            key.law_stored_key_is_found(behind_key, addr + start);
            K::law_found_in_bounds(part, addr + start, 0);
            if K::scan(part, addr + start, 0) != Err::<nat, ReadError>(ReadError::Incomplete) {
                K::law_more_bytes_change_nothing(part, more, addr + start, 0);
            }
        }
    } else {
        let to_key = start + size;
        assert(buf.skip(start) == key.encoding() + behind_key.take(len - to_key));
        key.law_stored_key_is_found(behind_key.take(len - to_key), addr + start);
        assert(buf.subrange(start, to_key) == key.encoding());

        let to_len = before_key + key.encoding() + before_len;
        align::law_padding_aligns(addr + to_key, 4);
        align::lemma_divisor_of_alignment(addr + to_len.len(), 4, len_align());
        if to_len.len() + 4 <= len {
            let behind_len = (before_values + vals).take(len - to_len.len() - 4);
            assert(buf == to_len + (count.native() + behind_len));
            lemma_len_is_read(to_len, count, behind_len, addr);

            let to_values = to_len.len() + 4 + before_values.len();
            align::law_padding_aligns(addr + to_len.len() + 4, values::value_size::<V>());
            align::lemma_divisor_of_alignment(
                addr + to_values,
                values::value_size::<V>(),
                values::value_align::<V>(),
            );
        }
    }
}

/// Bytes can never be an entry just where those behind the padding can never be a key: neither the
/// number of values nor the values can be at fault, as they lie where they are aligned.
pub proof fn law_only_damaged_key_is_invalid<K: Key + ?Sized, V: Value>(
    before_key: Seq<u8>,
    rest: Seq<u8>,
    addr: int,
)
    requires
        before_key.len() == align::pad_to_align(addr, K::spec_align()),
    ensures
        entry_model::<K, V>(before_key + rest, addr) is Invalid <==> K::scan(
            rest,
            addr + before_key.len(),
            0,
        ) == Err::<nat, ReadError>(ReadError::Invalid),
{
    broadcast use {
        vstd::layout::layout_of_primitives,
        vstd::layout::align_properties,
        vstd::layout::align_nonzero,
    };

    let buf = before_key + rest;
    let start = before_key.len() as int;
    K::law_layout();
    V::law_layout();
    assert(buf.skip(start) == rest);
    if let Ok(size) = K::scan(rest, addr + start, 0) {
        align::law_padding_aligns(addr + start + size, 4);
        let len_pos = start + size + align::pad_to_align(addr + start + size, 4);
        align::lemma_divisor_of_alignment(addr + len_pos, 4, len_align());
        if let Ok(count) = len_at(buf, addr, len_pos) {
            align::law_padding_aligns(addr + len_pos + 4, values::value_size::<V>());
            let values_pos = len_pos + 4 + align::pad_to_align(
                addr + len_pos + 4,
                values::value_size::<V>(),
            );
            align::lemma_divisor_of_alignment(
                addr + values_pos,
                values::value_size::<V>(),
                values::value_align::<V>(),
            );
        }
    }
}

} // verus!
