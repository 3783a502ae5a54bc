//! The file of a hash map: which bytes are read from it, how it starts, and how it can be damaged.

use crate::native;
use crate::values::Value;
use vstd::prelude::*;

verus! {

/// What is wrong with the bytes of a hash map.
#[derive(Debug, Clone, Copy, PartialEq, Eq, Structural)]
pub enum DataError {
    InvalidHeader,
    KeyTypeMismatch,
    BucketsPosBeforeHeaderEnd,
    /// The hash function is cut off by the buckets.
    HashFunction,
    /// A position in the file is above `u64::MAX`.
    Position,
    BucketOffset,
    StoredKey,
    Entry,
    /// An entry has more bytes than memory can hold.
    TooLarge,
    /// An entry is cut off by the end of the file.
    CutOff,
    TrailingBytes,
}

impl DataError {
    /// What is wrong, in words.
    pub open spec fn spec_message(self) -> &'static str {
        match self {
            DataError::InvalidHeader => "Invalid header",
            DataError::KeyTypeMismatch => "Key type mismatch",
            DataError::BucketsPosBeforeHeaderEnd => "buckets_pos before header end",
            DataError::HashFunction => "failed to fill whole buffer",
            DataError::Position => "Position out of range",
            DataError::BucketOffset => "Can't read bucket offset",
            DataError::StoredKey => "Failed to read stored key",
            DataError::Entry => "Failed to parse entry from bytes",
            DataError::TooLarge => "Entry is too large",
            DataError::CutOff => "Entry is cut off by the end of the file",
            DataError::TrailingBytes => "Trailing bytes left after parsing all entries",
        }
    }

    /// What is wrong, in words.
    pub fn message(self) -> (message: &'static str)
        ensures
            message@ == self.spec_message()@,
    {
        match self {
            DataError::InvalidHeader => "Invalid header",
            DataError::KeyTypeMismatch => "Key type mismatch",
            DataError::BucketsPosBeforeHeaderEnd => "buckets_pos before header end",
            DataError::HashFunction => "failed to fill whole buffer",
            DataError::Position => "Position out of range",
            DataError::BucketOffset => "Can't read bucket offset",
            DataError::StoredKey => "Failed to read stored key",
            DataError::Entry => "Failed to parse entry from bytes",
            DataError::TooLarge => "Entry is too large",
            DataError::CutOff => "Entry is cut off by the end of the file",
            DataError::TrailingBytes => "Trailing bytes left after parsing all entries",
        }
    }
}

/// What is told of each kind of damage.
pub proof fn law_messages()
    ensures
        DataError::InvalidHeader.spec_message() == "Invalid header",
        DataError::KeyTypeMismatch.spec_message() == "Key type mismatch",
        DataError::BucketsPosBeforeHeaderEnd.spec_message() == "buckets_pos before header end",
        DataError::HashFunction.spec_message() == "failed to fill whole buffer",
        DataError::Position.spec_message() == "Position out of range",
        DataError::BucketOffset.spec_message() == "Can't read bucket offset",
        DataError::StoredKey.spec_message() == "Failed to read stored key",
        DataError::Entry.spec_message() == "Failed to parse entry from bytes",
        DataError::TooLarge.spec_message() == "Entry is too large",
        DataError::CutOff.spec_message() == "Entry is cut off by the end of the file",
        DataError::TrailingBytes.spec_message() == "Trailing bytes left after parsing all entries",
{
}

/// Why an operation on a hash map failed.
#[derive(Debug, PartialEq, Eq)]
pub enum MapError<E> {
    /// The bytes of the hash map are damaged.
    Data(DataError),
    /// The caller's own function failed.
    Caller(E),
}

/// What an operation gives by the bytes of a hash map.
pub open spec fn by_data<T, E>(given: Result<T, DataError>) -> Result<T, MapError<E>> {
    match given {
        Ok(given) => Ok(given),
        Err(error) => Err(MapError::Data(error)),
    }
}

/// `length` bytes of a file from `byte_offset` on.
#[derive(Debug, Clone, Copy, PartialEq, Eq, Structural)]
pub struct ReadRange {
    pub byte_offset: u64,
    pub length: u64,
}

impl ReadRange {
    /// The bytes of `file` in the range, as far as the file goes.
    pub open spec fn of(self, file: Seq<u8>) -> Seq<u8> {
        let end = self.byte_offset + self.length;
        if self.byte_offset >= file.len() {
            Seq::empty()
        } else if end > file.len() {
            file.skip(self.byte_offset as int)
        } else {
            file.subrange(self.byte_offset as int, end)
        }
    }

    pub fn new(byte_offset: u64, length: u64) -> (range: ReadRange)
        ensures
            range.byte_offset == byte_offset,
            range.length == length,
    {
        ReadRange { byte_offset, length }
    }

    /// The part of the range that lies in a file of `file_len` bytes.
    pub open spec fn clamped(self, file_len: u64) -> ReadRange {
        if self.byte_offset >= file_len {
            ReadRange { byte_offset: file_len, length: 0 }
        } else if self.byte_offset + self.length > file_len {
            ReadRange {
                byte_offset: self.byte_offset,
                length: (file_len - self.byte_offset) as u64,
            }
        } else {
            self
        }
    }

    /// The part of the range that lies in a file of `file_len` bytes.
    pub fn clamp(self, file_len: u64) -> (range: ReadRange)
        ensures
            range == self.clamped(file_len),
    {
        if self.byte_offset >= file_len {
            ReadRange { byte_offset: file_len, length: 0 }
        } else if self.length > file_len - self.byte_offset {
            ReadRange { byte_offset: self.byte_offset, length: file_len - self.byte_offset }
        } else {
            self
        }
    }
}

/// The part of a range that lies in a file holds what the range holds, and the file has all of it. It
/// starts where the range does, or at the end of the file where that is in front of it.
pub proof fn law_clamped_range(range: ReadRange, file: Seq<u8>, file_len: u64)
    requires
        file.len() == file_len,
    ensures
        range.clamped(file_len).of(file) == range.of(file),
        range.of(file).len() == range.clamped(file_len).length,
        range.clamped(file_len).byte_offset + range.clamped(file_len).length <= file_len,
        range.clamped(file_len).byte_offset == range.byte_offset || range.clamped(
            file_len,
        ).byte_offset == file_len <= range.byte_offset,
        range.clamped(file_len).length <= range.length,
        range.byte_offset + range.length <= file_len ==> range.clamped(file_len) == range,
{
    assert(range.clamped(file_len).of(file) =~= range.of(file));
}

/// Whether what `read` gives, if it does not fail, is what `file` holds.
pub open spec fn reads_file<E, R: FnMut(ReadRange) -> Result<Vec<u8>, E>>(
    read: R,
    file: Seq<u8>,
) -> bool {
    forall|range: ReadRange, bytes: Vec<u8>| #[trigger]
        call_ensures(read, (range,), Ok::<Vec<u8>, E>(bytes)) ==> bytes@ == range.of(file)
}

/// Whether `read` can give `data` for a range.
pub open spec fn read_gives<E, R: FnMut(ReadRange) -> Result<Vec<u8>, E>>(
    read: R,
    range: ReadRange,
    data: Seq<u8>,
) -> bool {
    exists|bytes: Vec<u8>| #[trigger]
        call_ensures(read, (range,), Ok::<Vec<u8>, E>(bytes)) && bytes@ == data
}

/// Whether `read` can fail with `error` for a range.
pub open spec fn read_fails<E, R: FnMut(ReadRange) -> Result<Vec<u8>, E>>(
    read: R,
    range: ReadRange,
    error: E,
) -> bool {
    call_ensures(read, (range,), Err::<Vec<u8>, E>(error))
}

/// Whether `read` may be called on every range.
pub open spec fn reads_all<E, R: FnMut(ReadRange) -> Result<Vec<u8>, E>>(read: R) -> bool {
    forall|range: ReadRange| call_requires(read, (range,))
}

/// Whether `read` never fails.
pub open spec fn never_fails<E, R: FnMut(ReadRange) -> Result<Vec<u8>, E>>(read: R) -> bool {
    forall|range: ReadRange, error: E| !(#[trigger] read_fails::<E, R>(read, range, error))
}

/// How many bytes the header takes.
pub const HEADER_SIZE: u64 = 24;

/// How many bytes the offset of an entry takes.
pub const BUCKET_OFFSET_SIZE: u64 = 8;

/// What the file starts with.
#[derive(Debug, Clone, Copy, PartialEq, Eq)]
pub struct Header {
    pub key_type: [u8; 8],
    pub buckets_pos: u64,
    pub buckets_count: u64,
}

/// The header as mathematical values.
pub struct HeaderModel {
    pub key_type: Seq<u8>,
    pub buckets_pos: u64,
    pub buckets_count: u64,
}

impl View for Header {
    type V = HeaderModel;

    open spec fn view(&self) -> HeaderModel {
        HeaderModel {
            key_type: self.key_type@,
            buckets_pos: self.buckets_pos,
            buckets_count: self.buckets_count,
        }
    }
}

/// The header that `bytes` start with.
pub open spec fn stored_header(bytes: Seq<u8>) -> Option<HeaderModel> {
    if bytes.len() < HEADER_SIZE {
        None
    } else {
        Some(
            HeaderModel {
                key_type: bytes.take(8),
                buckets_pos: native::native_value(bytes.subrange(8, 16)) as u64,
                buckets_count: native::native_value(bytes.subrange(16, 24)) as u64,
            },
        )
    }
}

impl Header {
    /// Reads the header that `bytes` start with.
    pub fn read_from_prefix(bytes: &[u8]) -> (header: Option<Header>)
        ensures
            match stored_header(bytes@) {
                Some(model) => header matches Some(header) && header@ == model,
                None => header is None,
            },
    {
        if bytes.len() < 24 {
            return None;
        }
        let key_type: [u8; 8] = [
            bytes[0],
            bytes[1],
            bytes[2],
            bytes[3],
            bytes[4],
            bytes[5],
            bytes[6],
            bytes[7],
        ];
        assert(key_type@ == bytes@.take(8));
        let rest = vstd::slice::slice_subrange(bytes, 8, bytes.len());
        match native::read_u64(rest) {
            Some((buckets_pos, rest)) => {
                assert(bytes@.subrange(8, bytes@.len() as int).take(8) == bytes@.subrange(8, 16));
                assert(rest@.take(8) == bytes@.subrange(16, 24));
                match native::read_u64(rest) {
                    Some((buckets_count, _)) => Some(
                        Header { key_type, buckets_pos, buckets_count },
                    ),
                    None => None,
                }
            },
            None => None,
        }
    }

    /// Whether the header is that of a map whose keys have the type of that name.
    pub fn has_key_type(&self, name: &[u8; 8]) -> (same: bool)
        ensures
            same == (self.key_type@ == name@),
    {
        let mut i: usize = 0;
        while i < 8
            invariant
                i <= 8,
                forall|j: int| 0 <= j < i ==> self.key_type@[j] == name@[j],
            decreases 8 - i,
        {
            if self.key_type[i] != name[i] {
                return false;
            }
            i = i + 1;
        }
        assert(self.key_type@ == name@);
        true
    }
}

/// The bytes of a header.
pub open spec fn header_bytes(header: HeaderModel) -> Seq<u8> {
    header.key_type + header.buckets_pos.native() + header.buckets_count.native()
}

/// A stored header is read back, whatever follows it.
pub proof fn law_stored_header_is_read(header: HeaderModel, rest: Seq<u8>)
    requires
        header.key_type.len() == 8,
    ensures
        header_bytes(header).len() == HEADER_SIZE,
        stored_header(header_bytes(header) + rest) == Some(header),
{
    broadcast use vstd::layout::layout_of_primitives;

    let bytes = header_bytes(header) + rest;
    header.buckets_pos.law_value_has_its_bytes();
    header.buckets_count.law_value_has_its_bytes();
    assert(bytes.take(8) == header.key_type);
    assert(bytes.subrange(8, 16) == header.buckets_pos.native());
    assert(bytes.subrange(16, 24) == header.buckets_count.native());
}

/// The offset that `data` is.
pub open spec fn bucket_offset(data: Seq<u8>) -> u64 {
    native::native_value(data) as u64
}

/// Reads the offset of an entry, which `data` must be the bytes of.
pub fn parse_entry_offset(data: &[u8]) -> (offset: Result<u64, DataError>)
    ensures
        offset == (if data@.len() == BUCKET_OFFSET_SIZE {
            Ok::<u64, DataError>(bucket_offset(data@))
        } else {
            Err(DataError::BucketOffset)
        }),
{
    if data.len() != 8 {
        return Err(DataError::BucketOffset);
    }
    assert(data@.take(8) == data@);
    match native::read_u64(data) {
        Some((offset, _)) => Ok(offset),
        None => Err(DataError::BucketOffset),
    }
}

} // verus!
