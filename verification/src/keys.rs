//! The keys of a hash map and how they are stored.

use crate::align;
use crate::aligned;
use crate::native;
use crate::phf;
use crate::values;
use ph::fmph::Function;
use vstd::prelude::*;

verus! {

/// Why something could not be read from bytes.
#[derive(Debug, Clone, Copy, PartialEq, Eq, Structural)]
pub enum ReadError {
    /// No bytes that follow can mend it.
    Invalid,
    /// It may be there once more bytes have arrived.
    Incomplete,
}

pub type ReadResult<T> = Result<T, ReadError>;

/// Why bytes in memory are no value of a type.
#[derive(Debug, Clone, Copy, PartialEq, Eq, Structural)]
pub enum ConvertError {
    /// The address is not a multiple of the type's alignment.
    Alignment,
    /// There are fewer bytes than the type has.
    Size,
}

impl From<ConvertError> for ReadError {
    fn from(err: ConvertError) -> (error: ReadError) {
        err.read_error()
    }
}

impl vstd::std_specs::convert::FromSpecImpl<ConvertError> for ReadError {
    open spec fn obeys_from_spec() -> bool {
        true
    }

    open spec fn from_spec(err: ConvertError) -> ReadError {
        read_error(err)
    }
}

impl ConvertError {
    /// The error of a read that failed by `self`.
    pub fn read_error(self) -> (error: ReadError)
        ensures
            error == read_error(self),
    {
        match self {
            ConvertError::Alignment => ReadError::Invalid,
            ConvertError::Size => ReadError::Incomplete,
        }
    }
}

/// Misaligned bytes stay so; missing bytes may still arrive.
pub open spec fn read_error(err: ConvertError) -> ReadError {
    match err {
        ConvertError::Alignment => ReadError::Invalid,
        ConvertError::Size => ReadError::Incomplete,
    }
}

/// Whether the first of `available` bytes at `addr` are a value of that alignment and size.
pub open spec fn cast_outcome(addr: int, align: int, available: int, size: int) -> Result<
    (),
    ConvertError,
> {
    if addr % align != 0 {
        Err(ConvertError::Alignment)
    } else if available < size {
        Err(ConvertError::Size)
    } else {
        Ok(())
    }
}

/// Checks whether the first of `available` bytes at `addr` are a value of that alignment and size.
pub fn check_cast(addr: usize, align: usize, available: usize, size: usize) -> (outcome: Result<
    (),
    ConvertError,
>)
    requires
        align > 0,
    ensures
        outcome == cast_outcome(addr as int, align as int, available as int, size as int),
{
    if addr % align != 0 {
        Err(ConvertError::Alignment)
    } else if available < size {
        Err(ConvertError::Size)
    } else {
        Ok(())
    }
}

/// Whether `buf` starts with `prefix`.
fn starts_with(buf: &[u8], prefix: &[u8]) -> (starts: bool)
    ensures
        starts == prefix@.is_prefix_of(buf@),
{
    if buf.len() < prefix.len() {
        return false;
    }
    let mut i: usize = 0;
    while i < prefix.len()
        invariant
            i <= prefix@.len() <= buf@.len(),
            forall|j: int| 0 <= j < i ==> prefix@[j] == buf@[j],
        decreases prefix@.len() - i,
    {
        if buf[i] != prefix[i] {
            assert(prefix@[i as int] != buf@.take(prefix@.len() as int)[i as int]);
            return false;
        }
        i = i + 1;
    }
    assert(prefix@ == buf@.take(prefix@.len() as int));
    true
}

/// The string whose UTF-8 encoding is `bytes`, by `core::str::from_utf8`.
///
/// Trusted: it succeeds just where `bytes` are valid UTF-8, and the string has those bytes.
#[verifier::external_body]
fn utf8_str(bytes: &[u8]) -> (text: Option<&str>)
    ensures
        text is Some <==> vstd::utf8::valid_utf8(bytes@),
        text matches Some(text) ==> vstd::utf8::encode_utf8(text@) == bytes@,
{
    core::str::from_utf8(bytes).ok()
}

/// A key that can be stored in the hash map.
///
/// A key is stored as its [`encoding`](Key::encoding). Reading may depend on the address `addr`
/// of the bytes, which a caller tells along with them.
pub trait Key {
    /// A key that does not borrow the bytes it was read from.
    type Owned;

    /// Stored in the file header.
    const NAME: [u8; 8];

    /// Reasonable guess size of the key when performing random read.
    /// Exact size for fixed-size keys, some arbitrary length for string keys.
    const VALUE_SIZE_EST: usize;

    /// The bytes that are stored for the key.
    spec fn encoding(&self) -> Seq<u8>;

    /// The bytes that are stored for a key that has been read.
    spec fn owned_encoding(key: Self::Owned) -> Seq<u8>;

    /// What [`align`](Key::align) returns.
    spec fn spec_align() -> int;

    /// What [`NAME`](Key::NAME) holds.
    spec fn spec_name() -> Seq<u8>;

    /// What [`VALUE_SIZE_EST`](Key::VALUE_SIZE_EST) is.
    spec fn spec_value_size_est() -> int;

    /// How many bytes at the start of `buf`, which lies at `addr`, are the encoding of a key. The
    /// end of a key of variable size is looked for in `buf[prev_size..]` only.
    spec fn scan(buf: Seq<u8>, addr: int, prev_size: nat) -> ReadResult<nat>;

    /// The bucket that a hash function of these levels and words gives the key.
    spec fn slot(&self, levels: Seq<u64>, words: Seq<u64>) -> Option<u64>;

    /// The key that is found lies within the bytes.
    proof fn law_found_in_bounds(buf: Seq<u8>, addr: int, prev_size: nat)
        ensures
            Self::scan(buf, addr, prev_size) matches Ok(size) ==> 0 < size <= buf.len(),
    ;

    /// What is known of a key does not change when more bytes arrive.
    proof fn law_more_bytes_change_nothing(buf: Seq<u8>, more: Seq<u8>, addr: int, prev_size: nat)
        requires
            Self::scan(buf, addr, prev_size) != Err::<nat, ReadError>(ReadError::Incomplete),
        ensures
            Self::scan(buf + more, addr, prev_size) == Self::scan(buf, addr, prev_size),
    ;

    /// Bytes that have been searched in vain need not be searched again.
    proof fn law_search_resumes(buf: Seq<u8>, more: Seq<u8>, addr: int, prev_size: nat)
        requires
            Self::scan(buf, addr, 0) == Err::<nat, ReadError>(ReadError::Incomplete),
            prev_size <= buf.len(),
        ensures
            Self::scan(buf + more, addr, prev_size) == Self::scan(buf + more, addr, 0),
    ;

    /// A key can be read from its own bytes alone.
    proof fn law_key_needs_only_its_bytes(buf: Seq<u8>, addr: int)
        requires
            Self::scan(buf, addr, 0) is Ok,
        ensures
            Self::scan(buf.take(Self::scan(buf, addr, 0)->Ok_0 as int), addr, 0) == Self::scan(
                buf,
                addr,
                0,
            ),
    ;

    /// Of an address it matters only how far it is from an aligned one.
    proof fn law_only_alignment_matters(buf: Seq<u8>, addr: int, other: int, prev_size: nat)
        requires
            addr % Self::spec_align() == other % Self::spec_align(),
        ensures
            Self::scan(buf, addr, prev_size) == Self::scan(buf, other, prev_size),
    ;

    /// An aligned buffer is aligned for keys, and a key takes some bytes.
    proof fn law_layout()
        ensures
            Self::spec_align() > 0,
            aligned::BUFFER_ALIGN as int % Self::spec_align() == 0,
            vstd::arithmetic::power2::is_pow2(Self::spec_align()),
            Self::NAME@ == Self::spec_name(),
            Self::VALUE_SIZE_EST == Self::spec_value_size_est(),
            Self::spec_value_size_est() > 0,
    ;

    /// A stored key is found again, whatever follows it.
    proof fn law_stored_key_is_found(&self, rest: Seq<u8>, addr: int)
        requires
            addr % Self::spec_align() == 0,
        ensures
            Self::scan(self.encoding() + rest, addr, 0) == Ok::<nat, ReadError>(
                self.encoding().len(),
            ),
    ;

    /// A key matches only bytes that were stored for an equal key.
    proof fn law_only_equal_keys_match(&self, other: &Self, rest: Seq<u8>)
        requires
            self.encoding().is_prefix_of(other.encoding() + rest),
        ensures
            self.encoding() == other.encoding(),
    ;

    /// The alignment of stored keys: the address of a key is a multiple of it.
    fn align() -> (align: usize)
        ensures
            align == Self::spec_align(),
            align > 0,
    ;

    /// Returns number of bytes which `write` will write.
    fn write_bytes(&self) -> (size: usize)
        requires
            self.encoding().len() <= usize::MAX,
        ensures
            size == self.encoding().len(),
    ;

    /// Write the key to the end of `buf`.
    fn write(&self, buf: &mut Vec<u8>)
        ensures
            final(buf)@ == old(buf)@ + self.encoding(),
    ;

    /// Check whether the first [`Key::write_bytes()`] of `buf` match the key.
    fn matches(&self, buf: &[u8]) -> (matched: bool)
        ensures
            matched == self.encoding().is_prefix_of(buf@),
    ;

    /// Try to read the key from `buf`, which lies at `addr`.
    fn from_bytes_at(buf: &[u8], addr: usize) -> (key: Option<Self::Owned>)
        ensures
            match Self::scan(buf@, addr as int, 0) {
                Ok(size) => key is Some && Self::owned_encoding(key->0) == buf@.take(size as int),
                Err(_) => key is None,
            },
    ;

    /// Try to read the key from `buf`, which lies at `addr`.
    ///
    /// This method can be called on an incomplete buffer. If it returns
    /// [`ReadError::Incomplete`], the caller will call this method again with
    /// new data appended to `buf`. New bytes are `buf[prev_size..]`. On first
    /// invocation, `prev_size` is 0.
    fn from_bytes_streaming_at(buf: &[u8], addr: usize, prev_size: usize) -> (key: ReadResult<
        Self::Owned,
    >)
        ensures
            match Self::scan(buf@, addr as int, prev_size as nat) {
                Ok(size) => key is Ok && Self::owned_encoding(key->Ok_0) == buf@.take(size as int),
                Err(error) => key == Err::<Self::Owned, ReadError>(error),
            },
    ;

    /// The key that has been read, to be compared or measured.
    fn borrow(key: &Self::Owned) -> (borrowed: &Self)
        ensures
            borrowed.encoding() == Self::owned_encoding(*key),
    ;

    /// Whether the two keys are equal.
    fn same_key(&self, other: &Self) -> (same: bool)
        ensures
            same == (self.encoding() == other.encoding()),
    ;

    /// The bucket that `phf` gives the key.
    fn phf_slot(&self, phf: &Function) -> (slot: Option<u64>)
        requires
            phf::usable_levels(phf::phf_levels(*phf)),
        ensures
            slot == self.slot(phf::phf_levels(*phf), phf::phf_words(*phf)),
    ;

    /// Try to read the key from `buf`, wherever it lies.
    fn from_bytes(buf: &[u8]) -> (key: Option<Self::Owned>)
        ensures
            exists|addr: usize|
                match #[trigger] Self::scan(buf@, addr as int, 0) {
                    Ok(size) => key is Some && Self::owned_encoding(key->0) == buf@.take(
                        size as int,
                    ),
                    Err(_) => key is None,
                },
    {
        Self::from_bytes_at(buf, align::slice_address(buf))
    }

    /// Try to read the key from `buf`, wherever it lies, as
    /// [`from_bytes_streaming_at`](Key::from_bytes_streaming_at) does.
    fn from_bytes_streaming(buf: &[u8], prev_size: usize) -> (key: ReadResult<Self::Owned>)
        ensures
            exists|addr: usize|
                match #[trigger] Self::scan(buf@, addr as int, prev_size as nat) {
                    Ok(size) => key is Ok && Self::owned_encoding(key->Ok_0) == buf@.take(
                        size as int,
                    ),
                    Err(error) => key == Err::<Self::Owned, ReadError>(error),
                },
    {
        Self::from_bytes_streaming_at(buf, align::slice_address(buf), prev_size)
    }
}

/// The byte behind a stored string. It does not occur in UTF-8.
pub const SENTINEL: u8 = 0xFF;

/// The bytes that are stored for a string.
pub open spec fn str_encoding(text: Seq<char>) -> Seq<u8> {
    vstd::utf8::encode_utf8(text).push(SENTINEL)
}

/// Where the first sentinel in `buf[from..]` is, or the length of `buf` where there is none.
pub open spec fn first_sentinel(buf: Seq<u8>, from: int) -> int
    decreases buf.len() - from,
{
    if from >= buf.len() {
        buf.len() as int
    } else if buf[from] == SENTINEL {
        from
    } else {
        first_sentinel(buf, from + 1)
    }
}

/// How many bytes at the start of `buf` are a stored string, when its end is looked for in
/// `buf[from..]`.
pub open spec fn scan_str(buf: Seq<u8>, from: nat) -> ReadResult<nat> {
    let end = first_sentinel(buf, from as int);
    if end >= buf.len() {
        Err(ReadError::Incomplete)
    } else if vstd::utf8::valid_utf8(buf.take(end)) {
        Ok((end + 1) as nat)
    } else {
        Err(ReadError::Invalid)
    }
}

/// How many bytes at the start of `buf`, which lies at `addr`, are a stored number.
pub open spec fn scan_number(buf: Seq<u8>, addr: int, align: int, size: int) -> ReadResult<nat> {
    match cast_outcome(addr, align, buf.len() as int, size) {
        Ok(()) => Ok(size as nat),
        Err(error) => Err(read_error(error)),
    }
}

/// UTF-8 has no sentinel in it.
pub proof fn law_utf8_has_no_sentinel(bytes: Seq<u8>, i: int)
    requires
        vstd::utf8::valid_utf8(bytes),
        0 <= i < bytes.len(),
    ensures
        bytes[i] != SENTINEL,
    decreases bytes.len(),
{
    let first = vstd::utf8::length_of_first_scalar(bytes);
    if i >= first {
        let rest = vstd::utf8::pop_first_scalar(bytes);
        assert(rest[i - first] == bytes[i]);
        law_utf8_has_no_sentinel(rest, i - first);
    }
}

/// Strings are equal where their stored bytes are.
pub proof fn law_str_encoding_is_unique(text: Seq<char>, other: Seq<char>)
    requires
        str_encoding(text) == str_encoding(other),
    ensures
        text == other,
{
    let bytes = vstd::utf8::encode_utf8(text);
    let other_bytes = vstd::utf8::encode_utf8(other);
    assert(bytes == str_encoding(text).drop_last());
    assert(other_bytes == str_encoding(other).drop_last());
    vstd::utf8::encode_utf8_decode_utf8(text);
    vstd::utf8::encode_utf8_decode_utf8(other);
}

pub(crate) proof fn lemma_first_sentinel(buf: Seq<u8>, from: int)
    requires
        0 <= from,
    ensures
        from <= buf.len() ==> from <= first_sentinel(buf, from) <= buf.len(),
        first_sentinel(buf, from) < buf.len() ==> from <= first_sentinel(buf, from)
            && buf[first_sentinel(buf, from)] == SENTINEL,
        forall|i: int| from <= i < first_sentinel(buf, from) ==> buf[i] != SENTINEL,
    decreases buf.len() - from,
{
    if from < buf.len() && buf[from] != SENTINEL {
        lemma_first_sentinel(buf, from + 1);
    }
}

/// There is one first sentinel only.
pub(crate) proof fn lemma_first_sentinel_is(buf: Seq<u8>, from: int, end: int)
    requires
        0 <= from <= end < buf.len(),
        buf[end] == SENTINEL,
        forall|i: int| from <= i < end ==> buf[i] != SENTINEL,
    ensures
        first_sentinel(buf, from) == end,
    decreases end - from,
{
    if from < end {
        lemma_first_sentinel_is(buf, from + 1, end);
    }
}

impl Key for str {
    type Owned = String;

    const NAME: [u8; 8] = [115, 116, 114, 0, 0, 0, 0, 0];

    const VALUE_SIZE_EST: usize = 512;

    open spec fn encoding(&self) -> Seq<u8> {
        str_encoding(self@)
    }

    open spec fn owned_encoding(key: String) -> Seq<u8> {
        str_encoding(key@)
    }

    open spec fn spec_align() -> int {
        1
    }

    open spec fn spec_name() -> Seq<u8> {
        seq![115u8, 116u8, 114u8, 0u8, 0u8, 0u8, 0u8, 0u8]
    }

    open spec fn spec_value_size_est() -> int {
        512
    }

    open spec fn scan(buf: Seq<u8>, addr: int, prev_size: nat) -> ReadResult<nat> {
        scan_str(buf, prev_size)
    }

    open spec fn slot(&self, levels: Seq<u64>, words: Seq<u64>) -> Option<u64> {
        phf::phf_slot_str(levels, words, self@)
    }

    proof fn law_found_in_bounds(buf: Seq<u8>, addr: int, prev_size: nat) {
        lemma_first_sentinel(buf, prev_size as int);
    }

    proof fn law_more_bytes_change_nothing(
        buf: Seq<u8>,
        more: Seq<u8>,
        addr: int,
        prev_size: nat,
    ) {
        let end = first_sentinel(buf, prev_size as int);
        lemma_first_sentinel(buf, prev_size as int);
        lemma_first_sentinel_is(buf + more, prev_size as int, end);
        assert((buf + more).take(end) == buf.take(end));
    }

    proof fn law_search_resumes(buf: Seq<u8>, more: Seq<u8>, addr: int, prev_size: nat) {
        let all = buf + more;
        let end = first_sentinel(all, 0);
        lemma_first_sentinel(buf, 0);
        lemma_first_sentinel(all, 0);
        assert forall|i: int| 0 <= i < buf.len() implies all[i] != SENTINEL by {
            assert(all[i] == buf[i]);
        }
        if end < all.len() {
            lemma_first_sentinel_is(all, prev_size as int, end);
        } else {
            lemma_first_sentinel(all, prev_size as int);
        }
    }

    proof fn law_key_needs_only_its_bytes(buf: Seq<u8>, addr: int) {
        let end = first_sentinel(buf, 0);
        let own = buf.take(end + 1);
        lemma_first_sentinel(buf, 0);
        lemma_first_sentinel_is(own, 0, end);
        assert(own.take(end) == buf.take(end));
    }

    proof fn law_only_alignment_matters(buf: Seq<u8>, addr: int, other: int, prev_size: nat) {
    }

    proof fn law_layout() {
        reveal(vstd::arithmetic::power2::is_pow2);
        assert(Self::NAME@ == Self::spec_name());
    }

    proof fn law_stored_key_is_found(&self, rest: Seq<u8>, addr: int) {
        let text = vstd::utf8::encode_utf8(self@);
        let buf = self.encoding() + rest;
        vstd::utf8::encode_utf8_valid_utf8(self@);
        assert forall|i: int| 0 <= i < text.len() implies buf[i] != SENTINEL by {
            law_utf8_has_no_sentinel(text, i);
        }
        lemma_first_sentinel_is(buf, 0, text.len() as int);
        assert(buf.take(text.len() as int) == text);
    }

    proof fn law_only_equal_keys_match(&self, other: &Self, rest: Seq<u8>) {
        let a = vstd::utf8::encode_utf8(self@);
        let b = vstd::utf8::encode_utf8(other@);
        let stored = other.encoding() + rest;
        vstd::utf8::encode_utf8_valid_utf8(self@);
        vstd::utf8::encode_utf8_valid_utf8(other@);
        assert forall|i: int| 0 <= i < self.encoding().len() implies self.encoding()[i]
            == stored[i] by {
            assert(stored.take(self.encoding().len() as int)[i] == stored[i]);
        }
        if a.len() < b.len() {
            assert(self.encoding()[a.len() as int] == stored[a.len() as int]);
            law_utf8_has_no_sentinel(b, a.len() as int);
        } else if b.len() < a.len() {
            assert(self.encoding()[b.len() as int] == stored[b.len() as int]);
            law_utf8_has_no_sentinel(a, b.len() as int);
        }
        assert(self.encoding() == other.encoding());
    }

    fn align() -> (align: usize) {
        1
    }

    fn write_bytes(&self) -> (size: usize) {
        self.len() + 1
    }

    fn write(&self, buf: &mut Vec<u8>) {
        buf.extend_from_slice(self.as_bytes());
        // 0xFF is not a valid leading byte of a UTF-8 sequence.
        buf.push(SENTINEL);
    }

    fn matches(&self, buf: &[u8]) -> (matched: bool) {
        // The sentinel is compared too, so a key that is only the beginning of the stored string
        // does not match.
        let text = self.as_bytes();
        let len: usize = text.len();
        proof {
            let encoding = self.encoding();
            if encoding.is_prefix_of(buf@) {
                assert(buf@.take(len + 1)[len as int] == SENTINEL);
                assert(text@ == encoding.take(len as int));
                assert(buf@.take(len as int) == buf@.take(len + 1).take(len as int));
            } else if text@.is_prefix_of(buf@) && len < buf@.len() && buf@[len as int] == SENTINEL {
                assert(encoding == buf@.take(len + 1));
            }
        }
        starts_with(buf, text) && len < buf.len() && buf[len] == SENTINEL
    }

    fn from_bytes_at(buf: &[u8], addr: usize) -> (key: Option<String>) {
        match str::from_bytes_streaming_at(buf, addr, 0) {
            Ok(key) => Some(key),
            Err(_) => None,
        }
    }

    fn from_bytes_streaming_at(buf: &[u8], addr: usize, prev_size: usize) -> (key: ReadResult<
        String,
    >) {
        let mut end: usize = prev_size;
        while end < buf.len() && buf[end] != SENTINEL
            invariant
                first_sentinel(buf@, prev_size as int) == first_sentinel(buf@, end as int),
            decreases buf@.len() - end,
        {
            end = end + 1;
        }
        if end >= buf.len() {
            return Err(ReadError::Incomplete);
        }
        match utf8_str(vstd::slice::slice_subrange(buf, 0, end)) {
            Some(text) => Ok(text.to_owned()),
            None => Err(ReadError::Invalid),
        }
    }

    fn borrow(key: &String) -> (borrowed: &str) {
        key.as_str()
    }

    fn same_key(&self, other: &str) -> (same: bool) {
        let a = self.as_bytes();
        let b = other.as_bytes();
        proof {
            if self.encoding() == other.encoding() {
                assert(a@ == self.encoding().drop_last());
                assert(b@ == other.encoding().drop_last());
            }
            assert(b@.len() == a@.len() ==> a@.take(b@.len() as int) == a@);
        }
        a.len() == b.len() && starts_with(a, b)
    }

    fn phf_slot(&self, phf: &Function) -> (slot: Option<u64>) {
        phf::get_str(phf, self)
    }
}

proof fn lemma_i64_encoding(key: i64)
    ensures
        native::native_bytes(native::bits_of_i64(key), 8).len() == 8,
        native::i64_of_bits(
            native::native_value(native::native_bytes(native::bits_of_i64(key), 8)),
        ) == key,
{
    native::lemma_byte_values();
    native::law_i64_bits(key, 0);
    native::law_value_of_bytes(native::bits_of_i64(key), 8);
}

/// Numbers are equal where their stored bytes are.
pub proof fn law_i64_encoding_is_unique(number: i64, other: i64)
    requires
        <i64 as Key>::owned_encoding(number) == <i64 as Key>::owned_encoding(other),
    ensures
        number == other,
{
    lemma_i64_encoding(number);
    lemma_i64_encoding(other);
}

proof fn lemma_i64_decoding(bytes: Seq<u8>)
    requires
        bytes.len() == 8,
    ensures
        native::native_bytes(
            native::bits_of_i64(native::i64_of_bits(native::native_value(bytes))),
            8,
        ) == bytes,
{
    native::lemma_byte_values();
    native::law_bytes_of_value(bytes);
    native::law_i64_bits(0, native::native_value(bytes));
}

impl Key for i64 {
    type Owned = i64;

    const NAME: [u8; 8] = [105, 54, 52, 0, 0, 0, 0, 0];

    const VALUE_SIZE_EST: usize = 8;

    open spec fn encoding(&self) -> Seq<u8> {
        native::native_bytes(native::bits_of_i64(*self), 8)
    }

    open spec fn owned_encoding(key: i64) -> Seq<u8> {
        native::native_bytes(native::bits_of_i64(key), 8)
    }

    open spec fn spec_align() -> int {
        vstd::layout::align_of::<i64>() as int
    }

    open spec fn spec_name() -> Seq<u8> {
        seq![105u8, 54u8, 52u8, 0u8, 0u8, 0u8, 0u8, 0u8]
    }

    open spec fn spec_value_size_est() -> int {
        8
    }

    open spec fn scan(buf: Seq<u8>, addr: int, prev_size: nat) -> ReadResult<nat> {
        scan_number(buf, addr, vstd::layout::align_of::<i64>() as int, 8)
    }

    open spec fn slot(&self, levels: Seq<u64>, words: Seq<u64>) -> Option<u64> {
        phf::phf_slot_i64(levels, words, self.encoding())
    }

    proof fn law_found_in_bounds(buf: Seq<u8>, addr: int, prev_size: nat) {
    }

    proof fn law_more_bytes_change_nothing(
        buf: Seq<u8>,
        more: Seq<u8>,
        addr: int,
        prev_size: nat,
    ) {
    }

    proof fn law_search_resumes(buf: Seq<u8>, more: Seq<u8>, addr: int, prev_size: nat) {
    }

    proof fn law_key_needs_only_its_bytes(buf: Seq<u8>, addr: int) {
    }

    proof fn law_only_alignment_matters(buf: Seq<u8>, addr: int, other: int, prev_size: nat) {
    }

    proof fn law_layout() {
        broadcast use {
            vstd::layout::layout_of_primitives,
            vstd::layout::align_properties,
            vstd::layout::align_nonzero,
        };

        values::lemma_fits_buffer_align(8, vstd::layout::align_of::<i64>() as int);
        assert(Self::NAME@ == Self::spec_name());
    }

    proof fn law_stored_key_is_found(&self, rest: Seq<u8>, addr: int) {
        lemma_i64_encoding(*self);
    }

    proof fn law_only_equal_keys_match(&self, other: &Self, rest: Seq<u8>) {
        lemma_i64_encoding(*self);
        lemma_i64_encoding(*other);
        assert((other.encoding() + rest).take(8) == other.encoding());
    }

    fn align() -> (align: usize) {
        broadcast use vstd::layout::align_nonzero;

        core::mem::align_of::<i64>()
    }

    fn write_bytes(&self) -> (size: usize) {
        proof {
            lemma_i64_encoding(*self);
        }
        8
    }

    fn write(&self, buf: &mut Vec<u8>) {
        let ghost before = buf@;
        buf.extend_from_slice(native::i64_as_bytes(self));
        assert(buf@ == before + self.encoding());
    }

    fn matches(&self, buf: &[u8]) -> (matched: bool) {
        starts_with(buf, native::i64_as_bytes(self))
    }

    fn from_bytes_at(buf: &[u8], addr: usize) -> (key: Option<i64>) {
        match i64::from_bytes_streaming_at(buf, addr, 0) {
            Ok(key) => Some(key),
            Err(_) => None,
        }
    }

    fn from_bytes_streaming_at(buf: &[u8], addr: usize, prev_size: usize) -> (key: ReadResult<
        i64,
    >) {
        broadcast use vstd::layout::align_nonzero;

        match check_cast(addr, core::mem::align_of::<i64>(), buf.len(), 8) {
            Ok(()) => match native::read_i64(buf) {
                Some((key, _)) => {
                    proof {
                        lemma_i64_decoding(buf@.take(8));
                    }
                    Ok(key)
                },
                None => Err(ReadError::Incomplete),
            },
            Err(error) => Err(error.read_error()),
        }
    }

    fn borrow(key: &i64) -> (borrowed: &i64) {
        key
    }

    fn same_key(&self, other: &i64) -> (same: bool) {
        proof {
            lemma_i64_encoding(*self);
            lemma_i64_encoding(*other);
        }
        *self == *other
    }

    fn phf_slot(&self, phf: &Function) -> (slot: Option<u64>) {
        phf::get_i64(phf, self)
    }
}

proof fn lemma_u128_alignment(addr: int)
    ensures
        (addr % 16) % (vstd::layout::align_of::<u128>() as int) == addr % (vstd::layout::align_of::<
            u128,
        >() as int),
        0int % (vstd::layout::align_of::<u128>() as int) == 0,
{
    broadcast use {
        vstd::layout::align_nonzero,
        vstd::layout::align_properties,
        vstd::layout::layout_of_primitives,
    };

    let align = vstd::layout::align_of::<u128>() as int;
    assert(vstd::layout::size_of::<u64>() == 8);
    let times: int = 16int / align;
    vstd::arithmetic::div_mod::lemma_fundamental_div_mod(16, align);
    assert(times > 0) by (nonlinear_arith)
        requires
            16 == align * times,
            align > 0,
    ;
    vstd::arithmetic::div_mod::lemma_mod_mod(addr, align, times);
    vstd::arithmetic::div_mod::lemma_small_mod(0, align as nat);
}

proof fn lemma_u128_encoding(key: u128)
    ensures
        native::native_bytes(key as nat, 16).len() == 16,
        native::native_value(native::native_bytes(key as nat, 16)) == key,
{
    native::lemma_byte_values();
    native::law_value_of_bytes(key as nat, 16);
}

/// Numbers are equal where their stored bytes are.
pub proof fn law_u128_encoding_is_unique(number: u128, other: u128)
    requires
        <u128 as Key>::owned_encoding(number) == <u128 as Key>::owned_encoding(other),
    ensures
        number == other,
{
    lemma_u128_encoding(number);
    lemma_u128_encoding(other);
}

proof fn lemma_u128_decoding(bytes: Seq<u8>)
    requires
        bytes.len() == 16,
    ensures
        native::native_bytes(native::native_value(bytes), 16) == bytes,
{
    native::law_bytes_of_value(bytes);
}

impl Key for u128 {
    type Owned = u128;

    const NAME: [u8; 8] = [117, 49, 50, 56, 0, 0, 0, 0];

    const VALUE_SIZE_EST: usize = 16;

    open spec fn encoding(&self) -> Seq<u8> {
        native::native_bytes(*self as nat, 16)
    }

    open spec fn owned_encoding(key: u128) -> Seq<u8> {
        native::native_bytes(key as nat, 16)
    }

    open spec fn spec_align() -> int {
        16
    }

    open spec fn spec_name() -> Seq<u8> {
        seq![117u8, 49u8, 50u8, 56u8, 0u8, 0u8, 0u8, 0u8]
    }

    open spec fn spec_value_size_est() -> int {
        16
    }

    open spec fn scan(buf: Seq<u8>, addr: int, prev_size: nat) -> ReadResult<nat> {
        scan_number(buf, addr, vstd::layout::align_of::<u128>() as int, 16)
    }

    open spec fn slot(&self, levels: Seq<u64>, words: Seq<u64>) -> Option<u64> {
        phf::phf_slot_u128(levels, words, self.encoding())
    }

    proof fn law_found_in_bounds(buf: Seq<u8>, addr: int, prev_size: nat) {
    }

    proof fn law_more_bytes_change_nothing(
        buf: Seq<u8>,
        more: Seq<u8>,
        addr: int,
        prev_size: nat,
    ) {
    }

    proof fn law_search_resumes(buf: Seq<u8>, more: Seq<u8>, addr: int, prev_size: nat) {
    }

    proof fn law_key_needs_only_its_bytes(buf: Seq<u8>, addr: int) {
    }

    proof fn law_only_alignment_matters(buf: Seq<u8>, addr: int, other: int, prev_size: nat) {
        lemma_u128_alignment(addr);
        lemma_u128_alignment(other);
    }

    proof fn law_layout() {
        reveal_with_fuel(vstd::arithmetic::power2::is_pow2, 5);
        assert(Self::NAME@ == Self::spec_name());
    }

    proof fn law_stored_key_is_found(&self, rest: Seq<u8>, addr: int) {
        lemma_u128_alignment(addr);
        lemma_u128_encoding(*self);
    }

    proof fn law_only_equal_keys_match(&self, other: &Self, rest: Seq<u8>) {
        lemma_u128_encoding(*self);
        lemma_u128_encoding(*other);
        assert((other.encoding() + rest).take(16) == other.encoding());
    }

    fn align() -> (align: usize) {
        16
    }

    fn write_bytes(&self) -> (size: usize) {
        proof {
            lemma_u128_encoding(*self);
        }
        16
    }

    fn write(&self, buf: &mut Vec<u8>) {
        let ghost before = buf@;
        buf.extend_from_slice(native::u128_as_bytes(self));
        assert(buf@ == before + self.encoding());
    }

    fn matches(&self, buf: &[u8]) -> (matched: bool) {
        starts_with(buf, native::u128_as_bytes(self))
    }

    fn from_bytes_at(buf: &[u8], addr: usize) -> (key: Option<u128>) {
        match u128::from_bytes_streaming_at(buf, addr, 0) {
            Ok(key) => Some(key),
            Err(_) => None,
        }
    }

    fn from_bytes_streaming_at(buf: &[u8], addr: usize, prev_size: usize) -> (key: ReadResult<
        u128,
    >) {
        broadcast use vstd::layout::align_nonzero;

        match check_cast(addr, core::mem::align_of::<u128>(), buf.len(), 16) {
            Ok(()) => match native::read_u128(buf) {
                Some((key, _)) => {
                    proof {
                        lemma_u128_decoding(buf@.take(16));
                    }
                    Ok(key)
                },
                None => Err(ReadError::Incomplete),
            },
            Err(error) => Err(error.read_error()),
        }
    }

    fn borrow(key: &u128) -> (borrowed: &u128) {
        key
    }

    fn same_key(&self, other: &u128) -> (same: bool) {
        proof {
            lemma_u128_encoding(*self);
            lemma_u128_encoding(*other);
        }
        *self == *other
    }

    fn phf_slot(&self, phf: &Function) -> (slot: Option<u64>) {
        phf::get_u128(phf, self)
    }
}

} // verus!
