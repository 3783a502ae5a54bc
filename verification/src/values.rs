//! The values that a hash map stores under a key.

use crate::align;
use crate::aligned;
use crate::keys::ConvertError;
use crate::native;
use vstd::prelude::*;

verus! {

/// A value that is stored as the bytes it has in memory. Any bytes of its size are a value.
pub trait Value: Copy {
    /// The value that `bytes` are in memory.
    spec fn from_native(bytes: Seq<u8>) -> Self;

    /// The bytes that the value is in memory.
    spec fn native(self) -> Seq<u8>;

    /// The bytes of a value are that value.
    proof fn law_value_has_its_bytes(self)
        ensures
            self.native().len() == vstd::layout::size_of::<Self>(),
            Self::from_native(self.native()) == self,
    ;

    /// A value takes some bytes, and an aligned buffer is aligned for it.
    proof fn law_layout()
        ensures
            vstd::layout::size_of::<Self>() > 0,
            aligned::BUFFER_ALIGN as int % vstd::layout::align_of::<Self>() as int == 0,
    ;

    /// Reads a value from the start of `data`, which need not be aligned.
    fn read_from_prefix(data: &[u8]) -> (read: Option<Self>)
        ensures
            read == (if data@.len() >= vstd::layout::size_of::<Self>() {
                Some(Self::from_native(data@.take(vstd::layout::size_of::<Self>() as int)))
            } else {
                None::<Self>
            }),
    ;
}

/// How many bytes a value takes.
pub open spec fn value_size<V>() -> int {
    vstd::layout::size_of::<V>() as int
}

/// The alignment of a value.
pub open spec fn value_align<V>() -> int {
    vstd::layout::align_of::<V>() as int
}

/// The `count` values that `data` starts with.
pub open spec fn values_in<V: Value>(data: Seq<u8>, count: nat) -> Seq<V> {
    Seq::new(
        count,
        |i: int| V::from_native(data.subrange(i * value_size::<V>(), (i + 1) * value_size::<V>())),
    )
}

/// The bytes of the values, one after the other.
pub open spec fn values_bytes<V: Value>(values: Seq<V>) -> Seq<u8>
    decreases values.len(),
{
    if values.len() == 0 {
        Seq::empty()
    } else {
        values_bytes(values.drop_last()) + values.last().native()
    }
}

/// Whether the first of `available` bytes at `addr` are `count` values. More values than memory
/// can hold are never there.
pub open spec fn values_outcome<V>(addr: int, available: int, count: u32) -> Result<
    (),
    ConvertError,
> {
    if count * value_size::<V>() > isize::MAX {
        Err(ConvertError::Size)
    } else if addr % value_align::<V>() != 0 {
        Err(ConvertError::Alignment)
    } else if available < count * value_size::<V>() {
        Err(ConvertError::Size)
    } else {
        Ok(())
    }
}

/// Checks whether the first of `available` bytes at `addr` are `count` values.
pub fn check_values<V: Value>(addr: usize, available: usize, count: u32) -> (outcome: Result<
    (),
    ConvertError,
>)
    ensures
        outcome == values_outcome::<V>(addr as int, available as int, count),
{
    broadcast use vstd::layout::align_nonzero;

    let size: u128 = core::mem::size_of::<V>() as u128;
    assert(count as u128 * size <= 0xffff_ffff * 0xffff_ffff_ffff_ffff) by (nonlinear_arith)
        requires
            size <= 0xffff_ffff_ffff_ffff,
            count <= 0xffff_ffff,
    ;
    let needed: u128 = count as u128 * size;
    if needed > isize::MAX as u128 {
        Err(ConvertError::Size)
    } else if addr % core::mem::align_of::<V>() != 0 {
        Err(ConvertError::Alignment)
    } else if (available as u128) < needed {
        Err(ConvertError::Size)
    } else {
        Ok(())
    }
}

/// Reads the first `count` values of `data`.
pub fn read_values<V: Value>(data: &[u8], count: usize) -> (values: Vec<V>)
    requires
        count * value_size::<V>() <= data@.len(),
    ensures
        values@ == values_in::<V>(data@, count as nat),
{
    let size: usize = core::mem::size_of::<V>();
    let mut values: Vec<V> = Vec::new();
    let mut at: usize = 0;
    let mut done: usize = 0;
    while done < count
        invariant
            size == value_size::<V>(),
            count * size <= data@.len(),
            done <= count,
            at == done * size,
            values@ == values_in::<V>(data@, done as nat),
        decreases count - done,
    {
        assert((done + 1) * size <= count * size) by (nonlinear_arith)
            requires
                done + 1 <= count,
        ;
        assert((done + 1) * size == done * size + size) by (nonlinear_arith);
        let rest = vstd::slice::slice_subrange(data, at, data.len());
        assert(rest@.take(size as int) == data@.subrange(
            done * value_size::<V>(),
            (done + 1) * value_size::<V>(),
        ));
        match V::read_from_prefix(rest) {
            Some(value) => values.push(value),
            None => {
                assert(false);
            },
        }
        at = at + size;
        done = done + 1;
        assert(values@ == values_in::<V>(data@, done as nat));
    }
    values
}

/// The bytes of `values` take the size of a value for each.
pub(crate) proof fn lemma_values_bytes_len<V: Value>(values: Seq<V>)
    ensures
        values_bytes(values).len() == values.len() * value_size::<V>(),
    decreases values.len(),
{
    if values.len() > 0 {
        lemma_values_bytes_len(values.drop_last());
        values.last().law_value_has_its_bytes();
        let fewer = values.len() - 1;
        assert((fewer + 1) * value_size::<V>() == fewer * value_size::<V>() + value_size::<V>())
            by (nonlinear_arith);
    } else {
        assert(0 * value_size::<V>() == 0);
    }
}

/// Stored values are found again, whatever follows them.
pub proof fn law_stored_values_are_found<V: Value>(values: Seq<V>, rest: Seq<u8>)
    ensures
        values_in::<V>(values_bytes(values) + rest, values.len()) == values,
    decreases values.len(),
{
    let size = value_size::<V>();
    let data = values_bytes(values) + rest;
    if values.len() > 0 {
        let fewer = values.drop_last();
        let last = values.last();
        lemma_values_bytes_len(values);
        lemma_values_bytes_len(fewer);
        last.law_value_has_its_bytes();
        law_stored_values_are_found(fewer, last.native() + rest);
        assert(data == values_bytes(fewer) + (last.native() + rest));
        assert((fewer.len() + 1) * size == fewer.len() * size + size) by (nonlinear_arith);
        assert(data.subrange(fewer.len() * size, (fewer.len() + 1) * size) == last.native());
        assert forall|i: int| 0 <= i < values.len() implies values_in::<V>(data, values.len())[i]
            == values[i] by {
            if i < fewer.len() {
                assert(values_in::<V>(data, fewer.len())[i] == fewer[i]);
            }
        }
    }
    assert(values_in::<V>(data, values.len()) == values);
}

/// Bytes behind the values do not matter.
pub(crate) proof fn lemma_values_in_prefix<V: Value>(data: Seq<u8>, more: Seq<u8>, count: nat)
    requires
        count * value_size::<V>() <= data.len(),
    ensures
        values_in::<V>(data + more, count) == values_in::<V>(data, count),
{
    let size = value_size::<V>();
    assert forall|i: int| 0 <= i < count implies values_in::<V>(data + more, count)[i]
        == values_in::<V>(data, count)[i] by {
        assert(0 <= i * size <= (i + 1) * size <= count * size) by (nonlinear_arith)
            requires
                0 <= i < count,
                size >= 0,
        ;
        assert((data + more).subrange(i * size, (i + 1) * size) == data.subrange(
            i * size,
            (i + 1) * size,
        ));
    }
    assert(values_in::<V>(data + more, count) == values_in::<V>(data, count));
}

/// An alignment that divides a size that divides [`aligned::BUFFER_ALIGN`] divides it too.
pub(crate) proof fn lemma_fits_buffer_align(size: int, align: int)
    requires
        align > 0,
        size > 0,
        size % align == 0,
        aligned::BUFFER_ALIGN as int % size == 0,
    ensures
        aligned::BUFFER_ALIGN as int % align == 0,
{
    align::lemma_divisor_of_alignment(aligned::BUFFER_ALIGN as int, size, align);
}

impl Value for u8 {
    open spec fn from_native(bytes: Seq<u8>) -> u8 {
        bytes[0]
    }

    open spec fn native(self) -> Seq<u8> {
        seq![self]
    }

    proof fn law_value_has_its_bytes(self) {
        broadcast use vstd::layout::layout_of_primitives;

    }

    proof fn law_layout() {
        broadcast use {
            vstd::layout::layout_of_primitives,
            vstd::layout::align_properties,
            vstd::layout::align_nonzero,
        };

        lemma_fits_buffer_align(1, vstd::layout::align_of::<u8>() as int);
    }

    fn read_from_prefix(data: &[u8]) -> (read: Option<u8>) {
        broadcast use vstd::layout::layout_of_primitives;

        if data.len() >= 1 {
            Some(data[0])
        } else {
            None
        }
    }
}

impl Value for u32 {
    open spec fn from_native(bytes: Seq<u8>) -> u32 {
        native::native_value(bytes) as u32
    }

    open spec fn native(self) -> Seq<u8> {
        native::native_bytes(self as nat, 4)
    }

    proof fn law_value_has_its_bytes(self) {
        broadcast use vstd::layout::layout_of_primitives;

        native::lemma_byte_values();
        native::law_value_of_bytes(self as nat, 4);
    }

    proof fn law_layout() {
        broadcast use {
            vstd::layout::layout_of_primitives,
            vstd::layout::align_properties,
            vstd::layout::align_nonzero,
        };

        lemma_fits_buffer_align(4, vstd::layout::align_of::<u32>() as int);
    }

    fn read_from_prefix(data: &[u8]) -> (read: Option<u32>) {
        broadcast use vstd::layout::layout_of_primitives;

        match native::read_u32(data) {
            Some((value, _)) => Some(value),
            None => None,
        }
    }
}

impl Value for u64 {
    open spec fn from_native(bytes: Seq<u8>) -> u64 {
        native::native_value(bytes) as u64
    }

    open spec fn native(self) -> Seq<u8> {
        native::native_bytes(self as nat, 8)
    }

    proof fn law_value_has_its_bytes(self) {
        broadcast use vstd::layout::layout_of_primitives;

        native::lemma_byte_values();
        native::law_value_of_bytes(self as nat, 8);
    }

    proof fn law_layout() {
        broadcast use {
            vstd::layout::layout_of_primitives,
            vstd::layout::align_properties,
            vstd::layout::align_nonzero,
        };

        lemma_fits_buffer_align(8, vstd::layout::align_of::<u64>() as int);
    }

    fn read_from_prefix(data: &[u8]) -> (read: Option<u64>) {
        broadcast use vstd::layout::layout_of_primitives;

        match native::read_u64(data) {
            Some((value, _)) => Some(value),
            None => None,
        }
    }
}

impl Value for i64 {
    open spec fn from_native(bytes: Seq<u8>) -> i64 {
        native::i64_of_bits(native::native_value(bytes))
    }

    open spec fn native(self) -> Seq<u8> {
        native::native_bytes(native::bits_of_i64(self), 8)
    }

    proof fn law_value_has_its_bytes(self) {
        broadcast use vstd::layout::layout_of_primitives;

        native::lemma_byte_values();
        native::law_i64_bits(self, 0);
        native::law_value_of_bytes(native::bits_of_i64(self), 8);
    }

    proof fn law_layout() {
        broadcast use {
            vstd::layout::layout_of_primitives,
            vstd::layout::align_properties,
            vstd::layout::align_nonzero,
        };

        lemma_fits_buffer_align(8, vstd::layout::align_of::<i64>() as int);
    }

    fn read_from_prefix(data: &[u8]) -> (read: Option<i64>) {
        broadcast use vstd::layout::layout_of_primitives;

        match native::read_i64(data) {
            Some((value, _)) => Some(value),
            None => None,
        }
    }
}

impl Value for u128 {
    open spec fn from_native(bytes: Seq<u8>) -> u128 {
        native::native_value(bytes) as u128
    }

    open spec fn native(self) -> Seq<u8> {
        native::native_bytes(self as nat, 16)
    }

    proof fn law_value_has_its_bytes(self) {
        broadcast use vstd::layout::layout_of_primitives;

        native::lemma_byte_values();
        native::law_value_of_bytes(self as nat, 16);
    }

    proof fn law_layout() {
        broadcast use {
            vstd::layout::layout_of_primitives,
            vstd::layout::align_properties,
            vstd::layout::align_nonzero,
        };

        lemma_fits_buffer_align(16, vstd::layout::align_of::<u128>() as int);
    }

    fn read_from_prefix(data: &[u8]) -> (read: Option<u128>) {
        broadcast use vstd::layout::layout_of_primitives;

        match native::read_u128(data) {
            Some((value, _)) => Some(value),
            None => None,
        }
    }
}

} // verus!
