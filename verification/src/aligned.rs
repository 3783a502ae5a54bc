//! A growing buffer of bytes that lie at an aligned address.

use aligned_vec::AVec;
use vstd::prelude::*;

verus! {

/// The address of the bytes in an [`AlignedBuf`] is a multiple of this, on every machine.
pub const BUFFER_ALIGN: usize = 32;

/// Bytes in an `aligned_vec::AVec`, whose bound on its second parameter keeps it from being named
/// in contracts.
#[verifier::external_body]
pub struct AlignedBuf {
    bytes: AVec<u8>,
}

/// The bytes in a buffer.
pub uninterp spec fn buffered(buf: AlignedBuf) -> Seq<u8>;

impl View for AlignedBuf {
    type V = Seq<u8>;

    open spec fn view(&self) -> Seq<u8> {
        buffered(*self)
    }
}

/// Whether a buffer can hold `len` bytes, and the padding to an aligned address.
pub open spec fn fits_buffer(len: int) -> bool {
    len + 512 <= isize::MAX
}

/// A buffer can hold as many bytes as a value in memory can have, but for the last few, and fewer
/// where it can hold more.
pub proof fn law_buffer_holds_what_memory_can(len: int, fewer: int)
    ensures
        len <= isize::MAX - 512 ==> fits_buffer(len),
        fits_buffer(len) && fewer <= len ==> fits_buffer(fewer),
        fits_buffer(len) ==> len < isize::MAX,
{
}

/// Whether a buffer can be grown to `len` bytes where it lies: it may take twice the memory then.
pub open spec fn fits_in_place(len: int) -> bool {
    2 * len + 512 <= isize::MAX
}

/// Whether a buffer can hold `len` bytes.
pub fn check_fits_buffer(len: usize) -> (fits: bool)
    ensures
        fits == fits_buffer(len as int),
{
    len <= isize::MAX as usize - 512
}

impl AlignedBuf {
    /// An empty buffer, by `AVec::new`.
    ///
    /// Trusted: it is empty. A number that is no power of two, or is above the alignment that
    /// `AVec` has on the machine, would make it panic; that alignment is at least
    /// [`BUFFER_ALIGN`].
    #[verifier::external_body]
    fn new(align: usize) -> (buf: AlignedBuf)
        requires
            vstd::arithmetic::power2::is_pow2(align as int),
            align <= BUFFER_ALIGN,
        ensures
            buffered(buf) == Seq::<u8>::empty(),
    {
        AlignedBuf { bytes: AVec::new(align) }
    }

    /// A buffer of the bytes in `data`, by `AVec::from_slice`.
    ///
    /// Trusted: just that. It allocates no more than `data` takes. A number that is no power of two,
    /// or is above the alignment that `AVec` has on the machine, would make it panic, and so would
    /// more bytes than memory can hold.
    #[verifier::external_body]
    fn from_slice(align: usize, data: &[u8]) -> (buf: AlignedBuf)
        requires
            vstd::arithmetic::power2::is_pow2(align as int),
            align <= BUFFER_ALIGN,
            fits_buffer(data@.len() as int),
        ensures
            buffered(buf) == data@,
    {
        AlignedBuf { bytes: AVec::from_slice(align, data) }
    }

    /// How many bytes there are, by `AVec::len`.
    ///
    /// Trusted: just that.
    #[verifier::external_body]
    pub(crate) fn len(&self) -> (len: usize)
        ensures
            len == buffered(*self).len(),
    {
        self.bytes.len()
    }

    /// Whether there are no bytes, by `AVec::is_empty`.
    ///
    /// Trusted: just that.
    #[verifier::external_body]
    pub(crate) fn is_empty(&self) -> (empty: bool)
        ensures
            empty == (buffered(*self).len() == 0),
    {
        self.bytes.is_empty()
    }

    /// The bytes, by `AVec::as_slice`.
    ///
    /// Trusted: just that.
    #[verifier::external_body]
    pub(crate) fn as_slice(&self) -> (bytes: &[u8])
        ensures
            bytes@ == buffered(*self),
    {
        self.bytes.as_slice()
    }

    /// The address of the bytes, by `AVec::as_ptr`.
    ///
    /// Trusted: it is aligned, also when the buffer is empty or has been grown, and memory does not
    /// wrap around. Which aligned address it is, the machine decides.
    #[verifier::external_body]
    pub(crate) fn address(&self) -> (addr: usize)
        ensures
            addr % BUFFER_ALIGN == 0,
            addr + buffered(*self).len() <= usize::MAX,
    {
        self.bytes.as_ptr().addr()
    }

    /// Puts bytes behind those there are, by `AVec::extend_from_slice`.
    ///
    /// Trusted: just that. It may double what is allocated. With more bytes than memory can hold it
    /// would panic.
    #[verifier::external_body]
    fn extend_from_slice(&mut self, data: &[u8])
        requires
            fits_in_place((buffered(*old(self)).len() + data@.len()) as int),
        ensures
            buffered(*final(self)) == buffered(*old(self)) + data@,
    {
        self.bytes.extend_from_slice(data)
    }

    /// Copies the bytes from `from` on to the front, by `<[u8]>::copy_within`.
    ///
    /// Trusted: the bytes behind the copied ones stay.
    #[verifier::external_body]
    fn copy_to_front(&mut self, from: usize)
        requires
            from <= buffered(*old(self)).len(),
        ensures
            buffered(*final(self)) == buffered(*old(self)).skip(from as int) + buffered(*old(self)).skip(
                buffered(*old(self)).len() - from,
            ),
    {
        self.bytes.copy_within(from.., 0)
    }

    /// Keeps the first `len` bytes, by `AVec::truncate`.
    ///
    /// Trusted: where there are no more bytes, nothing changes.
    #[verifier::external_body]
    fn truncate(&mut self, len: usize)
        ensures
            buffered(*final(self)) == (if len < buffered(*old(self)).len() {
                buffered(*old(self)).take(len as int)
            } else {
                buffered(*old(self))
            }),
    {
        self.bytes.truncate(len)
    }

    /// An empty buffer.
    pub(crate) fn for_entries() -> (buf: AlignedBuf)
        ensures
            buf@ == Seq::<u8>::empty(),
    {
        proof {
            assert(vstd::arithmetic::power2::is_pow2(1)) by {
                reveal(vstd::arithmetic::power2::is_pow2);
            }
        }
        AlignedBuf::new(1)
    }

    /// Puts bytes behind those there are. Where twice the memory cannot be had, they are copied to a
    /// buffer of their size.
    pub(crate) fn extend(&mut self, data: &[u8])
        requires
            fits_buffer((old(self)@.len() + data@.len()) as int),
        ensures
            final(self)@ == old(self)@ + data@,
    {
        let ghost before = self@;
        proof {
            assert(vstd::arithmetic::power2::is_pow2(1)) by {
                reveal(vstd::arithmetic::power2::is_pow2);
            }
        }
        if self.is_empty() {
            *self = AlignedBuf::from_slice(1, data);
            assert(self@ == before + data@);
        } else if self.len() + data.len() <= (isize::MAX as usize - 512) / 2 {
            self.extend_from_slice(data);
        } else {
            let mut all: Vec<u8> = Vec::with_capacity(self.len() + data.len());
            all.extend_from_slice(self.as_slice());
            all.extend_from_slice(data);
            *self = AlignedBuf::from_slice(1, all.as_slice());
            assert(self@ == before + data@);
        }
    }

    /// Removes the first `count` bytes.
    pub(crate) fn drop_front(&mut self, count: usize)
        requires
            count <= old(self)@.len(),
        ensures
            final(self)@ == old(self)@.skip(count as int),
    {
        let ghost before = self@;
        let remaining: usize = self.len() - count;
        self.copy_to_front(count);
        self.truncate(remaining);
        assert(self@ == before.skip(count as int));
    }
}

} // verus!
