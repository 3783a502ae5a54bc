//! Where bytes lie in memory, and how far they are from the next aligned address.

use vstd::prelude::*;

verus! {

/// How far `addr` is from the next multiple of `align`.
pub open spec fn pad_to_align(addr: int, align: int) -> int {
    if addr % align == 0 {
        0
    } else {
        align - addr % align
    }
}

/// The smallest multiple of `step` that is not below `n`.
pub open spec fn round_up(n: int, step: int) -> int {
    n + pad_to_align(n, step)
}

/// The address of the first byte of `data`, by `<[u8]>::as_ptr` and `pointer::addr`.
///
/// Trusted: memory does not wrap around, so the bytes end at an address too. Which address it is,
/// the machine decides.
#[verifier::external_body]
pub(crate) fn slice_address(data: &[u8]) -> (addr: usize)
    ensures
        addr + data@.len() <= usize::MAX,
{
    data.as_ptr().addr()
}

/// How many bytes must be skipped from `addr` on to get to a multiple of `align`.
pub fn align_offset(addr: usize, align: usize) -> (offset: usize)
    requires
        align > 0,
    ensures
        offset == pad_to_align(addr as int, align as int),
{
    let over: usize = addr % align;
    if over == 0 {
        0
    } else {
        align - over
    }
}

/// [`pad_to_align`] pads by less than `align`, to a multiple of it, and by nothing if there is no
/// need.
pub proof fn law_padding_aligns(addr: int, align: int)
    requires
        align > 0,
    ensures
        0 <= pad_to_align(addr, align) < align,
        (addr + pad_to_align(addr, align)) % align == 0,
        pad_to_align(addr + pad_to_align(addr, align), align) == 0,
{
    if addr % align != 0 {
        vstd::arithmetic::div_mod::lemma_fundamental_div_mod(addr, align);
        let q = addr / align;
        assert(addr + pad_to_align(addr, align) == align * (q + 1)) by (nonlinear_arith)
            requires
                addr == align * q + addr % align,
                pad_to_align(addr, align) == align - addr % align,
        ;
        vstd::arithmetic::div_mod::lemma_mod_multiples_basic(q + 1, align);
        assert((q + 1) * align == align * (q + 1)) by (nonlinear_arith);
    }
}

/// An address that is a multiple of `whole` is a multiple of what divides `whole`.
pub(crate) proof fn lemma_divisor_of_alignment(addr: int, whole: int, align: int)
    requires
        align > 0,
        whole > 0,
        whole % align == 0,
        addr % whole == 0,
    ensures
        addr % align == 0,
{
    vstd::arithmetic::div_mod::lemma_fundamental_div_mod(addr, whole);
    vstd::arithmetic::div_mod::lemma_fundamental_div_mod(whole, align);
    let times = (addr / whole) * (whole / align);
    assert(addr == times * align) by (nonlinear_arith)
        requires
            addr == whole * (addr / whole) + 0,
            whole == align * (whole / align) + 0,
            times == (addr / whole) * (whole / align),
    ;
    vstd::arithmetic::div_mod::lemma_mod_multiples_basic(times, align);
}

/// Addresses that are equally far from an aligned one stay so when both are moved.
pub(crate) proof fn lemma_same_distance(addr: int, other: int, by: int, align: int)
    requires
        align > 0,
        addr % align == other % align,
    ensures
        (addr + by) % align == (other + by) % align,
        pad_to_align(addr + by, align) == pad_to_align(other + by, align),
{
    vstd::arithmetic::div_mod::lemma_add_mod_noop(addr, by, align);
    vstd::arithmetic::div_mod::lemma_add_mod_noop(other, by, align);
}

} // verus!
