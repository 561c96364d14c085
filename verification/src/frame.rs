//! Physical addresses as the page allocator and the boot allocator see
//! them.

use the_buddy_system::PageFrame;
use the_memblock::PhysAddr;
use vstd::arithmetic::power2::is_pow2;
use vstd::prelude::*;

verus! {

/// Calls `PhysAddr::align_down` for `usize`: the largest multiple of
/// `alignment` that is not above `addr`. It panics unless `alignment` is a
/// power of two.
#[verifier::external_body]
pub(crate) fn align_down(addr: usize, alignment: usize) -> (aligned: usize)
    requires
        is_pow2(alignment as int),
    ensures
        aligned == addr - addr % alignment,
{
    <usize as PhysAddr>::align_down(addr, alignment)
}

/// Calls `PageFrame::from_usize` for `usize`, which keeps the value.
#[verifier::external_body]
pub(crate) fn from_usize(index: usize) -> (addr: usize)
    ensures
        addr == index,
{
    <usize as PageFrame>::from_usize(index)
}

/// Calls `PageFrame::try_to_usize` for `usize`: every value is
/// representable.
#[verifier::external_body]
pub(crate) fn try_to_usize(addr: usize) -> (value: Option<usize>)
    ensures
        value == Some(addr),
{
    addr.try_to_usize()
}

} // verus!
