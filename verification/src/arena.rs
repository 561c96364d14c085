//! The buddy allocator behind the page allocators.
//!
//! An [`Arena`] holds a `Buddy` allocator of the_buddy_system with `usize`
//! addresses. What the allocator has free and has handed out is described by
//! an [`ArenaView`]; the private functions that call the allocator state what
//! each call does to it.

use the_buddy_system::Buddy;
use the_buddy_system::Error as BuddyError;
use the_buddy_system::Page;
use vstd::arithmetic::div_mod::lemma_fundamental_div_mod;
use vstd::arithmetic::div_mod::lemma_mod_multiples_basic;
use vstd::arithmetic::power2::is_pow2;
use vstd::arithmetic::power2::lemma2_to64;
use vstd::arithmetic::power2::pow2;
use vstd::prelude::*;
use vstd::set_lib::lemma_int_range;
use vstd::set_lib::lemma_len_subset;
use vstd::set_lib::set_int_range;

use crate::error::Error;
use crate::layout::lemma_block_bytes_ordered;
use crate::layout::lemma_pow2_positive;
use crate::pages::block_bytes;
use crate::pages::block_pages;

verus! {

/// A page descriptor of the_buddy_system.
#[verifier::external_type_specification]
#[verifier::external_body]
pub struct ExPage(Page);

/// An error of the_buddy_system.
#[verifier::external_type_specification]
pub struct ExBuddyError(BuddyError);

/// A `Buddy` allocator, which is opaque.
#[verifier::external_body]
#[verifier::reject_recursive_types(N)]
struct RawBuddy<'b, const N: usize> {
    inner: Buddy<'b, usize, N>,
}

/// The state of a buddy allocator.
#[verifier::ext_equal]
pub ghost struct ArenaView {
    /// The allocator has page descriptors.
    pub initialized: bool,
    /// The address of the first page.
    pub base: int,
    /// The size of a page in bytes, zero before initialization.
    pub page_size: int,
    /// The number of pages.
    pub nr_pages: int,
    /// The pages that are free, by address.
    pub free: Set<int>,
    /// The blocks that are handed out: address to order.
    pub blocks: Map<int, u8>,
}

/// The allocator before initialization.
pub open spec fn no_arena() -> ArenaView {
    ArenaView {
        initialized: false,
        base: 0,
        page_size: 0,
        nr_pages: 0,
        free: Set::empty(),
        blocks: Map::empty(),
    }
}

impl ArenaView {
    /// The address behind the last page.
    pub open spec fn end(self) -> int {
        self.base + self.nr_pages * self.page_size
    }

    /// The block at `addr` is aligned to its size and lies in the arena.
    pub open spec fn holds(self, addr: int, order: u8) -> bool {
        let bytes = block_bytes(self.page_size, order);
        &&& self.base <= addr
        &&& addr + bytes <= self.end()
        &&& addr % bytes == 0
        &&& 0 < bytes
    }

    /// All pages of the block at `addr` are free.
    pub open spec fn block_free(self, addr: int, order: u8) -> bool {
        &&& self.holds(addr, order)
        &&& block_pages(self.page_size, addr, order).subset_of(self.free)
    }

    /// Some block of `order` is free.
    pub open spec fn serves(self, order: u8) -> bool {
        exists|addr: int| self.block_free(addr, order)
    }

    /// The block at `addr` is handed out.
    pub open spec fn with_block(self, addr: int, order: u8) -> ArenaView {
        ArenaView {
            free: self.free.difference(block_pages(self.page_size, addr, order)),
            blocks: self.blocks.insert(addr, order),
            ..self
        }
    }

    /// The block at `addr` is back.
    pub open spec fn without_block(self, addr: int) -> ArenaView {
        ArenaView {
            free: self.free.union(block_pages(self.page_size, addr, self.blocks[addr])),
            blocks: self.blocks.remove(addr),
            ..self
        }
    }

    /// The pages of the arena that lie between `start` and `end` as a whole.
    pub open spec fn pages_between(self, start: int, end: int) -> Set<int> {
        Set::new(
            |p: int|
                start <= p && p + self.page_size <= end && self.base <= p && p + self.page_size <= self.end() && p
                    % self.page_size == 0,
        )
    }

    /// The pages of the arena that lie in one of the first `count` ranges as a
    /// whole.
    pub open spec fn pages_within(self, ranges: Seq<(usize, usize)>, count: int) -> Set<int> {
        Set::new(
            |p: int|
                exists|i: int|
                    0 <= i < count && self.pages_between((#[trigger] ranges[i]).0 as int, ranges[i].1 as int).contains(p),
        )
    }

    /// The pages that are free or in a block that is handed out.
    pub open spec fn managed(self) -> Set<int> {
        Set::new(
            |p: int|
                self.free.contains(p) || exists|a: int| #[trigger]
                    self.blocks.dom().contains(a) && block_pages(self.page_size, a, self.blocks[a]).contains(p),
        )
    }

    /// No page in `pages` is free or in use.
    pub open spec fn unknown(self, pages: Set<int>) -> bool {
        &&& pages.disjoint(self.free)
        &&& forall|a: int| #[trigger] self.blocks.dom().contains(a) ==> pages.disjoint(
            block_pages(self.page_size, a, self.blocks[a]),
        )
    }

    /// The free pages and the blocks in use lie in the arena, apart from each
    /// other.
    pub open spec fn ok(self, orders: usize) -> bool {
        &&& !self.initialized ==> self == no_arena()
        &&& self.initialized ==> {
            &&& 0 < orders <= usize::BITS
            &&& is_pow2(self.page_size)
            &&& 0 < self.page_size <= usize::MAX
            &&& 0 <= self.base
            &&& 0 < self.nr_pages
            &&& self.base % block_bytes(self.page_size, (orders - 1) as u8) == 0
            &&& self.end() <= usize::MAX + 1
            &&& self.free.finite()
            &&& forall|a: int| #[trigger] self.blocks.dom().contains(a) ==> {
                &&& self.blocks[a] < orders
                &&& self.holds(a, self.blocks[a])
                &&& self.free.disjoint(block_pages(self.page_size, a, self.blocks[a]))
            }
            &&& forall|a: int, b: int| #![trigger self.blocks.dom().contains(a), self.blocks.dom().contains(b)]
                self.blocks.dom().contains(a) && self.blocks.dom().contains(b) && a != b ==> {
                    ||| a + block_bytes(self.page_size, self.blocks[a]) <= b
                    ||| b + block_bytes(self.page_size, self.blocks[b]) <= a
                }
        }
    }
}

/// Why no arena of `orders` orders can be made of `nr_pages` pages at `base`;
/// `None` if one can.
///
/// There must be an order, and no more orders than bits in an address; the
/// page size must be a power of two; the largest block must fit; the range
/// must not wrap around; and `base` must be aligned to the largest block.
pub open spec fn arena_error(orders: usize, base: int, page_size: int, nr_pages: int) -> Option<BuddyError> {
    let largest = block_bytes(page_size, (orders - 1) as u8);
    if nr_pages == 0 || orders == 0 || orders > usize::BITS {
        Some(BuddyError::InvalidGeometry)
    } else if !is_pow2(page_size) {
        Some(BuddyError::InvalidPageSize)
    } else if nr_pages < pow2((orders - 1) as nat) || largest > usize::MAX {
        Some(BuddyError::InvalidGeometry)
    } else if base / page_size + nr_pages > usize::MAX || base + nr_pages * page_size > usize::MAX + 1 {
        Some(BuddyError::InvalidGeometry)
    } else if base % largest != 0 {
        Some(BuddyError::InvalidGeometry)
    } else {
        None
    }
}

/// The slab error for a buddy error.
pub open spec fn mapped_error(error: BuddyError) -> Error {
    match error {
        BuddyError::OutOfMemory => Error::OutOfMemory,
        _ => Error::PageAlloc,
    }
}

/// Projects buddy errors onto slab errors.
pub fn map_buddy_error(error: BuddyError) -> (mapped: Error)
    ensures
        mapped == mapped_error(error),
{
    match error {
        BuddyError::OutOfMemory => Error::OutOfMemory,
        _ => Error::PageAlloc,
    }
}

/// A buddy allocator managing a contiguous range of physical pages.
#[verifier::reject_recursive_types(N)]
pub struct Arena<'b, const N: usize> {
    buddy: RawBuddy<'b, N>,
    /// What the allocator holds; the functions that call the allocator say
    /// how it changes.
    state: Ghost<ArenaView>,
}

impl<'b, const N: usize> View for Arena<'b, N> {
    type V = ArenaView;

    closed spec fn view(&self) -> ArenaView {
        self.state@
    }
}

impl<'b, const N: usize> Arena<'b, N> {
    /// The state is in order.
    pub open spec fn wf(&self) -> bool {
        self@.ok(N)
    }

    /// Calls `Buddy::uninit`: an allocator without pages.
    #[verifier::external_body]
    fn raw_uninit() -> (arena: Self)
        ensures
            arena@ == no_arena(),
    {
        Arena { buddy: RawBuddy { inner: Buddy::uninit() }, state: Ghost(no_arena()) }
    }

    /// Calls `Buddy::new`: the allocator manages one page for each descriptor,
    /// from `base` on, and none of them is free. It reports
    /// [`arena_error`] and otherwise succeeds.
    #[verifier::external_body]
    fn raw_new(base: usize, page_size: usize, descriptors: &'b mut [Page]) -> (result: Result<Self, BuddyError>)
        ensures
            match result {
                Ok(arena) => {
                    &&& arena_error(N, base as int, page_size as int, old(descriptors)@.len() as int) is None
                    &&& arena@ == fresh_arena(base as int, page_size as int, old(descriptors)@.len() as int)
                },
                Err(error) => arena_error(N, base as int, page_size as int, old(descriptors)@.len() as int) == Some(
                    error,
                ),
            },
    {
        let count: usize = descriptors.len();
        let inner = Buddy::new(base, page_size, descriptors)?;
        let state = Ghost(fresh_arena(base as int, page_size as int, count as int));
        Ok(Arena { buddy: RawBuddy { inner }, state })
    }

    /// Calls `Buddy::is_initialized`.
    #[verifier::external_body]
    fn raw_is_initialized(&self) -> (initialized: bool)
        ensures
            initialized == self@.initialized,
    {
        self.buddy.inner.is_initialized()
    }

    /// Calls `Buddy::page_size`, which is zero before initialization.
    #[verifier::external_body]
    fn raw_page_size(&self) -> (page_size: usize)
        requires
            self.wf(),
        ensures
            page_size == self@.page_size,
    {
        self.buddy.inner.page_size()
    }

    /// Calls `Buddy::nr_free`, which counts the free pages.
    #[verifier::external_body]
    fn raw_nr_free(&self) -> (count: usize)
        requires
            self.wf(),
        ensures
            count == self@.free.len(),
    {
        self.buddy.inner.nr_free()
    }

    /// Reads `Buddy::MAX_ORDER`, which is one less than the number of orders,
    /// and zero where there are none.
    #[verifier::external_body]
    fn raw_max_order() -> (order: usize)
        ensures
            order == (if N == 0 { 0 } else { N - 1 }),
    {
        <Buddy<'b, usize, N>>::MAX_ORDER
    }

    /// Calls `Buddy::alloc_pages`. It takes a block of the wanted order out of
    /// a free block of that order or a larger one. Free buddies are always
    /// merged, so there is such a block exactly if some aligned block of the
    /// wanted order has only free pages. Which one is taken is left open.
    #[verifier::external_body]
    fn raw_alloc_pages(&mut self, order: u8) -> (result: Result<usize, BuddyError>)
        requires
            old(self).wf(),
        ensures
            match result {
                Ok(addr) => {
                    &&& old(self)@.initialized
                    &&& order < N
                    &&& old(self)@.block_free(addr as int, order)
                    &&& final(self)@ == old(self)@.with_block(addr as int, order)
                },
                Err(error) => {
                    &&& final(self)@ == old(self)@
                    &&& if !old(self)@.initialized {
                        error == BuddyError::Uninitialized
                    } else if order >= N {
                        error == BuddyError::InvalidOrder
                    } else {
                        error == BuddyError::OutOfMemory && !old(self)@.serves(order)
                    }
                },
            },
    {
        self.buddy.inner.alloc_pages(order)
    }

    /// Calls `Buddy::free_pages`. It takes a block back that was handed out
    /// with the same order, and refuses an address where no block starts that
    /// was handed out. It does not notice a wrong order, so the order must be
    /// right.
    #[verifier::external_body]
    fn raw_free_pages(&mut self, addr: usize, order: u8) -> (result: Result<(), BuddyError>)
        requires
            old(self).wf(),
            old(self)@.blocks.dom().contains(addr as int) ==> old(self)@.blocks[addr as int] == order,
        ensures
            match result {
                Ok(()) => {
                    &&& old(self)@.blocks.dom().contains(addr as int)
                    &&& final(self)@ == old(self)@.without_block(addr as int)
                },
                Err(error) => {
                    &&& !old(self)@.blocks.dom().contains(addr as int)
                    &&& final(self)@ == old(self)@
                    &&& error != BuddyError::OutOfMemory
                    &&& error == BuddyError::Uninitialized <==> !old(self)@.initialized
                },
            },
    {
        self.buddy.inner.free_pages(addr, order)
    }

    /// Calls `Buddy::free_range`. The whole pages of the arena between `start`
    /// and `end` become free. It notices only some ranges with pages that are
    /// free or in use already, so there must be none.
    #[verifier::external_body]
    fn raw_free_range(&mut self, start: usize, end: usize) -> (result: Result<(), BuddyError>)
        requires
            old(self).wf(),
            old(self)@.initialized ==> old(self)@.unknown(old(self)@.pages_between(start as int, end as int)),
        ensures
            match result {
                Ok(()) => {
                    &&& old(self)@.initialized
                    &&& final(self)@ == (ArenaView {
                        free: old(self)@.free.union(old(self)@.pages_between(start as int, end as int)),
                        ..old(self)@
                    })
                },
                Err(error) => {
                    &&& !old(self)@.initialized
                    &&& error == BuddyError::Uninitialized
                    &&& final(self)@ == old(self)@
                },
            },
    {
        self.buddy.inner.free_range(start, end)
    }

    /// An allocator without pages.
    pub fn uninit() -> (arena: Self)
        ensures
            arena@ == no_arena(),
            arena.wf(),
    {
        Self::raw_uninit()
    }

    /// Creates an allocator that manages one page for each descriptor, from
    /// `base` on. No page is free until it is handed to
    /// [`Arena::free_range`].
    ///
    /// # Errors
    ///
    /// [`Error::PageAlloc`] if the page size is no power of two or the
    /// geometry is invalid.
    pub fn new(base: usize, page_size: usize, descriptors: &'b mut [Page]) -> (result: Result<Self, Error>)
        ensures
            match result {
                Ok(arena) => {
                    &&& arena_error(N, base as int, page_size as int, old(descriptors)@.len() as int) is None
                    &&& arena@ == fresh_arena(base as int, page_size as int, old(descriptors)@.len() as int)
                    &&& arena.wf()
                },
                Err(error) => {
                    &&& arena_error(N, base as int, page_size as int, old(descriptors)@.len() as int) is Some
                    &&& error == Error::PageAlloc
                },
            },
    {
        match Self::raw_new(base, page_size, descriptors) {
            Ok(arena) => {
                proof {
                    lemma_fresh_arena(N, base as int, page_size as int, arena@.nr_pages);
                }
                Ok(arena)
            },
            Err(error) => Err(map_buddy_error(error)),
        }
    }

    /// Returns `true` once the allocator has page descriptors.
    pub fn is_initialized(&self) -> (initialized: bool)
        ensures
            initialized == self@.initialized,
    {
        self.raw_is_initialized()
    }

    /// Returns the page size, zero before initialization.
    pub fn page_size(&self) -> (page_size: usize)
        requires
            self.wf(),
        ensures
            page_size == self@.page_size,
    {
        self.raw_page_size()
    }

    /// Returns the number of free pages.
    pub fn nr_free(&self) -> (count: usize)
        requires
            self.wf(),
        ensures
            count == self@.free.len(),
    {
        self.raw_nr_free()
    }

    /// Returns the largest order of a block.
    pub fn max_order() -> (order: u8)
        ensures
            order == top_order(N),
    {
        Self::raw_max_order() as u8
    }

    /// Hands out a block of `2^order` pages, aligned to its size.
    ///
    /// # Errors
    ///
    /// [`Error::OutOfMemory`] if there is none that is free, and
    /// [`Error::PageAlloc`] before initialization or if the order is too
    /// large.
    pub fn alloc_pages(&mut self, order: u8) -> (result: Result<usize, Error>)
        requires
            old(self).wf(),
        ensures
            final(self).wf(),
            match result {
                Ok(addr) => {
                    &&& refusal(N, old(self)@, order) is None
                    &&& old(self)@.block_free(addr as int, order)
                    &&& !old(self)@.blocks.dom().contains(addr as int)
                    &&& final(self)@ == old(self)@.with_block(addr as int, order)
                },
                Err(error) => {
                    &&& refusal(N, old(self)@, order) == Some(error)
                    &&& final(self)@ == old(self)@
                },
            },
    {
        match self.raw_alloc_pages(order) {
            Ok(addr) => {
                proof {
                    lemma_with_block(N, old(self)@, addr as int, order);
                }
                Ok(addr)
            },
            Err(error) => Err(map_buddy_error(error)),
        }
    }

    /// Takes a block back that was handed out with the same order.
    ///
    /// # Errors
    ///
    /// [`Error::PageAlloc`] if no block that is handed out starts at `addr`.
    pub fn free_pages(&mut self, addr: usize, order: u8) -> (result: Result<(), Error>)
        requires
            old(self).wf(),
            old(self)@.blocks.dom().contains(addr as int) ==> old(self)@.blocks[addr as int] == order,
        ensures
            final(self).wf(),
            if old(self)@.blocks.dom().contains(addr as int) {
                &&& result is Ok
                &&& final(self)@ == old(self)@.without_block(addr as int)
            } else {
                &&& result == Err::<(), Error>(Error::PageAlloc)
                &&& final(self)@ == old(self)@
            },
    {
        match self.raw_free_pages(addr, order) {
            Ok(()) => {
                proof {
                    lemma_without_block(N, old(self)@, addr as int);
                }
                Ok(())
            },
            Err(error) => Err(map_buddy_error(error)),
        }
    }

    /// Makes the whole pages of the arena between `start` and `end` free.
    ///
    /// # Errors
    ///
    /// [`Error::PageAlloc`] before initialization.
    pub fn free_range(&mut self, start: usize, end: usize) -> (result: Result<(), Error>)
        requires
            old(self).wf(),
            old(self)@.initialized ==> old(self)@.unknown(old(self)@.pages_between(start as int, end as int)),
        ensures
            final(self).wf(),
            if old(self)@.initialized {
                &&& result is Ok
                &&& final(self)@ == (ArenaView {
                    free: old(self)@.free.union(old(self)@.pages_between(start as int, end as int)),
                    ..old(self)@
                })
            } else {
                &&& result == Err::<(), Error>(Error::PageAlloc)
                &&& final(self)@ == old(self)@
            },
    {
        match self.raw_free_range(start, end) {
            Ok(()) => {
                proof {
                    lemma_pages_finite(old(self)@, start as int, end as int);
                }
                Ok(())
            },
            Err(error) => Err(map_buddy_error(error)),
        }
    }

    /// Makes the whole pages of the arena in each of the ranges free, like
    /// [`Arena::free_range`]. A range is given by where it starts and where it
    /// ends.
    ///
    /// # Errors
    ///
    /// [`Error::PageAlloc`] before initialization, if there is a range.
    pub fn free_ranges(&mut self, ranges: &Vec<(usize, usize)>) -> (result: Result<(), Error>)
        requires
            old(self).wf(),
            old(self)@.initialized ==> {
                &&& forall|i: int|
                    0 <= i < ranges@.len() ==> old(self)@.unknown(
                        old(self)@.pages_between((#[trigger] ranges@[i]).0 as int, ranges@[i].1 as int),
                    )
                &&& forall|i: int, j: int|
                    0 <= i < j < ranges@.len() ==> old(self)@.pages_between(
                        (#[trigger] ranges@[i]).0 as int,
                        ranges@[i].1 as int,
                    ).disjoint(old(self)@.pages_between((#[trigger] ranges@[j]).0 as int, ranges@[j].1 as int))
            },
        ensures
            final(self).wf(),
            if old(self)@.initialized {
                &&& result is Ok
                &&& final(self)@ == (ArenaView {
                    free: old(self)@.free.union(old(self)@.pages_within(ranges@, ranges@.len() as int)),
                    ..old(self)@
                })
            } else {
                &&& result == (if ranges@.len() == 0 {
                    Ok::<(), Error>(())
                } else {
                    Err::<(), Error>(Error::PageAlloc)
                })
                &&& final(self)@ == old(self)@
            },
    {
        let ghost v = self@;
        let mut done: usize = 0;
        assert(v.free.union(v.pages_within(ranges@, 0)) =~= v.free);
        while done < ranges.len()
            invariant
                done <= ranges@.len(),
                self.wf(),
                !v.initialized ==> done == 0,
                v == old(self)@,
                v.initialized ==> {
                    &&& forall|i: int|
                        0 <= i < ranges@.len() ==> v.unknown(
                            v.pages_between((#[trigger] ranges@[i]).0 as int, ranges@[i].1 as int),
                        )
                    &&& forall|i: int, j: int|
                        0 <= i < j < ranges@.len() ==> v.pages_between(
                            (#[trigger] ranges@[i]).0 as int,
                            ranges@[i].1 as int,
                        ).disjoint(v.pages_between((#[trigger] ranges@[j]).0 as int, ranges@[j].1 as int))
                },
                self@ == (ArenaView { free: v.free.union(v.pages_within(ranges@, done as int)), ..v }),
            decreases ranges@.len() - done,
        {
            let (start, end) = ranges[done];
            let ghost now = self@;
            proof {
                let next = v.pages_between(start as int, end as int);
                assert(now.pages_between(start as int, end as int) =~= next);
                if v.initialized {
                    assert forall|p: int| #[trigger] next.contains(p) implies !now.free.contains(p) by {
                        assert(v.unknown(next));
                        assert(!v.pages_within(ranges@, done as int).contains(p));
                    }
                }
            }
            self.free_range(start, end)?;
            proof {
                assert(now.free.union(v.pages_between(start as int, end as int)) =~= v.free.union(
                    v.pages_within(ranges@, done + 1),
                )) by {
                    assert forall|p: int| v.pages_within(ranges@, done + 1).contains(p) implies v.pages_within(
                        ranges@,
                        done as int,
                    ).contains(p) || v.pages_between(start as int, end as int).contains(p) by {}
                    assert forall|p: int| v.pages_between(start as int, end as int).contains(p) implies v.pages_within(
                        ranges@,
                        done + 1,
                    ).contains(p) by {
                        assert(v.pages_between(ranges@[done as int].0 as int, ranges@[done as int].1 as int).contains(p));
                    }
                }
            }
            done = done + 1;
        }
        Ok(())
    }
}

/// The largest order where there are `orders` of them.
pub open spec fn top_order(orders: usize) -> u8 {
    (if orders == 0 { 0 } else { orders - 1 }) as u8
}

/// Why a block of `order` is not handed out; `None` if one is.
pub open spec fn refusal(orders: usize, v: ArenaView, order: u8) -> Option<Error> {
    if !v.initialized || order >= orders {
        Some(Error::PageAlloc)
    } else if !v.serves(order) {
        Some(Error::OutOfMemory)
    } else {
        None
    }
}

/// An arena whose pages are neither free nor in use.
pub open spec fn fresh_arena(base: int, page_size: int, nr_pages: int) -> ArenaView {
    ArenaView { initialized: true, base, page_size, nr_pages, free: Set::empty(), blocks: Map::empty() }
}

/// A page that was never handed to the allocator stays unknown to it when
/// blocks are handed out and taken back: none of these operations makes it
/// part of a block.
pub proof fn unknown_pages_stay_unknown(orders: usize, v: ArenaView, pages: Set<int>, addr: int, order: u8)
    requires
        v.ok(orders),
        v.unknown(pages),
    ensures
        v.block_free(addr, order) ==> {
            &&& pages.disjoint(block_pages(v.page_size, addr, order))
            &&& v.with_block(addr, order).unknown(pages)
        },
        v.blocks.dom().contains(addr) ==> v.without_block(addr).unknown(pages),
{
    if v.block_free(addr, order) {
        let new = v.with_block(addr, order);
        assert forall|a: int| #[trigger] new.blocks.dom().contains(a) implies pages.disjoint(
            block_pages(new.page_size, a, new.blocks[a]),
        ) by {}
    }
    if v.blocks.dom().contains(addr) {
        let new = v.without_block(addr);
        assert forall|a: int| #[trigger] new.blocks.dom().contains(a) implies pages.disjoint(
            block_pages(new.page_size, a, new.blocks[a]),
        ) by {}
    }
}

/// Taking back the block that was just handed out gives the arena back.
pub proof fn freeing_undoes_allocating(v: ArenaView, addr: int, order: u8)
    requires
        v.block_free(addr, order),
        !v.blocks.dom().contains(addr),
    ensures
        v.with_block(addr, order).without_block(addr) == v,
{
}

proof fn lemma_fresh_arena(orders: usize, base: int, page_size: int, nr_pages: int)
    requires
        arena_error(orders, base, page_size, nr_pages) is None,
        0 <= base,
        0 <= page_size <= usize::MAX,
        0 <= nr_pages,
    ensures
        fresh_arena(base, page_size, nr_pages).ok(orders),
{
    reveal(is_pow2);
}

/// The pages between two addresses are finitely many.
proof fn lemma_pages_finite(v: ArenaView, start: int, end: int)
    ensures
        v.pages_between(start, end).finite(),
{
    let bound = if v.page_size > 0 { end } else { end - v.page_size };
    let wide = set_int_range(start, if start <= bound + 1 { bound + 1 } else { start });
    lemma_int_range(start, if start <= bound + 1 { bound + 1 } else { start });
    lemma_len_subset(v.pages_between(start, end), wide);
}

proof fn lemma_block_pages_finite(page_size: int, addr: int, order: u8)
    ensures
        block_pages(page_size, addr, order).finite(),
{
    let bytes = block_bytes(page_size, order);
    let wide = set_int_range(addr, if bytes >= 0 { addr + bytes } else { addr });
    lemma_int_range(addr, if bytes >= 0 { addr + bytes } else { addr });
    lemma_len_subset(block_pages(page_size, addr, order), wide);
}

/// The first page of a block is one of its pages.
proof fn lemma_first_page(v: ArenaView, addr: int, order: u8)
    requires
        is_pow2(v.page_size),
        v.holds(addr, order),
    ensures
        block_pages(v.page_size, addr, order).contains(addr),
{
    lemma_block_pages_aligned(v.page_size, addr, order);
}

/// A block is aligned to the page size.
pub proof fn lemma_block_pages_aligned(page_size: int, addr: int, order: u8)
    requires
        is_pow2(page_size),
        addr % block_bytes(page_size, order) == 0,
    ensures
        addr % page_size == 0,
        0 < block_bytes(page_size, order),
{
    lemma_pow2_positive(page_size);
    lemma_block_bytes_ordered(page_size, 0, order);
    assert(pow2(0) == 1) by {
        lemma2_to64();
    }
    let bytes = block_bytes(page_size, order);
    let n = pow2(order as nat) as int;
    lemma_fundamental_div_mod(addr, bytes);
    let q = addr / bytes;
    assert(addr == (n * q) * page_size) by (nonlinear_arith)
        requires
            addr == bytes * q,
            bytes == page_size * n,
    ;
    lemma_mod_multiples_basic(n * q, page_size);
}

/// Two blocks without a page in common do not overlap.
proof fn lemma_blocks_apart(page_size: int, a: int, ao: u8, b: int, bo: u8)
    requires
        is_pow2(page_size),
        a % block_bytes(page_size, ao) == 0,
        b % block_bytes(page_size, bo) == 0,
        block_pages(page_size, a, ao).disjoint(block_pages(page_size, b, bo)),
    ensures
        a + block_bytes(page_size, ao) <= b || b + block_bytes(page_size, bo) <= a,
{
    lemma_block_pages_aligned(page_size, a, ao);
    lemma_block_pages_aligned(page_size, b, bo);
    if a <= b {
        assert(block_pages(page_size, b, bo).contains(b));
    } else {
        assert(block_pages(page_size, a, ao).contains(a));
    }
}

/// Handing out a free block keeps an arena in order.
pub proof fn lemma_with_block(orders: usize, v: ArenaView, addr: int, order: u8)
    requires
        v.ok(orders),
        v.initialized,
        order < orders,
        v.block_free(addr, order),
    ensures
        v.with_block(addr, order).ok(orders),
        !v.blocks.dom().contains(addr),
        v.with_block(addr, order).managed() == v.managed(),
{
    lemma_first_page(v, addr, order);
    if v.blocks.dom().contains(addr) {
        lemma_first_page(v, addr, v.blocks[addr]);
    }
    assert forall|a: int| #[trigger] v.blocks.dom().contains(a) implies {
        ||| a + block_bytes(v.page_size, v.blocks[a]) <= addr
        ||| addr + block_bytes(v.page_size, order) <= a
    } by {
        assert(block_pages(v.page_size, addr, order).disjoint(block_pages(v.page_size, a, v.blocks[a]))) by {
            assert forall|p: int| block_pages(v.page_size, addr, order).contains(p) implies !block_pages(
                v.page_size,
                a,
                v.blocks[a],
            ).contains(p) by {}
        }
        lemma_blocks_apart(v.page_size, addr, order, a, v.blocks[a]);
    }
    let new = v.with_block(addr, order);
    assert forall|p: int| v.managed().contains(p) implies new.managed().contains(p) by {
        if block_pages(v.page_size, addr, order).contains(p) {
            assert(new.blocks.dom().contains(addr));
        } else if !v.free.contains(p) {
            let a = choose|a: int| #[trigger]
                v.blocks.dom().contains(a) && block_pages(v.page_size, a, v.blocks[a]).contains(p);
            assert(new.blocks.dom().contains(a));
        }
    }
    assert forall|p: int| new.managed().contains(p) implies v.managed().contains(p) by {
        if !new.free.contains(p) {
            let a = choose|a: int| #[trigger]
                new.blocks.dom().contains(a) && block_pages(v.page_size, a, new.blocks[a]).contains(p);
            if a != addr {
                assert(v.blocks.dom().contains(a));
            }
        }
    }
    assert(new.managed() =~= v.managed());
}

/// Taking a block back keeps an arena in order.
proof fn lemma_without_block(orders: usize, v: ArenaView, addr: int)
    requires
        v.ok(orders),
        v.blocks.dom().contains(addr),
    ensures
        v.without_block(addr).ok(orders),
{
    let new = v.without_block(addr);
    lemma_block_pages_finite(v.page_size, addr, v.blocks[addr]);
    assert forall|a: int| #[trigger] new.blocks.dom().contains(a) implies new.free.disjoint(
        block_pages(new.page_size, a, new.blocks[a]),
    ) by {}
}

} // verus!
