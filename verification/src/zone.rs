//! Page allocators over the buddy allocator.
//!
//! - [`BuddyPages`] borrows the buddy allocator and owns a mapping; it suits
//!   one-shot or scoped use, such as tests;
//! - [`Zone`] owns both by value, which is how a kernel keeps its page
//!   allocator: caches and the kernel heap hold no reference to it and
//!   receive a mutable borrow per call.

use the_buddy_system::Page;
use vstd::arithmetic::div_mod::lemma_fundamental_div_mod;
use vstd::arithmetic::div_mod::lemma_fundamental_div_mod_converse;
use vstd::prelude::*;

use crate::arena::arena_error;
use crate::arena::fresh_arena;
use crate::arena::lemma_with_block;
use crate::arena::no_arena;
use crate::arena::refusal;
use crate::arena::top_order;
use crate::arena::Arena;
use crate::arena::ArenaView;
use crate::direct_map::DirectMap;
use crate::direct_map::DirectMapView;
use crate::error::Error;
use crate::frame::try_to_usize;
use crate::layout::lemma_block_bytes_ordered;
use crate::layout::lemma_block_is_pow2;
use crate::layout::lemma_pow2_divides;
use crate::pages::block_bytes;
use crate::pages::block_ok;
use crate::pages::block_pages;
use crate::pages::book_ok;
use crate::pages::pages_free;
use crate::pages::pages_out;
use crate::pages::Book;
use crate::pages::Mapping;
use crate::pages::PageAlloc;
use crate::pages::PhysMap;

verus! {

/// The mapping covers the arena: every address of it is mapped to accessible
/// memory and back, and neighbours inside one largest block stay neighbours.
pub open spec fn covers(map: Mapping, mem: Map<int, u8>, v: ArenaView, orders: usize) -> bool {
    v.initialized ==> {
        let largest = block_bytes(v.page_size, (orders - 1) as u8);
        &&& v.end() <= usize::MAX
        &&& forall|a: int| #![trigger map.to_virt[a]] #![trigger map.to_virt.dom().contains(a)]
            v.base <= a < v.end() ==> {
                &&& map.to_virt.dom().contains(a)
                &&& 0 < map.to_virt[a] < usize::MAX
                &&& mem.dom().contains(map.to_virt[a])
                &&& map.to_phys.dom().contains(map.to_virt[a])
                &&& map.to_phys[map.to_virt[a]] == a
            }
        &&& forall|a: int, b: int| #![trigger map.to_virt[a], map.to_virt[b]]
            v.base <= a < v.end() && v.base <= b < v.end() && a / largest == b / largest ==> map.to_virt[b]
                - map.to_virt[a] == b - a
    }
}

/// The book of a buddy allocator. Every block that is out can be given back.
pub open spec fn arena_book(v: ArenaView, orders: usize, before_init: Error) -> Book {
    Book {
        page_size: v.page_size as usize,
        max_order: top_order(orders),
        managed: v.managed(),
        blocks: v.blocks,
        refused: Map::new(
            |order: u8| refusal(orders, v, order) is Some,
            |order: u8|
                if v.initialized {
                    refusal(orders, v, order)->0
                } else {
                    before_init
                },
        ),
        stuck: Map::empty(),
        unknown: if v.initialized {
            Error::PageAlloc
        } else {
            before_init
        },
    }
}

/// The free pages of a buddy allocator, which [`Arena::nr_free`] counts, are
/// those that it manages and that are in no block.
pub proof fn free_pages_are_those_not_out(v: ArenaView, orders: usize, before_init: Error)
    requires
        v.ok(orders),
    ensures
        pages_free(arena_book(v, orders, before_init)) == v.free,
{
    let book = arena_book(v, orders, before_init);
    assert forall|p: int| v.free.contains(p) implies !pages_out(book).contains(p) by {
        if pages_out(book).contains(p) {
            let a = choose|a: int| #[trigger]
                book.blocks.dom().contains(a) && block_pages(book.page_size as int, a, book.blocks[a]).contains(p);
        }
    }
    assert forall|p: int| v.managed().contains(p) && !v.free.contains(p) implies pages_out(book).contains(p) by {
        let a = choose|a: int| #[trigger]
            v.blocks.dom().contains(a) && block_pages(v.page_size, a, v.blocks[a]).contains(p);
        assert(book.blocks.dom().contains(a));
    }
    assert(pages_free(book) =~= v.free);
}

/// Addresses in one block are in one largest block.
proof fn lemma_same_largest(v: ArenaView, orders: usize, addr: int, order: u8, i: int)
    requires
        v.ok(orders),
        v.initialized,
        order < orders,
        v.holds(addr, order),
        0 <= i < block_bytes(v.page_size, order),
    ensures
        (addr + i) / block_bytes(v.page_size, (orders - 1) as u8) == addr / block_bytes(
            v.page_size,
            (orders - 1) as u8,
        ),
{
    let small = block_bytes(v.page_size, order);
    let large = block_bytes(v.page_size, (orders - 1) as u8);
    lemma_block_is_pow2(v.page_size, order);
    lemma_block_is_pow2(v.page_size, (orders - 1) as u8);
    lemma_block_bytes_ordered(v.page_size, order, (orders - 1) as u8);
    lemma_pow2_divides(small, large);
    lemma_fundamental_div_mod(addr, large);
    lemma_fundamental_div_mod(addr, small);
    lemma_fundamental_div_mod(large, small);
    let q = addr / large;
    let r = addr % large;
    let s = addr / small;
    let k = large / small;
    assert(r == small * (s - k * q)) by (nonlinear_arith)
        requires
            addr == large * q + r,
            addr == small * s,
            large == small * k,
    ;
    let t = s - k * q;
    assert(t < k) by (nonlinear_arith)
        requires
            r == small * t,
            r < large,
            large == small * k,
            small > 0,
    ;
    assert(r + small <= large) by (nonlinear_arith)
        requires
            r == small * t,
            t + 1 <= k,
            large == small * k,
            small > 0,
    ;
    lemma_fundamental_div_mod_converse(addr + i, large, q, r + i);
}

/// The blocks of an arena that is covered are usable.
pub proof fn lemma_covered(map: Mapping, mem: Map<int, u8>, v: ArenaView, orders: usize, before_init: Error)
    requires
        v.ok(orders),
        covers(map, mem, v, orders),
    ensures
        book_ok(map, mem, arena_book(v, orders, before_init)),
{
    let book = arena_book(v, orders, before_init);
    let ps = v.page_size;
    assert forall|a: int| #[trigger] book.blocks.dom().contains(a) implies block_ok(map, mem, ps, a, book.blocks[a])
        && book.blocks[a] <= book.max_order by {
        let order = v.blocks[a];
        let bytes = block_bytes(ps, order);
        let virt = map.to_virt[a];
        assert forall|i: int| #![trigger map.to_virt[a + i]] 0 <= i < bytes implies map.to_virt.dom().contains(a + i)
            && map.to_virt[a + i] == virt + i by {
            lemma_same_largest(v, orders, a, order, i);
        }
        assert forall|p: int| virt <= p < virt + bytes implies {
            &&& #[trigger] map.to_phys.dom().contains(p)
            &&& map.to_phys[p] == a + (p - virt)
            &&& mem.dom().contains(p)
        } by {
            assert(map.to_virt[a + (p - virt)] == virt + (p - virt));
        }
        assert(map.to_virt[a + (bytes - 1)] == virt + (bytes - 1));
    }
    assert forall|a: int, b: int| #![trigger book.blocks.dom().contains(a), book.blocks.dom().contains(b)]
        book.blocks.dom().contains(a) && book.blocks.dom().contains(b) && a != b implies {
            ||| map.to_virt[a] + block_bytes(ps, book.blocks[a]) <= map.to_virt[b]
            ||| map.to_virt[b] + block_bytes(ps, book.blocks[b]) <= map.to_virt[a]
        } by {}
}

/// Pairs a borrowed buddy allocator with a physical mapping, implementing
/// [`PageAlloc`].
///
/// Use [`Zone`] instead when the page allocator must be owned.
#[verifier::reject_recursive_types(N)]
#[verifier::reject_recursive_types(M)]
pub struct BuddyPages<'a, 'b, const N: usize, M: PhysMap> {
    buddy: &'a mut Arena<'b, N>,
    map: M,
}

impl<'a, 'b, const N: usize, M: PhysMap> BuddyPages<'a, 'b, N, M> {
    /// The state of the buddy allocator.
    pub closed spec fn arena(&self) -> ArenaView {
        self.buddy@
    }

    /// The physical mapping.
    pub closed spec fn phys_map(&self) -> M {
        self.map
    }

    /// Creates a page allocator over `buddy` and `map`.
    pub fn new(buddy: &'a mut Arena<'b, N>, map: M) -> (pages: Self)
        requires
            old(buddy).wf(),
            map.inv(),
            covers(map.mapping(), map.mem(), old(buddy)@, N),
        ensures
            pages.arena() == old(buddy)@,
            pages.phys_map() == map,
            pages.inv(),
    {
        BuddyPages { buddy, map }
    }

    /// Returns the physical mapping.
    pub fn map(&self) -> (map: &M)
        ensures
            *map == self.phys_map(),
    {
        &self.map
    }
}

impl<'a, 'b, const N: usize, M: PhysMap> PhysMap for BuddyPages<'a, 'b, N, M> {
    open spec fn mem(&self) -> Map<int, u8> {
        self.phys_map().mem()
    }

    open spec fn mapping(&self) -> Mapping {
        self.phys_map().mapping()
    }

    open spec fn book(&self) -> Book {
        arena_book(self.arena(), N, Error::PageAlloc)
    }

    open spec fn inv(&self) -> bool {
        &&& self.arena().ok(N)
        &&& self.phys_map().inv()
        &&& covers(self.phys_map().mapping(), self.phys_map().mem(), self.arena(), N)
    }

    proof fn book_in_order(&self) {
        lemma_covered(self.phys_map().mapping(), self.phys_map().mem(), self.arena(), N, Error::PageAlloc);
    }

    fn phys_to_virt(&self, addr: usize) -> (virt: usize) {
        self.map.phys_to_virt(addr)
    }

    fn virt_to_phys(&self, ptr: usize) -> (phys: usize) {
        self.map.virt_to_phys(ptr)
    }

    fn load(&self, ptr: usize) -> (byte: u8) {
        self.map.load(ptr)
    }

    fn store(&mut self, ptr: usize, byte: u8) {
        self.map.store(ptr, byte);
    }
}

impl<'a, 'b, const N: usize, M: PhysMap> PageAlloc for BuddyPages<'a, 'b, N, M> {
    fn page_size(&self) -> (bytes: usize) {
        match try_to_usize(self.buddy.page_size()) {
            Some(bytes) => bytes,
            None => 0,
        }
    }

    fn max_order(&self) -> (order: u8) {
        Arena::<'b, N>::max_order()
    }

    fn alloc_pages(&mut self, order: u8) -> (result: Result<usize, Error>)
        ensures
            final(self).phys_map() == old(self).phys_map(),
            match result {
                Ok(addr) => {
                    &&& old(self).arena().block_free(addr as int, order)
                    &&& final(self).arena() == old(self).arena().with_block(addr as int, order)
                },
                Err(_) => final(self).arena() == old(self).arena(),
            },
    {
        let result = self.buddy.alloc_pages(order);
        proof {
            if let Ok(addr) = result {
                lemma_with_block(N, old(self).arena(), addr as int, order);
            }
        }
        result
    }

    fn free_pages(&mut self, addr: usize, order: u8) -> (result: Result<(), Error>)
        ensures
            final(self).phys_map() == old(self).phys_map(),
            if old(self).arena().blocks.dom().contains(addr as int) {
                &&& result is Ok
                &&& final(self).arena() == old(self).arena().without_block(addr as int)
            } else {
                &&& result == Err::<(), Error>(Error::PageAlloc)
                &&& final(self).arena() == old(self).arena()
            },
    {
        self.buddy.free_pages(addr, order)
    }
}

/// A self-contained page allocator: a buddy arena plus its mapping, both owned
/// by value.
///
/// [`BuddyPages`] borrows the buddy allocator; caches and the kernel heap
/// only borrow the page allocator for the duration of a call, so the page
/// allocator is the piece that must be owned and long-lived. `Zone` is that
/// piece.
///
/// When the zone and a cache are both behind locks, acquire the cache lock
/// first and then the zone lock, and keep that order at every call site.
#[verifier::reject_recursive_types(N)]
#[verifier::reject_recursive_types(M)]
pub struct Zone<const N: usize, M: PhysMap = DirectMap> {
    buddy: Arena<'static, N>,
    map: M,
}

/// `memory` can be mapped at `virt_base` for an arena of `nr_pages` pages at
/// `base`.
pub open spec fn mappable(base: int, page_size: int, nr_pages: int, virt_base: int, memory: Seq<u8>) -> bool {
    &&& 0 < virt_base
    &&& nr_pages * page_size <= memory.len()
    &&& virt_base + memory.len() <= usize::MAX
    &&& base + nr_pages * page_size <= usize::MAX
}

/// A mapping of enough memory covers a fresh arena.
proof fn lemma_direct_map_covers(v: ArenaView, m: DirectMapView, orders: usize)
    requires
        m.initialized,
        m.phys_base == v.base,
        mappable(v.base, v.page_size, v.nr_pages, m.virt_base, m.memory),
    ensures
        covers(m.linear(), m.bytes(), v, orders),
{
}

impl<const N: usize> Zone<N> {
    /// The state of the mapping.
    pub open spec fn direct_map(&self) -> DirectMapView {
        self.phys_map()@
    }

    /// A placeholder.
    pub fn uninit() -> (zone: Self)
        ensures
            zone.arena() == no_arena(),
            zone.direct_map() == DirectMapView::none(),
            zone.inv(),
    {
        Zone::without_arena(DirectMap::uninit())
    }

    /// Initializes the arena and the mapping in one step.
    ///
    /// The arena has one page for each descriptor, from `base` on, and
    /// `memory` is what these pages hold, mapped at `virt_base`. Memory is
    /// not usable until it is handed to [`Zone::buddy_mut`] with
    /// [`Arena::free_range`].
    ///
    /// # Errors
    ///
    /// [`Error::PageAlloc`] when called twice or if the arena cannot be made.
    pub fn init(
        &mut self,
        descriptors: &'static mut [Page],
        base: usize,
        page_size: usize,
        virt_base: usize,
        memory: Vec<u8>,
    ) -> (result: Result<(), Error>)
        requires
            old(self).inv(),
            mappable(
                base as int,
                page_size as int,
                old(descriptors)@.len() as int,
                virt_base as int,
                memory@,
            ),
        ensures
            final(self).inv(),
            init_zone(
                N,
                old(self).arena(),
                base as int,
                page_size as int,
                old(descriptors)@.len() as int,
            ) == result,
            match result {
                Ok(()) => {
                    &&& final(self).arena() == fresh_arena(
                        base as int,
                        page_size as int,
                        old(descriptors)@.len() as int,
                    )
                    &&& final(self).direct_map() == (DirectMapView {
                        phys_base: base as int,
                        virt_base: virt_base as int,
                        initialized: true,
                        memory: memory@,
                    })
                },
                Err(_) => *final(self) == *old(self),
            },
    {
        let mut map = DirectMap::uninit();
        map.init(base, virt_base, memory);
        proof {
            lemma_direct_map_covers(
                fresh_arena(base as int, page_size as int, old(descriptors)@.len() as int),
                map@,
                N,
            );
        }
        self.init_over(descriptors, base, page_size, map)
    }

    /// Creates an initialized zone.
    ///
    /// # Errors
    ///
    /// [`Error::PageAlloc`] if the arena cannot be made.
    pub fn from_raw_parts(
        descriptors: &'static mut [Page],
        base: usize,
        page_size: usize,
        virt_base: usize,
        memory: Vec<u8>,
    ) -> (result: Result<Self, Error>)
        requires
            mappable(
                base as int,
                page_size as int,
                old(descriptors)@.len() as int,
                virt_base as int,
                memory@,
            ),
        ensures
            match result {
                Ok(zone) => {
                    &&& arena_error(N, base as int, page_size as int, old(descriptors)@.len() as int) is None
                    &&& zone.inv()
                    &&& zone.arena() == fresh_arena(base as int, page_size as int, old(descriptors)@.len() as int)
                    &&& zone.direct_map() == (DirectMapView {
                        phys_base: base as int,
                        virt_base: virt_base as int,
                        initialized: true,
                        memory: memory@,
                    })
                },
                Err(error) => {
                    &&& arena_error(N, base as int, page_size as int, old(descriptors)@.len() as int) is Some
                    &&& error == Error::PageAlloc
                },
            },
    {
        let mut zone = Self::uninit();
        match zone.init(descriptors, base, page_size, virt_base, memory) {
            Ok(()) => Ok(zone),
            Err(error) => Err(error),
        }
    }
}

impl<const N: usize, M: PhysMap> Zone<N, M> {
    /// The state of the buddy allocator.
    pub closed spec fn arena(&self) -> ArenaView {
        self.buddy@
    }

    /// The mapping.
    pub closed spec fn phys_map(&self) -> M {
        self.map
    }

    /// A placeholder with the mapping `map`.
    pub fn without_arena(map: M) -> (zone: Self)
        requires
            map.inv(),
        ensures
            zone.arena() == no_arena(),
            zone.phys_map() == map,
            zone.inv(),
    {
        Zone { buddy: Arena::uninit(), map }
    }

    /// Initializes the arena and replaces the mapping in one step.
    ///
    /// The arena has one page for each descriptor, from `base` on, and `map`
    /// covers these pages. Memory is not usable until it is handed to
    /// [`Zone::buddy_mut`] with [`Arena::free_range`].
    ///
    /// # Errors
    ///
    /// [`Error::PageAlloc`] when called twice or if the arena cannot be made.
    pub fn init_over(&mut self, descriptors: &'static mut [Page], base: usize, page_size: usize, map: M) -> (result: Result<
        (),
        Error,
    >)
        requires
            old(self).inv(),
            map.inv(),
            covers(
                map.mapping(),
                map.mem(),
                fresh_arena(base as int, page_size as int, old(descriptors)@.len() as int),
                N,
            ),
        ensures
            final(self).inv(),
            init_zone(
                N,
                old(self).arena(),
                base as int,
                page_size as int,
                old(descriptors)@.len() as int,
            ) == result,
            match result {
                Ok(()) => {
                    &&& final(self).arena() == fresh_arena(
                        base as int,
                        page_size as int,
                        old(descriptors)@.len() as int,
                    )
                    &&& final(self).phys_map() == map
                },
                Err(_) => *final(self) == *old(self),
            },
    {
        if self.buddy.is_initialized() {
            return Err(Error::PageAlloc);
        }
        let arena = match Arena::new(base, page_size, descriptors) {
            Ok(arena) => arena,
            Err(error) => {
                return Err(error);
            },
        };
        self.buddy = arena;
        self.map = map;
        Ok(())
    }

    /// Returns `true` once [`Zone::init`] has run.
    pub fn is_initialized(&self) -> (initialized: bool)
        ensures
            initialized == self.arena().initialized,
    {
        self.buddy.is_initialized()
    }

    /// Returns the underlying buddy allocator.
    pub fn buddy(&self) -> (buddy: &Arena<'static, N>)
        ensures
            buddy@ == self.arena(),
            self.inv() ==> buddy.wf(),
    {
        &self.buddy
    }

    /// Returns the underlying buddy allocator, for example to feed it the
    /// memory left over by the boot allocator.
    pub fn buddy_mut(&mut self) -> (buddy: &mut Arena<'static, N>)
        requires
            old(self).inv(),
        ensures
            buddy@ == old(self).arena(),
            buddy.wf(),
            final(self).arena() == final(buddy)@,
            final(self).phys_map() == old(self).phys_map(),
            final(buddy).wf() && same_range(old(self).arena(), final(buddy)@) ==> final(self).inv(),
    {
        &mut self.buddy
    }

    /// Returns the physical mapping.
    pub fn map(&self) -> (map: &M)
        ensures
            *map == self.phys_map(),
    {
        &self.map
    }
}

/// The two arenas manage the same pages.
pub open spec fn same_range(old: ArenaView, new: ArenaView) -> bool {
    &&& new.initialized == old.initialized
    &&& new.base == old.base
    &&& new.page_size == old.page_size
    &&& new.nr_pages == old.nr_pages
}

/// What initializing a zone results in.
pub open spec fn init_zone(
    orders: usize,
    old: ArenaView,
    base: int,
    page_size: int,
    nr_pages: int,
) -> Result<(), Error> {
    if old.initialized || arena_error(orders, base, page_size, nr_pages) is Some {
        Err(Error::PageAlloc)
    } else {
        Ok(())
    }
}

impl<const N: usize, M: PhysMap> PhysMap for Zone<N, M> {
    open spec fn mem(&self) -> Map<int, u8> {
        self.phys_map().mem()
    }

    open spec fn mapping(&self) -> Mapping {
        self.phys_map().mapping()
    }

    open spec fn book(&self) -> Book {
        arena_book(self.arena(), N, Error::Uninitialized)
    }

    open spec fn inv(&self) -> bool {
        &&& self.arena().ok(N)
        &&& self.phys_map().inv()
        &&& covers(self.phys_map().mapping(), self.phys_map().mem(), self.arena(), N)
    }

    proof fn book_in_order(&self) {
        lemma_covered(
            self.phys_map().mapping(),
            self.phys_map().mem(),
            self.arena(),
            N,
            Error::Uninitialized,
        );
    }

    fn phys_to_virt(&self, addr: usize) -> (virt: usize) {
        self.map.phys_to_virt(addr)
    }

    fn virt_to_phys(&self, ptr: usize) -> (phys: usize) {
        self.map.virt_to_phys(ptr)
    }

    fn load(&self, ptr: usize) -> (byte: u8) {
        self.map.load(ptr)
    }

    fn store(&mut self, ptr: usize, byte: u8) {
        self.map.store(ptr, byte);
    }
}

impl<const N: usize, M: PhysMap> PageAlloc for Zone<N, M> {
    fn page_size(&self) -> (bytes: usize) {
        match try_to_usize(self.buddy.page_size()) {
            Some(bytes) => bytes,
            None => 0,
        }
    }

    fn max_order(&self) -> (order: u8) {
        Arena::<'static, N>::max_order()
    }

    fn alloc_pages(&mut self, order: u8) -> (result: Result<usize, Error>)
        ensures
            final(self).phys_map() == old(self).phys_map(),
            match result {
                Ok(addr) => {
                    &&& old(self).arena().block_free(addr as int, order)
                    &&& final(self).arena() == old(self).arena().with_block(addr as int, order)
                },
                Err(_) => final(self).arena() == old(self).arena(),
            },
    {
        if !self.is_initialized() {
            return Err(Error::Uninitialized);
        }
        let result = self.buddy.alloc_pages(order);
        proof {
            if let Ok(addr) = result {
                lemma_with_block(N, old(self).arena(), addr as int, order);
            }
        }
        result
    }

    fn free_pages(&mut self, addr: usize, order: u8) -> (result: Result<(), Error>)
        ensures
            final(self).phys_map() == old(self).phys_map(),
            if old(self).arena().blocks.dom().contains(addr as int) {
                &&& result is Ok
                &&& final(self).arena() == old(self).arena().without_block(addr as int)
            } else {
                &&& result == Err::<(), Error>(
                    if old(self).arena().initialized {
                        Error::PageAlloc
                    } else {
                        Error::Uninitialized
                    },
                )
                &&& final(self).arena() == old(self).arena()
            },
    {
        if !self.is_initialized() {
            return Err(Error::Uninitialized);
        }
        self.buddy.free_pages(addr, order)
    }
}

} // verus!
