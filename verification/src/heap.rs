//! The size-class facade.
//!
//! Requests up to the largest usable *single-page* class are served by
//! per-class caches, one class per entry of [`SIZE_CLASSES`]. Larger requests
//! go through the page allocator directly, with the allocation order stored
//! in a tag at the base of the block.
//!
//! `free` has to find the slab or block behind a pointer without being told
//! the cache. That is why every slab of the heap is exactly one page and
//! every large block carries its tag at the page-aligned base: `free` only
//! has to look at the first word of the page containing the pointer.

use vstd::arithmetic::mul::lemma_mul_ordering;
use vstd::arithmetic::power2::is_pow2;
use vstd::arithmetic::power2::lemma_pow2_pos;
use vstd::arithmetic::power2::pow2;
use vstd::prelude::*;

use crate::cache::kind_for;
use crate::cache::KmemCache;
use crate::error::Error;
use crate::frame::align_down;
use crate::frame::from_usize;
use crate::header::header_bytes;
use crate::header::load_header;
use crate::header::load_magic;
use crate::header::SLAB_MAGIC;
use crate::heap_laws::allocating_keeps_allocations;
use crate::heap_laws::freeing_keeps_allocations;
use crate::heap_laws::lemma_blocks_stay_out;
use crate::heap_laws::lemma_free_later;
use crate::heap_model::all_slabs;
use crate::heap_model::allocated;
use crate::heap_model::allocation_is_live;
use crate::heap_model::allocations_are_apart;
use crate::heap_model::allocations_kept;
use crate::heap_model::cache_at;
use crate::heap_model::class_align;
use crate::heap_model::class_covers;
use crate::heap_model::class_layout;
use crate::heap_model::class_of;
use crate::heap_model::heap_alloc_outcome;
use crate::heap_model::heap_destroy_outcome;
use crate::heap_model::heap_free_outcome;
use crate::heap_model::heap_may_free;
use crate::heap_model::heap_returned;
use crate::heap_model::heap_shrink_outcome;
use crate::heap_model::heap_verdict;
use crate::heap_model::heap_verdict_safe;
use crate::heap_model::is_at;
use crate::heap_model::large_order;
use crate::heap_model::large_outcome;
use crate::heap_model::layout_route;
use crate::heap_model::layout_route_is_the_smallest;
use crate::heap_model::least;
use crate::heap_model::lemma_large_added;
use crate::heap_model::lemma_large_removed;
use crate::heap_model::lemma_one_cache;
use crate::heap_model::lowbit;
use crate::heap_model::magic_at;
use crate::heap_model::may_measure;
use crate::heap_model::may_realloc;
use crate::heap_model::mistaken;
use crate::heap_model::moved_outcome;
use crate::heap_model::new_size;
use crate::heap_model::page_around;
use crate::heap_model::realloc_outcome;
use crate::heap_model::route;
use crate::heap_model::route_ok;
use crate::heap_model::routes_are_ok;
use crate::heap_model::shrunk_below;
use crate::heap_model::single_page;
use crate::heap_model::taggable;
use crate::heap_model::usable;
use crate::heap_model::verdict_from;
use crate::heap_model::writing_an_allocation;
use crate::heap_model::zeroed_outcome;
use crate::heap_model::HeapView;
use crate::heap_model::Route;
use crate::heap_steps::carried_over;
use crate::heap_steps::lemma_all_kept;
use crate::heap_steps::lemma_allocation_bytes;
use crate::heap_steps::lemma_carried;
use crate::heap_steps::lemma_class_align;
use crate::heap_steps::lemma_fresh_kept;
use crate::heap_steps::lemma_fresh_write;
use crate::heap_steps::lemma_shrink_step;
use crate::laws::allocating_adds_only_fresh_slabs;
use crate::laws::freeing_adds_no_slab;
use crate::laws::shrinking_adds_no_slab;
use crate::layout::block_size;
use crate::layout::is_power_of_two;
use crate::layout::lemma_laid_out_ok;
use crate::layout::lemma_pow2_positive;
use crate::layout::suffices;
use crate::memory::accessible;
use crate::memory::copy;
use crate::memory::fill;
use crate::memory::lemma_number_same;
use crate::memory::pow256;
use crate::memory::same_but;
use crate::memory::store_number;
use crate::memory::word_bytes;
use crate::model::framed;
use crate::model::rest_kept;
use crate::model::CacheView;
use crate::outcome::free_outcome;
use crate::outcome::may_free;
use crate::outcome::placeholder;
use crate::pages::block_bytes;
use crate::pages::kept;
use crate::pages::no_new_stuck;
use crate::pages::Book;
use crate::pages::PageAlloc;
use crate::pages::PhysMap;

verus! {

/// The number of size classes.
pub const CLASS_COUNT: usize = 13;

/// The size classes in bytes, including the 96 and 192 intermediates.
///
/// Sizes above the largest class, and classes whose slab would need more
/// than one page, are served by the large path.
pub const SIZE_CLASSES: [usize; 13] = [8, 16, 32, 64, 96, 128, 192, 256, 512, 1024, 2048, 4096, 8192];

/// The names of the caches of the size classes.
pub const CLASS_NAMES: [&'static str; 13] = [
    "kmalloc-8",
    "kmalloc-16",
    "kmalloc-32",
    "kmalloc-64",
    "kmalloc-96",
    "kmalloc-128",
    "kmalloc-192",
    "kmalloc-256",
    "kmalloc-512",
    "kmalloc-1024",
    "kmalloc-2048",
    "kmalloc-4096",
    "kmalloc-8192",
];

/// Magic of the tag at the base of a large allocation.
pub const LARGE_MAGIC: u32 = 0x1A26_9002;

/// Size of the tag at the base of a large allocation: the magic, the order
/// and padding. The pointer handed to the caller starts right after the tag,
/// so the tag is never overwritten.
pub const LARGE_TAG_SIZE: usize = 8;

/// Offset of the order in the tag.
pub const TAG_ORDER_OFFSET: usize = 4;

/// The kernel heap.
///
/// All operations take `&mut self` plus the page allocator; locking stays
/// with the caller.
pub struct KernelHeap {
    caches: [KmemCache; 13],
    active: [bool; 13],
    page_size: usize,
    initialized: bool,
    /// The blocks of the large allocations.
    large: Ghost<Set<int>>,
}

impl View for KernelHeap {
    type V = HeapView;

    closed spec fn view(&self) -> HeapView {
        HeapView {
            initialized: self.initialized,
            page_size: self.page_size,
            active: self.active@,
            caches: Seq::new(CLASS_COUNT as nat, |i: int| self.caches@[i]@),
            large: self.large@,
        }
    }
}

/// A heap without caches.
pub open spec fn no_heap() -> HeapView {
    HeapView {
        initialized: false,
        page_size: 0,
        active: Seq::new(CLASS_COUNT as nat, |i: int| false),
        caches: Seq::new(CLASS_COUNT as nat, |i: int| placeholder()),
        large: Set::empty(),
    }
}

/// A heap with the caches that fit the page size, all without slabs.
pub open spec fn fresh_heap(h: HeapView, book: Book) -> bool {
    &&& h.initialized
    &&& h.page_size == book.page_size
    &&& h.large == Set::<int>::empty()
    &&& h.active =~= Seq::new(CLASS_COUNT as nat, |i: int| single_page(i, book.page_size as int, book.max_order))
    &&& h.caches.len() == CLASS_COUNT
    &&& forall|i: int| 0 <= i < CLASS_COUNT ==> fresh_class(i, h.active[i], #[trigger] h.caches[i], book)
}

/// The cache of a class before its first allocation.
pub open spec fn fresh_class(index: int, active: bool, v: CacheView, book: Book) -> bool {
    if active {
        &&& class_layout(index, v.layout, book.page_size as int, book.max_order)
        &&& v == CacheView { name: CLASS_NAMES@[index]@, layout: v.layout, ..placeholder() }
    } else {
        v == placeholder()
    }
}

/// Returns the largest power of two that divides `size`.
fn natural_align(size: usize) -> (align: usize)
    requires
        0 < size,
    ensures
        align == lowbit(size as int),
{
    let mut rest: usize = size;
    let mut align: usize = 1;
    assert(align * lowbit(rest as int) == lowbit(size as int));
    while rest % 2 == 0
        invariant
            0 < rest,
            0 < align,
            align * lowbit(rest as int) == lowbit(size as int),
            align * rest == size,
        decreases rest,
    {
        assert((align * 2) * (rest / 2) == align * rest) by (nonlinear_arith)
            requires
                rest % 2 == 0,
        ;
        assert((align * 2) * lowbit(rest as int / 2) == align * (2 * lowbit(rest as int / 2))) by (nonlinear_arith);
        assert(align * 2 <= size) by (nonlinear_arith)
            requires
                align * rest == size,
                rest >= 2,
        ;
        rest = rest / 2;
        align = align * 2;
    }
    align
}

/// Writes the tag of a large allocation at `base`.
fn store_tag<M: PhysMap>(map: &mut M, base: usize, order: u8)
    requires
        old(map).inv(),
        base + LARGE_TAG_SIZE <= usize::MAX,
        accessible(old(map).mem(), base as int, LARGE_TAG_SIZE as int),
    ensures
        final(map).inv(),
        final(map).mapping() == old(map).mapping(),
        final(map).book() == old(map).book(),
        same_but(old(map).mem(), final(map).mem(), base as int, LARGE_TAG_SIZE as int),
        magic_at(final(map).mem(), base as int) == LARGE_MAGIC,
        final(map).mem()[base + TAG_ORDER_OFFSET] == order,
{
    let ghost m0 = map.mem();
    proof {
        reveal_with_fuel(pow256, 5);
    }
    store_number(map, base, 4, LARGE_MAGIC as u64);
    let ghost m1 = map.mem();
    map.store(base + TAG_ORDER_OFFSET, order);
    let ghost m2 = map.mem();
    assert(m2.dom() =~= m0.dom());
    fill(map, base + 5, 3, 0);
    proof {
        lemma_number_same(m1, map.mem(), base as int, 4);
    }
}

/// Returns the smallest order up to `max_order` whose blocks hold `size` bytes
/// and a tag.
fn large_order_of(page_size: usize, max_order: u8, size: usize) -> (order: Option<u8>)
    requires
        0 < page_size,
    ensures
        match order {
            Some(order) => {
                &&& size + LARGE_TAG_SIZE <= usize::MAX
                &&& order <= max_order
                &&& large_order(size as int, page_size as int, order)
            },
            None => size + LARGE_TAG_SIZE > usize::MAX || forall|order: u8|
                order <= max_order ==> #[trigger] block_bytes(page_size as int, order) < size + LARGE_TAG_SIZE,
        },
{
    let needed: usize = match size.checked_add(LARGE_TAG_SIZE) {
        Some(needed) => needed,
        None => {
            return None;
        },
    };
    let mut order: u8 = 0;
    loop
        invariant
            0 < page_size,
            needed == size + LARGE_TAG_SIZE,
            order <= max_order,
            forall|o: u8| o < order ==> #[trigger] block_bytes(page_size as int, o) < needed,
        decreases max_order - order,
    {
        match block_size(page_size, order) {
            Some(bytes) => {
                if bytes >= needed {
                    return Some(order);
                }
            },
            None => {
                return Some(order);
            },
        }
        if order == max_order {
            return None;
        }
        order = order + 1;
    }
}

impl KernelHeap {
    /// The counters of the caches agree with their states.
    pub closed spec fn rep(&self) -> bool {
        forall|i: int| 0 <= i < CLASS_COUNT ==> (#[trigger] self.caches@[i]).rep()
    }

    /// The heap is consistent with the memory behind `pages`.
    pub open spec fn wf<M: PhysMap>(&self, pages: &M) -> bool {
        &&& pages.inv()
        &&& self.rep()
        &&& self@.ok(pages.mapping(), pages.mem(), pages.book())
    }

    /// A placeholder.
    pub fn uninit() -> (heap: Self)
        ensures
            heap@ == no_heap(),
            heap.rep(),
    {
        let heap = KernelHeap {
            caches: [
                KmemCache::uninit(),
                KmemCache::uninit(),
                KmemCache::uninit(),
                KmemCache::uninit(),
                KmemCache::uninit(),
                KmemCache::uninit(),
                KmemCache::uninit(),
                KmemCache::uninit(),
                KmemCache::uninit(),
                KmemCache::uninit(),
                KmemCache::uninit(),
                KmemCache::uninit(),
                KmemCache::uninit(),
            ],
            active: [false; 13],
            page_size: 0,
            initialized: false,
            large: Ghost(Set::empty()),
        };
        assert forall|i: int| 0 <= i < CLASS_COUNT implies (#[trigger] heap.caches@[i])@ == placeholder()
            && heap.caches@[i].rep() by {}
        heap
    }

    /// A placeholder fits every memory.
    pub proof fn no_heap_is_wf<M: PhysMap>(&self, pages: &M)
        requires
            self@ == no_heap(),
            self.rep(),
            pages.inv(),
        ensures
            self.wf(pages),
    {
        let h = self@;
        assert forall|i: int| 0 <= i < CLASS_COUNT implies (#[trigger] h.caches[i]).ok(
            pages.mapping(),
            pages.mem(),
            pages.book(),
        ) by {
            assert(h.caches[i] == self.caches@[i]@);
            self.caches@[i].placeholder_is_wf(pages);
        }
        assert forall|i: int, b: int| !(0 <= i < CLASS_COUNT && #[trigger] h.has_slab(i, b)) by {}
    }

    /// Returns `true` once [`KernelHeap::init`] has run.
    pub fn is_initialized(&self) -> (initialized: bool)
        ensures
            initialized == self@.initialized,
    {
        self.initialized
    }

    /// Returns the page size the heap was initialized with, 0 before
    /// [`KernelHeap::init`].
    pub fn page_size(&self) -> (bytes: usize)
        ensures
            bytes == self@.page_size,
    {
        self.page_size
    }

    /// Returns the size classes, ascending.
    pub fn classes() -> (classes: &'static [usize])
        ensures
            classes@ == SIZE_CLASSES@,
    {
        &SIZE_CLASSES
    }

    /// Creates one cache per size class, where the layout fits a single
    /// page; other classes fall back to the large path.
    ///
    /// The objects of a class get the alignment that its size has by itself.
    ///
    /// # Errors
    ///
    /// [`Error::AlreadyInitialized`] when called twice,
    /// [`Error::InvalidPageSize`] if the allocator reports a bogus page
    /// size, [`Error::InvalidAlign`] if a page cannot hold the alignment of
    /// the smallest class.
    pub fn init<PA: PageAlloc>(&mut self, pages: &PA) -> (result: Result<(), Error>)
        requires
            old(self).wf(pages),
        ensures
            final(self).wf(pages),
            if old(self)@.initialized {
                &&& result == Err::<(), Error>(Error::AlreadyInitialized)
                &&& *final(self) == *old(self)
            } else if !is_pow2(pages.book().page_size as int) {
                &&& result == Err::<(), Error>(Error::InvalidPageSize)
                &&& *final(self) == *old(self)
            } else if pages.book().page_size < SIZE_CLASSES@[0] {
                &&& result == Err::<(), Error>(Error::InvalidAlign)
                &&& *final(self) == *old(self)
            } else {
                &&& result is Ok
                &&& fresh_heap(final(self)@, pages.book())
            },
    {
        if self.initialized {
            return Err(Error::AlreadyInitialized);
        }
        let page_size: usize = pages.page_size();
        if !is_power_of_two(page_size) {
            return Err(Error::InvalidPageSize);
        }
        if page_size < SIZE_CLASSES[0] {
            return Err(Error::InvalidAlign);
        }
        self.page_size = page_size;
        let ghost book = pages.book();
        let mut index: usize = 0;
        assert forall|i: int| 0 <= i < CLASS_COUNT implies (#[trigger] self.caches@[i])@ == placeholder()
            && !self.active@[i] by {
            assert(self.active@[i] == old(self)@.active[i]);
        }
        while index < CLASS_COUNT
            invariant
                index <= CLASS_COUNT,
                pages.inv(),
                book == pages.book(),
                page_size == book.page_size,
                is_pow2(page_size as int),
                self.page_size == page_size,
                !self.initialized,
                self.large@ == Set::<int>::empty(),
                self.rep(),
                forall|i: int| 0 <= i < index ==> fresh_class(i, self.active@[i], (#[trigger] self.caches@[i])@, book),
                forall|i: int| 0 <= i < index ==> #[trigger] self.active@[i] == single_page(
                    i,
                    page_size as int,
                    book.max_order,
                ),
                forall|i: int| index <= i < CLASS_COUNT ==> (#[trigger] self.caches@[i])@ == placeholder(),
                forall|i: int| index <= i < CLASS_COUNT ==> !#[trigger] self.active@[i],
            decreases CLASS_COUNT - index,
        {
            let size: usize = SIZE_CLASSES[index];
            let natural: usize = natural_align(size);
            let align: usize = if natural <= page_size { natural } else { page_size };
            let mut cache = KmemCache::uninit();
            proof {
                cache.placeholder_is_wf(pages);
                lemma_class_align(size as int, page_size as int);
            }
            // One object per slab is enough to keep every slab on a single
            // page, which `free` relies on to find the cache by
            // page-aligning the object pointer.
            let outcome = cache.init_with_min_objects(pages, CLASS_NAMES[index], size, align, 1);
            match outcome {
                Ok(()) => {
                    if cache.layout().order() == 0 {
                        self.caches[index] = cache;
                        self.active[index] = true;
                    } else {
                        proof {
                            let l = cache@.layout;
                            assert(!suffices(
                                page_size as int,
                                l.first_offset as int,
                                l.stride as int,
                                1,
                                0,
                            ));
                        }
                    }
                },
                Err(error) => {
                    // Classes that do not fit at all are served by the large
                    // path.
                    if error != Error::ObjectTooLarge {
                        return Err(error);
                    }
                },
            }
            index = index + 1;
        }
        self.initialized = true;
        proof {
            let h = self@;
            assert forall|i: int| 0 <= i < CLASS_COUNT implies (#[trigger] h.caches[i]).ok(
                pages.mapping(),
                pages.mem(),
                pages.book(),
            ) && fresh_class(i, h.active[i], h.caches[i], book) by {
                if h.active[i] {
                    let size = SIZE_CLASSES@[i] as int;
                    lemma_laid_out_ok(
                        h.caches[i].layout,
                        header_bytes(),
                        size,
                        class_align(size, page_size as int),
                        page_size as int,
                        book.max_order,
                        1,
                    );
                }
                self.caches@[i].fresh_is_wf(pages);
            }
            assert forall|i: int, b: int| !(0 <= i < CLASS_COUNT && #[trigger] h.has_slab(i, b)) by {}
            assert forall|i: int| 0 <= i < CLASS_COUNT implies {
                &&& #[trigger] h.active[i] <==> single_page(i, h.page_size as int, book.max_order)
                &&& !h.active[i] ==> h.caches[i] == placeholder()
                &&& h.active[i] ==> h.caches[i].initialized() && class_layout(
                    i,
                    h.caches[i].layout,
                    h.page_size as int,
                    book.max_order,
                )
            } by {
                lemma_pow2_positive(page_size as int);
            }
        }
        Ok(())
    }

    /// Returns the index of the smallest class that can hold `size`, or
    /// `None` when the request is larger than every class.
    pub fn class_index(size: usize) -> (index: Option<usize>)
        ensures
            match index {
                Some(i) => class_of(size as int) == Some(i as int) && i < CLASS_COUNT,
                None => class_of(size as int) is None,
            },
    {
        let mut index: usize = 0;
        while index < CLASS_COUNT
            invariant
                index <= CLASS_COUNT,
                forall|j: int| 0 <= j < index ==> #[trigger] SIZE_CLASSES@[j] < size,
            decreases CLASS_COUNT - index,
        {
            if size <= SIZE_CLASSES[index] {
                proof {
                    let found = class_of(size as int)->0;
                    if found < index {
                    } else if index < found {
                    }
                }
                return Some(index);
            }
            index = index + 1;
        }
        None
    }

    /// Returns the cache of a class, if the class has one.
    pub fn cache(&self, index: usize) -> (cache: Option<&KmemCache>)
        ensures
            match cache {
                Some(c) => index < CLASS_COUNT && self@.active[index as int] && c@ == self@.caches[index as int] && (
                self.rep() ==> c.rep()),
                None => index >= CLASS_COUNT || !self@.active[index as int],
            },
    {
        if index < CLASS_COUNT && self.active[index] {
            Some(&self.caches[index])
        } else {
            None
        }
    }

    /// Returns the index of the active cache at `place`.
    fn cache_index(&self, heres: &[usize; 13], place: usize) -> (index: Option<usize>)
        ensures
            match index {
                Some(i) => cache_at(self@, heres@, place) == Some(i as int) && i < CLASS_COUNT
                    && self@.active[i as int] && heres@[i as int] == place,
                None => cache_at(self@, heres@, place) is None,
            },
    {
        let mut index: usize = 0;
        while index < CLASS_COUNT
            invariant
                index <= CLASS_COUNT,
                forall|j: int| 0 <= j < index ==> !#[trigger] is_at(self@, heres@, j, place),
            decreases CLASS_COUNT - index,
        {
            if self.active[index] && heres[index] == place {
                proof {
                    assert(is_at(self@, heres@, index as int, place));
                    let found = cache_at(self@, heres@, place)->0;
                    assert(is_at(self@, heres@, found, place));
                }
                return Some(index);
            }
            index = index + 1;
        }
        None
    }

    /// `heres` is what asking for the addresses of the caches can result in,
    /// one for each class.
    pub closed spec fn may_be_at(&self, heres: Seq<usize>) -> bool {
        &&& heres.len() == CLASS_COUNT
        &&& forall|i: int| 0 <= i < CLASS_COUNT ==> self.caches@[i].may_be_at(#[trigger] heres[i])
    }

    /// Returns where the caches are.
    fn addresses(&self) -> (heres: [usize; 13])
        ensures
            self.may_be_at(heres@),
    {
        let mut heres: [usize; 13] = [0; 13];
        let mut index: usize = 0;
        while index < CLASS_COUNT
            invariant
                index <= CLASS_COUNT,
                forall|i: int| 0 <= i < index ==> self.caches@[i].may_be_at(#[trigger] heres@[i]),
            decreases CLASS_COUNT - index,
        {
            heres[index] = self.caches[index].place();
            index = index + 1;
        }
        heres
    }

    /// Allocates from the page allocator for a request larger than every
    /// usable slab class.
    fn alloc_large<PA: PageAlloc>(&mut self, pages: &mut PA, size: usize) -> (result: Result<usize, Error>)
        requires
            old(self).wf(old(pages)),
            old(self)@.initialized,
            0 < size,
        ensures
            final(self).wf(final(pages)),
            large_outcome(old(self)@, final(self)@, *old(pages), *final(pages), size as int, result),
            result matches Ok(ptr) ==> LARGE_TAG_SIZE <= ptr,
    {
        let ghost h = self@;
        let ghost m0 = pages.mem();
        let ghost book0 = pages.book();
        let ghost tr = pages.mapping();
        proof {
            lemma_pow2_positive(self.page_size as int);
            pages.book_in_order();
        }
        let order: u8 = match large_order_of(self.page_size, pages.max_order(), size) {
            Some(order) => order,
            None => {
                return Err(Error::OutOfMemory);
            },
        };
        let block: usize = match pages.alloc_pages(order) {
            Ok(block) => block,
            Err(error) => {
                proof {
                    pages.book_in_order();
                    lemma_all_kept(h, tr, book0, pages.book(), m0, pages.mem());
                }
                return Err(error);
            },
        };
        let ghost m1 = pages.mem();
        let ghost book = pages.book();
        proof {
            pages.book_in_order();
            assert(book.blocks.dom().contains(block as int));
            assert(tr.to_virt.dom().contains(block + 0));
        }
        let base: usize = pages.phys_to_virt(block);
        store_tag(pages, base, order);
        proof {
            pages.book_in_order();
            lemma_fresh_kept(tr, book0, book, m0, m1, pages.mem(), order, base as int);
            lemma_large_added(h, tr, book0, book, m0, pages.mem(), order, base as int);
            self.large@ = h.large.insert(base as int);
        }
        Ok(base + LARGE_TAG_SIZE)
    }

    /// Allocates at least `size` bytes (`size` must be non-zero).
    ///
    /// `heres` is where the caches are.
    ///
    /// # Errors
    ///
    /// [`Error::Uninitialized`] before [`KernelHeap::init`],
    /// [`Error::InvalidObjectSize`] for a zero size, or the allocator's
    /// [`Error::OutOfMemory`] when neither a slab nor the page allocator
    /// can satisfy the request.
    pub fn alloc_at<PA: PageAlloc>(&mut self, pages: &mut PA, heres: &[usize; 13], size: usize) -> (result: Result<
        usize,
        Error,
    >)
        requires
            old(self).wf(old(pages)),
        ensures
            final(self).wf(final(pages)),
            heap_alloc_outcome(
                old(self)@,
                final(self)@,
                *old(pages),
                *final(pages),
                heres@,
                size as int,
                route(old(self)@, size as int),
                result,
                None,
            ),
    {
        if !self.initialized {
            return Err(Error::Uninitialized);
        }
        if size == 0 {
            return Err(Error::InvalidObjectSize);
        }
        if let Some(index) = Self::class_index(size) {
            if self.active[index] {
                return self.alloc_class(pages, heres, index);
            }
        }
        self.alloc_large(pages, size)
    }

    /// Allocates at least `size` bytes with the usable bytes zeroed.
    ///
    /// Slab objects are zeroed up to the class size, large blocks up to the
    /// block size, exactly what [`KernelHeap::usable_size`] reports. `heres`
    /// is where the caches are.
    ///
    /// # Errors
    ///
    /// Same as [`KernelHeap::alloc_at`].
    pub fn alloc_zeroed_at<PA: PageAlloc>(&mut self, pages: &mut PA, heres: &[usize; 13], size: usize) -> (result:
        Result<usize, Error>)
        requires
            old(self).wf(old(pages)),
        ensures
            final(self).wf(final(pages)),
            zeroed_outcome(
                old(self)@,
                final(self)@,
                *old(pages),
                *final(pages),
                heres@,
                size as int,
                route(old(self)@, size as int),
                result,
            ),
    {
        if !self.initialized {
            return Err(Error::Uninitialized);
        }
        if size == 0 {
            return Err(Error::InvalidObjectSize);
        }
        if let Some(index) = Self::class_index(size) {
            if self.active[index] {
                return self.alloc_zeroed_class(pages, heres, index, size);
            }
        }
        self.alloc_zeroed_large(pages, heres, size)
    }

    /// Allocates at least `size` bytes aligned to `align`, from the smallest
    /// class that covers both.
    ///
    /// `heres` is where the caches are.
    ///
    /// # Errors
    ///
    /// [`Error::InvalidAlign`] if no class covers the request and the
    /// alignment is more than 8; otherwise the same as
    /// [`KernelHeap::alloc_at`].
    pub fn alloc_layout_at<PA: PageAlloc>(&mut self, pages: &mut PA, heres: &[usize; 13], size: usize, align: usize)
        -> (result: Result<usize, Error>)
        requires
            old(self).wf(old(pages)),
        ensures
            final(self).wf(final(pages)),
            heap_alloc_outcome(
                old(self)@,
                final(self)@,
                *old(pages),
                *final(pages),
                heres@,
                size as int,
                layout_route(old(self)@, size as int, align as int),
                result,
                None,
            ),
    {
        if !self.initialized {
            return Err(Error::Uninitialized);
        }
        if size == 0 {
            return Err(Error::InvalidObjectSize);
        }
        match self.covering_class(size, align) {
            Some(index) => self.alloc_class(pages, heres, index),
            None => if align <= LARGE_TAG_SIZE {
                self.alloc_large(pages, size)
            } else {
                Err(Error::InvalidAlign)
            },
        }
    }

    /// Allocates like [`KernelHeap::alloc_layout_at`] with the usable bytes
    /// zeroed.
    ///
    /// # Errors
    ///
    /// Same as [`KernelHeap::alloc_layout_at`].
    pub fn alloc_zeroed_layout_at<PA: PageAlloc>(
        &mut self,
        pages: &mut PA,
        heres: &[usize; 13],
        size: usize,
        align: usize,
    ) -> (result: Result<usize, Error>)
        requires
            old(self).wf(old(pages)),
        ensures
            final(self).wf(final(pages)),
            zeroed_outcome(
                old(self)@,
                final(self)@,
                *old(pages),
                *final(pages),
                heres@,
                size as int,
                layout_route(old(self)@, size as int, align as int),
                result,
            ),
    {
        if !self.initialized {
            return Err(Error::Uninitialized);
        }
        if size == 0 {
            return Err(Error::InvalidObjectSize);
        }
        match self.covering_class(size, align) {
            Some(index) => self.alloc_zeroed_class(pages, heres, index, size),
            None => if align <= LARGE_TAG_SIZE {
                self.alloc_zeroed_large(pages, heres, size)
            } else {
                Err(Error::InvalidAlign)
            },
        }
    }

    /// Returns the smallest class that covers a size and an alignment.
    fn covering_class(&self, size: usize, align: usize) -> (index: Option<usize>)
        requires
            self@.initialized,
            0 < size,
        ensures
            match index {
                Some(i) => {
                    &&& layout_route(self@, size as int, align as int) == Route::Class(i as int)
                    &&& i < CLASS_COUNT
                    &&& self@.active[i as int]
                    &&& size <= SIZE_CLASSES@[i as int]
                },
                None => layout_route(self@, size as int, align as int) == (if align <= LARGE_TAG_SIZE {
                    Route::Large
                } else {
                    Route::Refused(Error::InvalidAlign)
                }),
            },
    {
        let mut index: usize = 0;
        while index < CLASS_COUNT
            invariant
                self@.initialized,
                0 < size,
                index <= CLASS_COUNT,
                forall|j: int| 0 <= j < index ==> !#[trigger] class_covers(self@, j, size as int, align as int),
            decreases CLASS_COUNT - index,
        {
            if self.active[index] && size <= SIZE_CLASSES[index] && align <= self.caches[index].layout().align() {
                proof {
                    assert(class_covers(self@, index as int, size as int, align as int));
                    layout_route_is_the_smallest(self@, size as int, align as int);
                }
                return Some(index);
            }
            index = index + 1;
        }
        None
    }

    /// Allocates a zeroed object of a class.
    fn alloc_zeroed_class<PA: PageAlloc>(
        &mut self,
        pages: &mut PA,
        heres: &[usize; 13],
        index: usize,
        size: usize,
    ) -> (result: Result<usize, Error>)
        requires
            old(self).wf(old(pages)),
            old(self)@.initialized,
            index < CLASS_COUNT,
            old(self)@.active[index as int],
        ensures
            final(self).wf(final(pages)),
            zeroed_outcome(
                old(self)@,
                final(self)@,
                *old(pages),
                *final(pages),
                heres@,
                size as int,
                Route::Class(index as int),
                result,
            ),
    {
        let ghost h = self@;
        let ghost m0 = pages.mem();
        let ghost book0 = pages.book();
        let ghost v = self.caches@[index as int]@;
        proof {
            pages.book_in_order();
        }
        let result = self.caches[index].alloc_zeroed_at(pages, heres[index]);
        proof {
            let w = self.caches@[index as int]@;
            pages.book_in_order();
            assert(self@ == h.with_cache(index as int, w));
            allocating_adds_only_fresh_slabs(v, w, *old(pages), *pages, heres@[index as int], result);
            assert forall|b: int| #[trigger] w.slabs.dom().contains(b) implies h.has_slab(index as int, b)
                || !book0.blocks.dom().contains(pages.mapping().to_phys[b]) by {}
            lemma_one_cache(h, index as int, w, pages.mapping(), book0, pages.book(), m0, pages.mem());
            assert forall|i: int| 0 <= i < CLASS_COUNT implies (#[trigger] self.caches@[i]).rep() by {}
        }
        result
    }

    /// Allocates a zeroed large block.
    fn alloc_zeroed_large<PA: PageAlloc>(&mut self, pages: &mut PA, heres: &[usize; 13], size: usize) -> (result: Result<
        usize,
        Error,
    >)
        requires
            old(self).wf(old(pages)),
            old(self)@.initialized,
            0 < size,
        ensures
            final(self).wf(final(pages)),
            zeroed_outcome(
                old(self)@,
                final(self)@,
                *old(pages),
                *final(pages),
                heres@,
                size as int,
                Route::Large,
                result,
            ),
    {
        let ghost h = self@;
        let object: usize = self.alloc_large(pages, size)?;
        let ghost pages1 = *pages;
        let ghost n = new_size(h, pages.mapping(), pages.book(), Route::Large, object as int);
        let base: usize = object - LARGE_TAG_SIZE;
        proof {
            pages.book_in_order();
            lemma_pow2_positive(self@.page_size as int);
            allocation_is_live(
                h,
                self@,
                *old(pages),
                pages1,
                heres@,
                size as int,
                Route::Large,
                object,
                None,
            );
            assert(self@.large.contains(base as int));
            assert(pages.book().blocks.dom().contains(pages.mapping().to_phys[base as int]));
        }
        let order: u8 = pages.load(base + TAG_ORDER_OFFSET);
        let bytes: usize = match block_size(self.page_size, order) {
            Some(bytes) => bytes,
            None => {
                return Err(Error::InternalError);
            },
        };
        fill(pages, object, bytes - LARGE_TAG_SIZE, 0);
        proof {
            pages.book_in_order();
            writing_an_allocation(
                self@,
                pages.mapping(),
                pages1.mem(),
                pages.mem(),
                pages.book(),
                object as int,
                n,
                object as int,
                n,
            );
            lemma_fresh_write(
                pages.mapping(),
                old(pages).book(),
                pages.book(),
                old(pages).mem(),
                pages1.mem(),
                pages.mem(),
                order,
                base as int,
                object as int,
                n,
            );
        }
        Ok(object)
    }

    /// Allocates an object of a class.
    fn alloc_class<PA: PageAlloc>(&mut self, pages: &mut PA, heres: &[usize; 13], index: usize) -> (result: Result<
        usize,
        Error,
    >)
        requires
            old(self).wf(old(pages)),
            old(self)@.initialized,
            index < CLASS_COUNT,
            old(self)@.active[index as int],
        ensures
            final(self).wf(final(pages)),
            heap_alloc_outcome(
                old(self)@,
                final(self)@,
                *old(pages),
                *final(pages),
                heres@,
                0,
                Route::Class(index as int),
                result,
                None,
            ),
    {
        let ghost h = self@;
        let ghost m0 = pages.mem();
        let ghost book0 = pages.book();
        let ghost v = self.caches@[index as int]@;
        proof {
            pages.book_in_order();
        }
        let result = self.caches[index].alloc_at(pages, heres[index]);
        proof {
            let w = self.caches@[index as int]@;
            pages.book_in_order();
            assert(self@ == h.with_cache(index as int, w));
            allocating_adds_only_fresh_slabs(v, w, *old(pages), *pages, heres@[index as int], result);
            assert forall|b: int| #[trigger] w.slabs.dom().contains(b) implies h.has_slab(index as int, b)
                || !book0.blocks.dom().contains(pages.mapping().to_phys[b]) by {}
            lemma_one_cache(h, index as int, w, pages.mapping(), book0, pages.book(), m0, pages.mem());
            assert forall|i: int| 0 <= i < CLASS_COUNT implies (#[trigger] self.caches@[i]).rep() by {}
        }
        result
    }

    /// Locates the page containing `ptr` and reads its first word, which
    /// is the slab magic or the large tag magic.
    fn page_tag<M: PhysMap>(&self, pages: &M, ptr: usize) -> (tag: (usize, usize, u32))
        requires
            pages.inv(),
            is_pow2(self@.page_size as int),
            taggable(self@.page_size as int, pages.mapping(), pages.mem(), ptr as int),
        ensures
            tag.0 == page_around(self@.page_size as int, pages.mapping(), ptr as int),
            tag.1 == pages.mapping().to_phys[ptr as int] - pages.mapping().to_phys[ptr as int] % (self@.page_size as int),
            tag.2 == magic_at(pages.mem(), tag.0 as int),
    {
        let phys: usize = pages.virt_to_phys(ptr);
        let page_size: usize = from_usize(self.page_size);
        let page_phys: usize = align_down(phys, page_size);
        let page: usize = pages.phys_to_virt(page_phys);
        let magic: u32 = load_magic(pages, page);
        (page, page_phys, magic)
    }

    /// Returns an allocation to its slab or to the page allocator.
    ///
    /// The pointer's page carries either a slab header or a large tag, which
    /// identifies the owning cache or the block order. `heres` is where the
    /// caches are.
    ///
    /// # Errors
    ///
    /// [`Error::Uninitialized`] before [`KernelHeap::init`],
    /// [`Error::InvalidPointer`] for a pointer that does not carry a known
    /// tag (interior or stray pointers), [`Error::CrossCacheFree`] for an
    /// object of a cache that is not part of this set, or the slab's or
    /// page allocator's error.
    pub fn free_at<PA: PageAlloc>(&mut self, pages: &mut PA, heres: &[usize; 13], ptr: usize) -> (result: Result<
        (),
        Error,
    >)
        requires
            old(self).wf(old(pages)),
            heap_may_free(old(self)@, *old(pages), heres@, ptr as int),
        ensures
            final(self).wf(final(pages)),
            heap_free_outcome(old(self)@, final(self)@, *old(pages), *final(pages), heres@, ptr as int, result),
    {
        if !self.initialized {
            return Err(Error::Uninitialized);
        }
        let (page, page_phys, magic) = self.page_tag(pages, ptr);
        if magic == SLAB_MAGIC {
            let owner: usize = load_header(pages, page).owner;
            match self.cache_index(heres, owner) {
                Some(index) => self.free_class(pages, heres, index, ptr),
                None => Err(Error::CrossCacheFree),
            }
        } else if magic == LARGE_MAGIC {
            let order: u8 = pages.load(page + TAG_ORDER_OFFSET);
            if ptr != page + LARGE_TAG_SIZE || order > pages.max_order() {
                return Err(Error::InvalidPointer);
            }
            proof {
                pages.book_in_order();
            }
            self.free_large(pages, page, page_phys, order)
        } else {
            Err(Error::InvalidPointer)
        }
    }

    /// Returns a large allocation to the page allocator.
    fn free_large<PA: PageAlloc>(&mut self, pages: &mut PA, page: usize, page_phys: usize, order: u8) -> (result: Result<
        (),
        Error,
    >)
        requires
            old(self).wf(old(pages)),
            old(self)@.initialized,
            magic_at(old(pages).mem(), page as int) == LARGE_MAGIC,
            old(pages).mapping().to_virt[page_phys as int] == page,
            old(pages).book().blocks.dom().contains(page_phys as int) ==> old(pages).book().blocks[page_phys as int]
                == order,
        ensures
            final(self).wf(final(pages)),
            final(pages).mapping() == old(pages).mapping(),
            final(pages).mem().dom() == old(pages).mem().dom(),
            final(pages).book().page_size == old(pages).book().page_size,
            final(pages).book().max_order == old(pages).book().max_order,
            final(pages).book().managed == old(pages).book().managed,
            no_new_stuck(old(pages).book(), final(pages).book()),
            kept(
                old(pages).mapping(),
                old(pages).book().page_size as int,
                final(pages).book().blocks,
                old(pages).mem(),
                final(pages).mem(),
            ),
            ({
                let book = old(pages).book();
                let block = page_phys as int;
                match result {
                    Ok(()) => {
                        &&& book.blocks.dom().contains(block)
                        &&& !book.stuck.dom().contains(block)
                        &&& final(self)@ == old(self)@.without_large(page as int)
                        &&& final(pages).book().blocks == book.blocks.remove(block)
                    },
                    Err(error) => {
                        &&& if book.blocks.dom().contains(block) {
                            &&& book.stuck.dom().contains(block)
                            &&& error == book.stuck[block]
                        } else {
                            error == book.unknown
                        }
                        &&& final(self)@ == old(self)@
                        &&& final(pages).book().blocks == book.blocks
                    },
                }
            }),
    {
        let ghost h = self@;
        let ghost m0 = pages.mem();
        let ghost book0 = pages.book();
        proof {
            pages.book_in_order();
        }
        let result = pages.free_pages(page_phys, order);
        proof {
            pages.book_in_order();
            if result is Ok {
                assert(pages.mapping().to_phys[page as int] == page_phys);
                self.large@ = h.large.remove(page as int);
                lemma_large_removed(h, self@, pages.mapping(), book0, pages.book(), m0, pages.mem(), page as int);
            } else {
                lemma_all_kept(h, pages.mapping(), book0, pages.book(), m0, pages.mem());
            }
        }
        result
    }

    /// Returns an object to the cache of its class.
    fn free_class<PA: PageAlloc>(&mut self, pages: &mut PA, heres: &[usize; 13], index: usize, ptr: usize) -> (result:
        Result<(), Error>)
        requires
            old(self).wf(old(pages)),
            old(self)@.initialized,
            index < CLASS_COUNT,
            old(self)@.active[index as int],
            may_free(old(self)@.caches[index as int], *old(pages), heres@[index as int], ptr as int),
        ensures
            final(self).wf(final(pages)),
            free_outcome(
                old(self)@.caches[index as int],
                final(self)@.caches[index as int],
                *old(pages),
                *final(pages),
                heres@[index as int],
                ptr as int,
                result,
            ),
            framed(
                *old(pages),
                *final(pages),
                old(self)@.caches[index as int],
                final(self)@.caches[index as int],
                Some((ptr as int, word_bytes())),
            ),
            final(self)@ == old(self)@.with_cache(index as int, final(self)@.caches[index as int]),
    {
        let ghost h = self@;
        let ghost m0 = pages.mem();
        let ghost book0 = pages.book();
        let ghost v = self.caches@[index as int]@;
        proof {
            pages.book_in_order();
        }
        let result = self.caches[index].free_at(pages, heres[index], ptr);
        proof {
            let w = self.caches@[index as int]@;
            pages.book_in_order();
            assert(self@ == h.with_cache(index as int, w));
            freeing_adds_no_slab(v, w, *old(pages), *pages, heres@[index as int], ptr as int, result);
            assert forall|b: int| #[trigger] w.slabs.dom().contains(b) implies h.has_slab(index as int, b)
                || !book0.blocks.dom().contains(pages.mapping().to_phys[b]) by {}
            lemma_one_cache(h, index as int, w, pages.mapping(), book0, pages.book(), m0, pages.mem());
            assert forall|i: int| 0 <= i < CLASS_COUNT implies (#[trigger] self.caches@[i]).rep() by {}
        }
        result
    }

    /// Returns the usable size of an allocation: the size class for slab
    /// objects, the block size minus the tag for large ones.
    ///
    /// `heres` is where the caches are.
    ///
    /// # Errors
    ///
    /// [`Error::Uninitialized`] before [`KernelHeap::init`],
    /// [`Error::InvalidPointer`] or [`Error::CrossCacheFree`] for pointers
    /// that do not belong to this set.
    pub fn usable_size_at<PA: PageAlloc>(&self, pages: &PA, heres: &[usize; 13], ptr: usize) -> (result: Result<
        usize,
        Error,
    >)
        requires
            self.wf(pages),
            may_measure(self@, *pages, heres@, ptr as int),
        ensures
            match result {
                Ok(size) => usable(
                    self@,
                    pages.mapping(),
                    pages.mem(),
                    pages.book().max_order,
                    heres@,
                    ptr as int,
                ) == Ok::<int, Error>(size as int),
                Err(error) => usable(
                    self@,
                    pages.mapping(),
                    pages.mem(),
                    pages.book().max_order,
                    heres@,
                    ptr as int,
                ) == Err::<int, Error>(error),
            },
    {
        if !self.initialized {
            return Err(Error::Uninitialized);
        }
        let (page, page_phys, magic) = self.page_tag(pages, ptr);
        if magic == SLAB_MAGIC {
            let owner: usize = load_header(pages, page).owner;
            match self.cache_index(heres, owner) {
                Some(index) => Ok(self.caches[index].layout().object_size()),
                None => Err(Error::CrossCacheFree),
            }
        } else if magic == LARGE_MAGIC {
            let order: u8 = pages.load(page + TAG_ORDER_OFFSET);
            if ptr != page + LARGE_TAG_SIZE || order > pages.max_order() {
                return Err(Error::InvalidPointer);
            }
            proof {
                pages.book_in_order();
                lemma_pow2_positive(self@.page_size as int);
                lemma_pow2_pos(order as nat);
                lemma_mul_ordering(self.page_size as int, pow2(order as nat) as int);
            }
            match block_size(self.page_size, order) {
                Some(bytes) => Ok(bytes - LARGE_TAG_SIZE),
                None => Err(Error::InternalError),
            }
        } else {
            Err(Error::InvalidPointer)
        }
    }

    /// Resizes an allocation, moving it only when it does not fit.
    ///
    /// Shrinking (or growing within the current class or block) keeps the
    /// pointer; otherwise a new allocation is made, the old bytes are copied
    /// and the old allocation is freed. `size` must be non-zero. `heres` is
    /// where the caches are.
    ///
    /// # Errors
    ///
    /// Same as [`KernelHeap::alloc_at`], [`KernelHeap::usable_size_at`] and
    /// [`KernelHeap::free_at`].
    pub fn realloc_at<PA: PageAlloc>(&mut self, pages: &mut PA, heres: &[usize; 13], ptr: usize, size: usize) -> (result:
        Result<usize, Error>)
        requires
            old(self).wf(old(pages)),
            may_realloc(old(self)@, *old(pages), heres@, ptr as int, size as int, true),
        ensures
            final(self).wf(final(pages)),
            realloc_outcome(
                old(self)@,
                final(self)@,
                *old(pages),
                *final(pages),
                heres@,
                ptr,
                size as int,
                true,
                route(old(self)@, size as int),
                result,
            ),
            carried_over(old(self)@, *old(pages), *final(pages), heres@, ptr, size as int, result),
    {
        if !self.initialized {
            return Err(Error::Uninitialized);
        }
        if size == 0 {
            return Err(Error::InvalidObjectSize);
        }
        let ghost h = self@;
        let old_size: usize = self.usable_size_at(pages, heres, ptr)?;
        if size <= old_size {
            return Ok(ptr);
        }
        if self.is_mistaken(pages, heres, ptr) {
            return Err(Error::InvalidPointer);
        }
        let fresh = self.alloc_at(pages, heres, size);
        let ghost mid = self@;
        let ghost mid_pages = *pages;
        proof {
            routes_are_ok(h, size as int, 1);
        }
        match fresh {
            Ok(to) => self.carry_over(
                pages,
                heres,
                ptr,
                old_size,
                to,
                size,
                Ghost(h),
                Ghost(*old(pages)),
                Ghost(route(h, size as int)),
            ),
            Err(error) => {
                assert(moved_outcome(
                    h,
                    mid,
                    mid,
                    *old(pages),
                    mid_pages,
                    mid_pages,
                    mid_pages,
                    heres@,
                    ptr,
                    old_size as int,
                    size as int,
                    route(h, size as int),
                    fresh,
                    Err(error),
                ));
                Err(error)
            },
        }
    }

    /// Resizes an allocation like [`KernelHeap::realloc_at`], and moves it too
    /// when its address is not aligned to `align`.
    ///
    /// # Errors
    ///
    /// Same as [`KernelHeap::alloc_layout_at`],
    /// [`KernelHeap::usable_size_at`] and [`KernelHeap::free_at`].
    pub fn realloc_layout_at<PA: PageAlloc>(
        &mut self,
        pages: &mut PA,
        heres: &[usize; 13],
        ptr: usize,
        size: usize,
        align: usize,
    ) -> (result: Result<usize, Error>)
        requires
            old(self).wf(old(pages)),
            0 < align,
            may_realloc(old(self)@, *old(pages), heres@, ptr as int, size as int, ptr % align == 0),
        ensures
            final(self).wf(final(pages)),
            realloc_outcome(
                old(self)@,
                final(self)@,
                *old(pages),
                *final(pages),
                heres@,
                ptr,
                size as int,
                ptr % align == 0,
                layout_route(old(self)@, size as int, align as int),
                result,
            ),
            carried_over(old(self)@, *old(pages), *final(pages), heres@, ptr, size as int, result),
    {
        if !self.initialized {
            return Err(Error::Uninitialized);
        }
        if size == 0 {
            return Err(Error::InvalidObjectSize);
        }
        let ghost h = self@;
        let old_size: usize = self.usable_size_at(pages, heres, ptr)?;
        if size <= old_size && ptr % align == 0 {
            return Ok(ptr);
        }
        if self.is_mistaken(pages, heres, ptr) {
            return Err(Error::InvalidPointer);
        }
        let fresh = self.alloc_layout_at(pages, heres, size, align);
        let ghost mid = self@;
        let ghost mid_pages = *pages;
        proof {
            routes_are_ok(h, size as int, align as int);
        }
        match fresh {
            Ok(to) => self.carry_over(
                pages,
                heres,
                ptr,
                old_size,
                to,
                size,
                Ghost(h),
                Ghost(*old(pages)),
                Ghost(layout_route(h, size as int, align as int)),
            ),
            Err(error) => {
                assert(moved_outcome(
                    h,
                    mid,
                    mid,
                    *old(pages),
                    mid_pages,
                    mid_pages,
                    mid_pages,
                    heres@,
                    ptr,
                    old_size as int,
                    size as int,
                    layout_route(h, size as int, align as int),
                    fresh,
                    Err(error),
                ));
                Err(error)
            },
        }
    }

    /// Returns `true` if the page around `ptr` is taken for a slab of a class
    /// whose objects are of another kind.
    fn is_mistaken<M: PhysMap>(&self, pages: &M, heres: &[usize; 13], ptr: usize) -> (found: bool)
        requires
            self.wf(pages),
            self@.initialized,
            taggable(self@.page_size as int, pages.mapping(), pages.mem(), ptr as int),
        ensures
            found == mistaken(
                self@,
                pages.mapping(),
                pages.mem(),
                pages.book().max_order,
                heres@,
                ptr as int,
            ),
    {
        let (page, _, magic) = self.page_tag(pages, ptr);
        if magic != SLAB_MAGIC {
            return false;
        }
        let header = load_header(pages, page);
        match self.cache_index(heres, header.owner) {
            Some(index) => header.kind != kind_for(&self.caches[index].layout()),
            None => false,
        }
    }

    /// Copies an allocation to a new one and frees it.
    #[verifier::rlimit(30)]
    fn carry_over<PA: PageAlloc>(
        &mut self,
        pages: &mut PA,
        heres: &[usize; 13],
        ptr: usize,
        old_size: usize,
        to: usize,
        size: usize,
        Ghost(h): Ghost<HeapView>,
        Ghost(pages0): Ghost<PA>,
        Ghost(way): Ghost<Route>,
    ) -> (result: Result<usize, Error>)
        requires
            old(self).wf(old(pages)),
            pages0.inv(),
            h.initialized,
            h.ok(pages0.mapping(), pages0.mem(), pages0.book()),
            allocated(h, pages0.mapping(), pages0.book(), ptr as int, old_size as int),
            taggable(h.page_size as int, pages0.mapping(), pages0.mem(), ptr as int),
            usable(h, pages0.mapping(), pages0.mem(), pages0.book().max_order, heres@, ptr as int) == Ok::<int, Error>(
                old_size as int,
            ),
            route_ok(h, size as int, way),
            heap_alloc_outcome(h, old(self)@, pages0, *old(pages), heres@, size as int, way, Ok(to), None),
        ensures
            final(self).wf(final(pages)),
            no_new_stuck(pages0.book(), final(pages).book()),
            exists|full_pages: PA| #[trigger]
                moved_outcome(
                    h,
                    old(self)@,
                    final(self)@,
                    pages0,
                    *old(pages),
                    full_pages,
                    *final(pages),
                    heres@,
                    ptr,
                    old_size as int,
                    size as int,
                    way,
                    Ok(to),
                    result,
                ),
            result matches Ok(p) ==> forall|q: int|
                p <= q < p + least(old_size as int, size as int) ==> #[trigger] final(pages).mem()[q]
                    == pages0.mem()[ptr + (q - p)],
    {
        let ghost mid = self@;
        let ghost mid_pages = *pages;
        let ghost n = new_size(h, pages.mapping(), pages.book(), way, to as int);
        let count: usize = if old_size <= size { old_size } else { size };
        proof {
            pages0.book_in_order();
            pages.book_in_order();
            allocation_is_live(h, mid, pages0, mid_pages, heres@, size as int, way, to, None);
            allocating_keeps_allocations(
                h,
                mid,
                pages0,
                mid_pages,
                heres@,
                size as int,
                way,
                Ok(to),
                None,
                ptr as int,
                old_size as int,
            );
            allocations_are_apart(
                mid,
                pages.mapping(),
                pages.mem(),
                pages.book(),
                ptr as int,
                old_size as int,
                to as int,
                n,
            );
            lemma_allocation_bytes(mid, *pages, ptr as int, old_size as int);
            lemma_allocation_bytes(mid, *pages, to as int, n);
        }
        copy(pages, ptr, to, count);
        let ghost full_pages = *pages;
        proof {
            pages.book_in_order();
            writing_an_allocation(
                mid,
                pages.mapping(),
                mid_pages.mem(),
                pages.mem(),
                pages.book(),
                to as int,
                n,
                to as int,
                count as int,
            );
            lemma_free_later(
                h,
                mid,
                pages0,
                mid_pages,
                full_pages,
                heres@,
                size as int,
                way,
                Ok(to),
                ptr as int,
                old_size as int,
            );
        }
        let freed = self.free_at(pages, heres, ptr);
        proof {
            lemma_blocks_stay_out(h, mid, pages0, mid_pages, heres@, size as int, way, Ok(to), None);
            freeing_keeps_allocations(mid, self@, full_pages, *pages, heres@, ptr as int, freed, to as int, n);
            lemma_carried(
                pages0.mem(),
                mid_pages.mem(),
                full_pages.mem(),
                pages.mem(),
                ptr as int,
                old_size as int,
                to as int,
                n,
                count as int,
            );
        }
        match freed {
            Ok(()) => {
                assert(moved_outcome(
                    h,
                    mid,
                    self@,
                    pages0,
                    mid_pages,
                    full_pages,
                    *pages,
                    heres@,
                    ptr,
                    old_size as int,
                    size as int,
                    way,
                    Ok(to),
                    Ok(to),
                ));
                Ok(to)
            },
            Err(error) => {
                assert(moved_outcome(
                    h,
                    mid,
                    self@,
                    pages0,
                    mid_pages,
                    full_pages,
                    *pages,
                    heres@,
                    ptr,
                    old_size as int,
                    size as int,
                    way,
                    Ok(to),
                    Err(error),
                ));
                Err(error)
            },
        }
    }

    /// Releases every empty slab of every class, like
    /// [`KmemCache::shrink`] for each cache.
    ///
    /// # Errors
    ///
    /// [`Error::Uninitialized`] before [`KernelHeap::init`], or the page
    /// allocator's error for the first slab that it does not take back.
    pub fn shrink<PA: PageAlloc>(&mut self, pages: &mut PA) -> (result: Result<(), Error>)
        requires
            old(self).wf(old(pages)),
        ensures
            final(self).wf(final(pages)),
            final(pages).mapping() == old(pages).mapping(),
            heap_shrink_outcome(old(self)@, final(self)@, old(pages).mapping(), old(pages).book(), result),
            heap_returned(old(pages).mapping(), old(pages).book(), final(pages).book(), old(self)@, final(self)@),
            allocations_kept(old(self)@, final(self)@, *old(pages), *final(pages)),
            no_new_stuck(old(pages).book(), final(pages).book()),
            !old(self)@.initialized ==> *final(pages) == *old(pages),
            rest_kept(
                old(pages).mapping(),
                old(pages).book(),
                final(pages).book(),
                old(pages).mem(),
                final(pages).mem(),
                all_slabs(old(self)@),
            ),
    {
        let ghost h = self@;
        let ghost pages0 = *pages;
        if !self.initialized {
            return Err(Error::Uninitialized);
        }
        let mut index: usize = 0;
        while index < CLASS_COUNT
            invariant
                index <= CLASS_COUNT,
                h == old(self)@,
                pages0 == *old(pages),
                pages0.inv(),
                h.initialized,
                h.ok(pages0.mapping(), pages0.mem(), pages0.book()),
                self.wf(pages),
                self.initialized,
                shrunk_below(h, self@, index as int),
                pages.mapping() == pages0.mapping(),
                heap_returned(pages0.mapping(), pages0.book(), pages.book(), h, self@),
                no_new_stuck(pages0.book(), pages.book()),
                allocations_kept(h, self@, pages0, *pages),
                rest_kept(pages0.mapping(), pages0.book(), pages.book(), pages0.mem(), pages.mem(), all_slabs(h)),
            decreases CLASS_COUNT - index,
        {
            if self.active[index] {
                let ghost mid = self@;
                let ghost pages1 = *pages;
                let ghost v = self.caches@[index as int]@;
                proof {
                    pages.book_in_order();
                }
                let result = self.caches[index].shrink(pages);
                proof {
                    let w = self.caches@[index as int]@;
                    let i = index as int;
                    pages.book_in_order();
                    assert(self@ == mid.with_cache(i, w));
                    assert forall|b: int| #[trigger] w.slabs.dom().contains(b) implies mid.has_slab(i, b) by {
                        shrinking_adds_no_slab(v, w, pages1.mapping(), pages1.book(), result, b);
                    }
                    lemma_one_cache(
                        mid,
                        i,
                        w,
                        pages.mapping(),
                        pages1.book(),
                        pages.book(),
                        pages1.mem(),
                        pages.mem(),
                    );
                    assert forall|j: int| 0 <= j < CLASS_COUNT implies (#[trigger] self.caches@[j]).rep() by {}
                    lemma_shrink_step(h, mid, self@, pages0, pages1, *pages, i, result);
                }
                if let Err(error) = result {
                    return Err(error);
                }
            }
            index = index + 1;
        }
        Ok(())
    }

    /// Releases every slab and consumes the set.
    ///
    /// All objects must have been freed first; see
    /// [`KmemCache::destroy`].
    ///
    /// # Errors
    ///
    /// [`Error::Uninitialized`] before [`KernelHeap::init`], or the page
    /// allocator's error for the first slab that it does not take back.
    pub fn destroy<PA: PageAlloc>(self, pages: &mut PA) -> (result: Result<(), Error>)
        requires
            self.wf(old(pages)),
        ensures
            final(pages).inv(),
            final(pages).mapping() == old(pages).mapping(),
            heap_destroy_outcome(self@, *old(pages), *final(pages), result),
            no_new_stuck(old(pages).book(), final(pages).book()),
            !self@.initialized ==> *final(pages) == *old(pages),
            rest_kept(
                old(pages).mapping(),
                old(pages).book(),
                final(pages).book(),
                old(pages).mem(),
                final(pages).mem(),
                all_slabs(self@),
            ),
    {
        let mut rest = self;
        rest.shrink(pages)
    }

    /// The books of the heap are in order, whatever the memory holds.
    pub open spec fn accounted<M: PhysMap>(&self, map: &M) -> bool {
        &&& map.inv()
        &&& self.rep()
        &&& forall|i: int| 0 <= i < CLASS_COUNT ==> {
            &&& (#[trigger] self@.caches[i]).structure_ok()
            &&& self@.caches[i].placed_ok(map.mapping(), map.book())
        }
    }

    /// Verifies the invariants of every class cache.
    ///
    /// `heres` is where the caches are.
    ///
    /// # Errors
    ///
    /// [`Error::Uninitialized`] before [`KernelHeap::init`], or the first
    /// error that [`KmemCache::validate_at`] reports for a cache.
    pub fn validate_at<M: PhysMap>(&self, map: &M, heres: &[usize; 13]) -> (result: Result<(), Error>)
        requires
            self.accounted(map),
            heap_verdict_safe(self@, map.mapping(), map.mem(), heres@),
        ensures
            result == heap_verdict(self@, map.mapping(), map.mem(), heres@),
    {
        if !self.initialized {
            return Err(Error::Uninitialized);
        }
        let mut index: usize = 0;
        while index < CLASS_COUNT
            invariant
                index <= CLASS_COUNT,
                self.accounted(map),
                heap_verdict_safe(self@, map.mapping(), map.mem(), heres@),
                heap_verdict(self@, map.mapping(), map.mem(), heres@) == verdict_from(
                    self@,
                    map.mapping(),
                    map.mem(),
                    heres@,
                    index as int,
                ),
            decreases CLASS_COUNT - index,
        {
            if self.active[index] {
                let result = self.caches[index].validate_at(map, heres[index]);
                if let Err(error) = result {
                    return Err(error);
                }
            }
            index = index + 1;
        }
        Ok(())
    }

    /// Allocates at least `size` bytes (`size` must be non-zero).
    ///
    /// # Errors
    ///
    /// [`Error::Uninitialized`] before [`KernelHeap::init`],
    /// [`Error::InvalidObjectSize`] for a zero size, or the allocator's
    /// [`Error::OutOfMemory`] when neither a slab nor the page allocator
    /// can satisfy the request.
    pub fn allocate<PA: PageAlloc>(&mut self, pages: &mut PA, size: usize) -> (result: Result<usize, Error>)
        requires
            old(self).wf(old(pages)),
        ensures
            final(self).wf(final(pages)),
            exists|heres: Seq<usize>| #[trigger]
                old(self).may_be_at(heres) && heap_alloc_outcome(
                    old(self)@,
                    final(self)@,
                    *old(pages),
                    *final(pages),
                    heres,
                    size as int,
                    route(old(self)@, size as int),
                    result,
                    None,
                ),
    {
        let heres = self.addresses();
        self.alloc_at(pages, &heres, size)
    }

    /// Allocates at least `size` bytes with the usable bytes zeroed.
    ///
    /// Slab objects are zeroed up to the class size, large blocks up to the
    /// block size, exactly what [`KernelHeap::usable_size`] reports.
    ///
    /// # Errors
    ///
    /// Same as [`KernelHeap::allocate`].
    pub fn alloc_zeroed<PA: PageAlloc>(&mut self, pages: &mut PA, size: usize) -> (result: Result<usize, Error>)
        requires
            old(self).wf(old(pages)),
        ensures
            final(self).wf(final(pages)),
            exists|heres: Seq<usize>| #[trigger]
                old(self).may_be_at(heres) && zeroed_outcome(
                    old(self)@,
                    final(self)@,
                    *old(pages),
                    *final(pages),
                    heres,
                    size as int,
                    route(old(self)@, size as int),
                    result,
                ),
    {
        let heres = self.addresses();
        self.alloc_zeroed_at(pages, &heres, size)
    }

    /// Allocates at least `size` bytes aligned to `align`, from the smallest
    /// class that covers both.
    ///
    /// # Errors
    ///
    /// [`Error::InvalidAlign`] if no class covers the request and the
    /// alignment is more than 8; otherwise the same as
    /// [`KernelHeap::allocate`].
    pub fn alloc_layout<PA: PageAlloc>(&mut self, pages: &mut PA, size: usize, align: usize) -> (result: Result<
        usize,
        Error,
    >)
        requires
            old(self).wf(old(pages)),
        ensures
            final(self).wf(final(pages)),
            exists|heres: Seq<usize>| #[trigger]
                old(self).may_be_at(heres) && heap_alloc_outcome(
                    old(self)@,
                    final(self)@,
                    *old(pages),
                    *final(pages),
                    heres,
                    size as int,
                    layout_route(old(self)@, size as int, align as int),
                    result,
                    None,
                ),
    {
        let heres = self.addresses();
        self.alloc_layout_at(pages, &heres, size, align)
    }

    /// Allocates like [`KernelHeap::alloc_layout`] with the usable bytes
    /// zeroed.
    ///
    /// # Errors
    ///
    /// Same as [`KernelHeap::alloc_layout`].
    pub fn alloc_zeroed_layout<PA: PageAlloc>(&mut self, pages: &mut PA, size: usize, align: usize) -> (result: Result<
        usize,
        Error,
    >)
        requires
            old(self).wf(old(pages)),
        ensures
            final(self).wf(final(pages)),
            exists|heres: Seq<usize>| #[trigger]
                old(self).may_be_at(heres) && zeroed_outcome(
                    old(self)@,
                    final(self)@,
                    *old(pages),
                    *final(pages),
                    heres,
                    size as int,
                    layout_route(old(self)@, size as int, align as int),
                    result,
                ),
    {
        let heres = self.addresses();
        self.alloc_zeroed_layout_at(pages, &heres, size, align)
    }

    /// Returns an allocation to its slab or to the page allocator.
    ///
    /// The pointer's page carries either a slab header or a large tag, which
    /// identifies the owning cache or the block order.
    ///
    /// # Errors
    ///
    /// [`Error::Uninitialized`] before [`KernelHeap::init`],
    /// [`Error::InvalidPointer`] for a pointer that does not carry a known
    /// tag (interior or stray pointers), [`Error::CrossCacheFree`] for an
    /// object of a cache that is not part of this set, or the slab's or
    /// page allocator's error.
    pub fn free<PA: PageAlloc>(&mut self, pages: &mut PA, ptr: usize) -> (result: Result<(), Error>)
        requires
            old(self).wf(old(pages)),
            forall|heres: Seq<usize>| #[trigger] old(self).may_be_at(heres) ==> heap_may_free(
                old(self)@,
                *old(pages),
                heres,
                ptr as int,
            ),
        ensures
            final(self).wf(final(pages)),
            exists|heres: Seq<usize>| #[trigger]
                old(self).may_be_at(heres) && heap_free_outcome(
                    old(self)@,
                    final(self)@,
                    *old(pages),
                    *final(pages),
                    heres,
                    ptr as int,
                    result,
                ),
    {
        let heres = self.addresses();
        self.free_at(pages, &heres, ptr)
    }

    /// Returns the usable size of an allocation: the size class for slab
    /// objects, the block size minus the tag for large ones.
    ///
    /// # Errors
    ///
    /// [`Error::Uninitialized`] before [`KernelHeap::init`],
    /// [`Error::InvalidPointer`] or [`Error::CrossCacheFree`] for pointers
    /// that do not belong to this set.
    pub fn usable_size<PA: PageAlloc>(&self, pages: &PA, ptr: usize) -> (result: Result<usize, Error>)
        requires
            self.wf(pages),
            forall|heres: Seq<usize>| #[trigger] self.may_be_at(heres) ==> may_measure(
                self@,
                *pages,
                heres,
                ptr as int,
            ),
        ensures
            exists|heres: Seq<usize>| #[trigger] self.may_be_at(heres) && {
                let size = usable(
                    self@,
                    pages.mapping(),
                    pages.mem(),
                    pages.book().max_order,
                    heres,
                    ptr as int,
                );
                match result {
                    Ok(bytes) => size == Ok::<int, Error>(bytes as int),
                    Err(error) => size == Err::<int, Error>(error),
                }
            },
    {
        let heres = self.addresses();
        self.usable_size_at(pages, &heres, ptr)
    }

    /// Resizes an allocation, moving it only when it does not fit.
    ///
    /// Shrinking (or growing within the current class or block) keeps the
    /// pointer; otherwise a new allocation is made, the old bytes are copied
    /// and the old allocation is freed. `size` must be non-zero.
    ///
    /// # Errors
    ///
    /// Same as [`KernelHeap::allocate`], [`KernelHeap::usable_size`] and
    /// [`KernelHeap::free`].
    pub fn realloc<PA: PageAlloc>(&mut self, pages: &mut PA, ptr: usize, size: usize) -> (result: Result<usize, Error>)
        requires
            old(self).wf(old(pages)),
            forall|heres: Seq<usize>| #[trigger] old(self).may_be_at(heres) ==> may_realloc(
                old(self)@,
                *old(pages),
                heres,
                ptr as int,
                size as int,
                true,
            ),
        ensures
            final(self).wf(final(pages)),
            exists|heres: Seq<usize>| #[trigger]
                old(self).may_be_at(heres) && realloc_outcome(
                    old(self)@,
                    final(self)@,
                    *old(pages),
                    *final(pages),
                    heres,
                    ptr,
                    size as int,
                    true,
                    route(old(self)@, size as int),
                    result,
                ) && carried_over(old(self)@, *old(pages), *final(pages), heres, ptr, size as int, result),
    {
        let heres = self.addresses();
        self.realloc_at(pages, &heres, ptr, size)
    }

    /// Resizes an allocation like [`KernelHeap::realloc`], and moves it too
    /// when its address is not aligned to `align`.
    ///
    /// # Errors
    ///
    /// Same as [`KernelHeap::alloc_layout`], [`KernelHeap::usable_size`] and
    /// [`KernelHeap::free`].
    pub fn realloc_layout<PA: PageAlloc>(&mut self, pages: &mut PA, ptr: usize, size: usize, align: usize) -> (result:
        Result<usize, Error>)
        requires
            old(self).wf(old(pages)),
            0 < align,
            forall|heres: Seq<usize>| #[trigger] old(self).may_be_at(heres) ==> may_realloc(
                old(self)@,
                *old(pages),
                heres,
                ptr as int,
                size as int,
                ptr % align == 0,
            ),
        ensures
            final(self).wf(final(pages)),
            exists|heres: Seq<usize>| #[trigger]
                old(self).may_be_at(heres) && realloc_outcome(
                    old(self)@,
                    final(self)@,
                    *old(pages),
                    *final(pages),
                    heres,
                    ptr,
                    size as int,
                    ptr % align == 0,
                    layout_route(old(self)@, size as int, align as int),
                    result,
                ) && carried_over(old(self)@, *old(pages), *final(pages), heres, ptr, size as int, result),
    {
        let heres = self.addresses();
        self.realloc_layout_at(pages, &heres, ptr, size, align)
    }

    /// Verifies the invariants of every class cache.
    ///
    /// # Errors
    ///
    /// [`Error::Uninitialized`] before [`KernelHeap::init`], or the first
    /// error that [`KmemCache::validate`] reports for a cache.
    pub fn validate<M: PhysMap>(&self, map: &M) -> (result: Result<(), Error>)
        requires
            self.accounted(map),
            forall|heres: Seq<usize>| #[trigger] self.may_be_at(heres) ==> heap_verdict_safe(
                self@,
                map.mapping(),
                map.mem(),
                heres,
            ),
        ensures
            exists|heres: Seq<usize>| #[trigger] self.may_be_at(heres) && result == heap_verdict(
                self@,
                map.mapping(),
                map.mem(),
                heres,
            ),
    {
        let heres = self.addresses();
        self.validate_at(map, &heres)
    }
}

} // verus!
