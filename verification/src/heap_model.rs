//! The mathematical model of a kernel heap, and how it lies in memory.

use vstd::arithmetic::div_mod::lemma_fundamental_div_mod;
use vstd::arithmetic::div_mod::lemma_mod_decreases;
use vstd::arithmetic::div_mod::lemma_mod_multiples_vanish;
use vstd::arithmetic::power2::is_pow2;
use vstd::arithmetic::power2::pow2;
use vstd::prelude::*;

use crate::error::Error;
use crate::header::header_at;
use crate::header::header_bytes;
use crate::header::lemma_header_same;
use crate::header::SLAB_MAGIC;
use crate::heap::CLASS_COUNT;
use crate::heap::LARGE_MAGIC;
use crate::heap::LARGE_TAG_SIZE;
use crate::heap::SIZE_CLASSES;
use crate::heap::TAG_ORDER_OFFSET;
use crate::layout::capacity;
use crate::layout::laid_out;
use crate::layout::layout_error;
use crate::layout::lemma_pow2_positive;
use crate::layout::raised_align;
use crate::layout::round_up;
use crate::layout::SlabLayout;
use crate::memory::accessible;
use crate::memory::lemma_number_bound;
use crate::memory::lemma_number_same;
use crate::memory::lemma_word_fits;
use crate::memory::number_at;
use crate::memory::pow256;
use crate::memory::same_but;
use crate::memory::same_bytes;
use crate::memory::word_bytes;
use crate::model::after;
use crate::model::before;
use crate::model::framed;
use crate::model::in_memory;
use crate::model::kind_of;
use crate::model::lemma_grid_apart;
use crate::model::lemma_grid_bounds;
use crate::model::lemma_write_in_slab;
use crate::model::placed;
use crate::model::rest_kept;
use crate::model::slab_ok;
use crate::model::CacheView;
use crate::model::Slab;
use crate::objects::lemma_slab_untouched;
use crate::objects::lemma_used_header;
use crate::objects::writing_a_live_object;
use crate::outcome::alloc_outcome;
use crate::outcome::free_outcome;
use crate::outcome::fresh_block;
use crate::outcome::handed_out_is_live;
use crate::outcome::may_free;
use crate::outcome::placeholder;
use crate::outcome::shrink_outcome;
use crate::pages::block_bytes;
use crate::pages::book_ok;
use crate::pages::kept;
use crate::pages::no_new_stuck;
use crate::pages::Book;
use crate::pages::Mapping;
use crate::pages::PageAlloc;
use crate::pages::PhysMap;
use crate::verdict::verdict;
use crate::verdict::verdict_safe;

verus! {

/// The state of a kernel heap.
#[verifier::ext_equal]
pub ghost struct HeapView {
    /// The heap has been initialized.
    pub initialized: bool,
    /// The page size.
    pub page_size: usize,
    /// Which size classes have a cache.
    pub active: Seq<bool>,
    /// The caches of the size classes.
    pub caches: Seq<CacheView>,
    /// The blocks of the large allocations, by virtual address.
    pub large: Set<int>,
}

/// The largest power of two that divides `n`.
pub open spec fn lowbit(n: int) -> int
    decreases n,
{
    if n <= 1 || n % 2 == 1 {
        1
    } else {
        2 * lowbit(n / 2)
    }
}

/// The alignment of the objects of a size class: the largest power of two
/// that divides the size, but no more than a page.
pub open spec fn class_align(size: int, page_size: int) -> int {
    if lowbit(size) <= page_size {
        lowbit(size)
    } else {
        page_size
    }
}

/// A page holds at least one object of the size class.
pub open spec fn single_page(index: int, page_size: int, max_order: u8) -> bool {
    let size = SIZE_CLASSES@[index] as int;
    let align = class_align(size, page_size);
    let raised = raised_align(align);
    &&& layout_error(header_bytes(), size, align, page_size, max_order) is None
    &&& capacity(page_size, round_up(header_bytes(), raised), round_up(size, raised), 0) > 0
}

/// `layout` is that of a size class with single-page slabs.
pub open spec fn class_layout(index: int, layout: SlabLayout, page_size: int, max_order: u8) -> bool {
    let size = SIZE_CLASSES@[index] as int;
    &&& laid_out(layout, header_bytes(), size, class_align(size, page_size), page_size, max_order, 1)
    &&& layout.order == 0
}

/// `index` is the smallest class that can hold `size`.
pub open spec fn class_of(size: int) -> Option<int> {
    if exists|i: int| 0 <= i < CLASS_COUNT && size <= SIZE_CLASSES@[i] {
        Some(
            choose|i: int|
                0 <= i < CLASS_COUNT && size <= SIZE_CLASSES@[i] && forall|j: int|
                    0 <= j < i ==> #[trigger] SIZE_CLASSES@[j] < size,
        )
    } else {
        None
    }
}

/// The magic at `base`.
pub open spec fn magic_at(mem: Map<int, u8>, base: int) -> int {
    number_at(mem, base, 4)
}

/// The block at `b` is out and carries the tag of a large allocation.
pub open spec fn large_ok(map: Mapping, mem: Map<int, u8>, book: Book, b: int) -> bool {
    let a = map.to_phys[b];
    &&& placed(map, book, book.blocks[a], b)
    &&& magic_at(mem, b) == LARGE_MAGIC
    &&& mem[b + TAG_ORDER_OFFSET] == book.blocks[a]
    &&& LARGE_TAG_SIZE < block_bytes(book.page_size as int, book.blocks[a])
}

impl HeapView {
    /// `b` is a slab of the cache of class `index`.
    pub open spec fn has_slab(self, index: int, b: int) -> bool {
        self.caches[index].slabs.dom().contains(b)
    }

    /// `b` is a slab of one of the caches, or a large block.
    pub open spec fn owns(self, b: int) -> bool {
        ||| self.large.contains(b)
        ||| exists|i: int| 0 <= i < CLASS_COUNT && #[trigger] self.has_slab(i, b)
    }

    /// The classes with a cache are those whose objects fit a page, and each
    /// cache has the layout of its class.
    pub open spec fn classes_ok(self, book: Book) -> bool {
        &&& self.active.len() == CLASS_COUNT
        &&& self.caches.len() == CLASS_COUNT
        &&& !self.initialized ==> self.page_size == 0 && self.large == Set::<int>::empty()
        &&& self.initialized ==> self.page_size == book.page_size && is_pow2(self.page_size as int)
            && LARGE_TAG_SIZE <= self.page_size
        &&& forall|i: int| 0 <= i < CLASS_COUNT ==> {
            &&& #[trigger] self.active[i] <==> self.initialized && single_page(
                i,
                self.page_size as int,
                book.max_order,
            )
            &&& !self.active[i] ==> self.caches[i] == placeholder()
            &&& self.active[i] ==> self.caches[i].initialized() && class_layout(
                i,
                self.caches[i].layout,
                self.page_size as int,
                book.max_order,
            )
        }
    }

    /// No block is used twice.
    pub open spec fn apart(self) -> bool {
        &&& forall|i: int, j: int, b: int| #![trigger self.has_slab(i, b), self.has_slab(j, b)]
            0 <= i < CLASS_COUNT && 0 <= j < CLASS_COUNT && self.has_slab(i, b) && self.has_slab(j, b) ==> i == j
        &&& forall|i: int, b: int| #![trigger self.has_slab(i, b)]
            0 <= i < CLASS_COUNT && self.has_slab(i, b) ==> !self.large.contains(b)
    }

    /// The caches and the large allocations lie in memory.
    pub open spec fn memory_ok(self, map: Mapping, mem: Map<int, u8>, book: Book) -> bool {
        &&& forall|i: int| 0 <= i < CLASS_COUNT ==> (#[trigger] self.caches[i]).ok(map, mem, book)
        &&& forall|b: int| #[trigger] self.large.contains(b) ==> large_ok(map, mem, book, b)
    }

    /// The state is consistent.
    pub open spec fn ok(self, map: Mapping, mem: Map<int, u8>, book: Book) -> bool {
        &&& self.classes_ok(book)
        &&& self.apart()
        &&& self.memory_ok(map, mem, book)
    }

    /// The cache of class `index` is in the state `v`.
    pub open spec fn with_cache(self, index: int, v: CacheView) -> HeapView {
        HeapView { caches: self.caches.update(index, v), ..self }
    }

    /// The block at `b` is a large allocation.
    pub open spec fn with_large(self, b: int) -> HeapView {
        HeapView { large: self.large.insert(b), ..self }
    }

    /// The block at `b` is no large allocation any more.
    pub open spec fn without_large(self, b: int) -> HeapView {
        HeapView { large: self.large.remove(b), ..self }
    }
}

/// A cache stays as it is while blocks of others change.
pub proof fn lemma_cache_untouched(
    v: CacheView,
    map: Mapping,
    old_book: Book,
    book: Book,
    old_mem: Map<int, u8>,
    mem: Map<int, u8>,
    slabs: Map<int, Slab>,
)
    requires
        v.ok(map, old_mem, old_book),
        book_ok(map, old_mem, old_book),
        rest_kept(map, old_book, book, old_mem, mem, slabs),
        forall|b: int| #[trigger] v.slabs.dom().contains(b) ==> !slabs.dom().contains(b),
    ensures
        v.ok(map, mem, book),
{
    if v.initialized() {
        assert forall|b: int| #[trigger] v.slabs.dom().contains(b) implies placed(map, book, v.layout.order, b)
            && same_bytes(old_mem, mem, b, v.layout.slab_bytes as int) by {}
    }
    assert(in_memory(v.layout, v.slabs, v.partial, mem)) by {
        reveal(in_memory);
        assert forall|i: int| 0 <= i < v.partial.len() implies slab_ok(
            mem,
            v.layout,
            #[trigger] v.partial[i],
            v.slabs[v.partial[i]],
            true,
            after(v.partial, i),
            before(v.partial, i),
        ) by {
            lemma_slab_untouched(
                v,
                old_mem,
                mem,
                v.partial[i],
                true,
                after(v.partial, i),
                before(v.partial, i),
            );
        }
        assert forall|b: int| #[trigger] v.slabs.dom().contains(b) && !v.slabs[b].lost && !v.partial.contains(b)
            implies slab_ok(mem, v.layout, b, v.slabs[b], false, None, None) by {
            lemma_slab_untouched(v, old_mem, mem, b, false, None, None);
        }
        assert forall|b: int| #[trigger] v.slabs.dom().contains(b) && v.slabs[b].lost implies header_at(mem, b).magic
            == 0 by {
            lemma_header_same(old_mem, mem, b);
        }
    }
}

/// A slab does not start with the tag of a large allocation.
pub proof fn lemma_slabs_have_no_tag(v: CacheView, mem: Map<int, u8>, b: int)
    requires
        v.structure_ok(),
        v.memory_ok(mem),
        v.slabs.dom().contains(b),
    ensures
        magic_at(mem, b) != LARGE_MAGIC,
{
    if v.slabs[b].lost {
        reveal(in_memory);
    } else {
        lemma_used_header(v, mem, b);
    }
    lemma_number_bound(mem, b, 4);
    reveal_with_fuel(pow256, 5);
}

/// A large allocation stays as it is while blocks of others change.
pub proof fn lemma_large_untouched(
    map: Mapping,
    old_book: Book,
    book: Book,
    old_mem: Map<int, u8>,
    mem: Map<int, u8>,
    slabs: Map<int, Slab>,
    b: int,
)
    requires
        large_ok(map, old_mem, old_book, b),
        rest_kept(map, old_book, book, old_mem, mem, slabs),
        !slabs.dom().contains(b),
    ensures
        large_ok(map, mem, book, b),
{
    assert forall|p: int| b <= p < b + LARGE_TAG_SIZE implies #[trigger] mem[p] == old_mem[p] by {}
    lemma_number_same(old_mem, mem, b, 4);
}

/// A change in one cache keeps the heap consistent.
pub proof fn lemma_one_cache(
    h: HeapView,
    index: int,
    v: CacheView,
    map: Mapping,
    old_book: Book,
    book: Book,
    old_mem: Map<int, u8>,
    mem: Map<int, u8>,
)
    requires
        h.ok(map, old_mem, old_book),
        book_ok(map, old_mem, old_book),
        book_ok(map, mem, book),
        0 <= index < CLASS_COUNT,
        h.active[index],
        v.ok(map, mem, book),
        v.layout == h.caches[index].layout,
        rest_kept(map, old_book, book, old_mem, mem, h.caches[index].slabs),
        forall|b: int| #[trigger] v.slabs.dom().contains(b) ==> h.has_slab(index, b) || !old_book.blocks.dom().contains(
            map.to_phys[b],
        ),
    ensures
        h.with_cache(index, v).ok(map, mem, book),
{
    let new = h.with_cache(index, v);
    let slabs = h.caches[index].slabs;
    assert forall|i: int, b: int| 0 <= i < CLASS_COUNT && #[trigger] h.has_slab(i, b) implies
        old_book.blocks.dom().contains(map.to_phys[b]) by {}
    assert forall|i: int| 0 <= i < CLASS_COUNT implies (#[trigger] new.caches[i]).ok(map, mem, book) by {
        if i != index {
            assert forall|b: int| #[trigger] h.caches[i].slabs.dom().contains(b) implies !slabs.dom().contains(b) by {
                assert(h.has_slab(i, b));
                if slabs.dom().contains(b) {
                    assert(h.has_slab(index, b));
                }
            }
            lemma_cache_untouched(h.caches[i], map, old_book, book, old_mem, mem, slabs);
        }
    }
    assert forall|b: int| #[trigger] new.large.contains(b) implies large_ok(map, mem, book, b) by {
        assert(!slabs.dom().contains(b)) by {
            if slabs.dom().contains(b) {
                assert(h.has_slab(index, b));
            }
        }
        lemma_large_untouched(map, old_book, book, old_mem, mem, slabs, b);
    }
    assert forall|i: int, j: int, b: int| #![trigger new.has_slab(i, b), new.has_slab(j, b)]
        0 <= i < CLASS_COUNT && 0 <= j < CLASS_COUNT && new.has_slab(i, b) && new.has_slab(j, b) implies i == j by {
        if i != index {
            assert(h.has_slab(i, b));
        }
        if j != index {
            assert(h.has_slab(j, b));
        }
    }
    assert forall|i: int, b: int| #![trigger new.has_slab(i, b)]
        0 <= i < CLASS_COUNT && new.has_slab(i, b) implies !new.large.contains(b) by {
        if i != index {
            assert(h.has_slab(i, b));
        } else if h.large.contains(b) {
        }
    }
    assert forall|i: int| 0 <= i < CLASS_COUNT implies {
        &&& #[trigger] new.active[i] <==> new.initialized && single_page(i, new.page_size as int, book.max_order)
        &&& !new.active[i] ==> new.caches[i] == placeholder()
        &&& new.active[i] ==> new.caches[i].initialized() && class_layout(
            i,
            new.caches[i].layout,
            new.page_size as int,
            book.max_order,
        )
    } by {}
}

/// `order` is the smallest one whose blocks hold `size` bytes and a tag.
pub open spec fn large_order(size: int, page_size: int, order: u8) -> bool {
    &&& size + LARGE_TAG_SIZE <= block_bytes(page_size, order)
    &&& forall|o: u8| o < order ==> #[trigger] block_bytes(page_size, o) < size + LARGE_TAG_SIZE
}

/// No order up to `max_order` has blocks that hold `size` bytes and a tag.
pub open spec fn too_large(size: int, page_size: int, max_order: u8) -> bool {
    forall|order: u8| order <= max_order ==> #[trigger] block_bytes(page_size, order) < size + LARGE_TAG_SIZE
}

/// What a large allocation of `size` bytes results in: the address behind the
/// tag of a fresh block of the smallest order that is large enough. If there
/// is no such order, the page allocator is not asked; if it refuses the order,
/// its error is passed on. All blocks that are out keep their bytes and can be
/// given back as before.
pub open spec fn large_outcome<PA: PageAlloc>(
    old: HeapView,
    new: HeapView,
    old_pages: PA,
    pages: PA,
    size: int,
    result: Result<usize, Error>,
) -> bool {
    let book = old_pages.book();
    let page_size = old.page_size as int;
    &&& pages.mapping() == old_pages.mapping()
    &&& rest_kept(old_pages.mapping(), book, pages.book(), old_pages.mem(), pages.mem(), Map::empty())
    &&& no_new_stuck(book, pages.book())
    &&& if size + LARGE_TAG_SIZE > usize::MAX || too_large(size, page_size, book.max_order) {
        &&& result == Err::<usize, Error>(Error::OutOfMemory)
        &&& new == old
        &&& pages == old_pages
    } else {
        match result {
            Ok(ptr) => exists|order: u8| {
                &&& #[trigger] large_order(size, page_size, order)
                &&& order <= book.max_order
                &&& !book.refused.dom().contains(order)
                &&& fresh_block(old_pages.mapping(), book, pages.book(), order, ptr - LARGE_TAG_SIZE)
                &&& new == old.with_large(ptr - LARGE_TAG_SIZE)
            },
            Err(error) => {
                &&& new == old
                &&& pages.book().blocks == book.blocks
                &&& exists|order: u8| {
                    &&& #[trigger] large_order(size, page_size, order)
                    &&& order <= book.max_order
                    &&& book.refused.dom().contains(order)
                    &&& error == book.refused[order]
                }
            },
        }
    }
}

/// The class `index` has a cache, and it is at `place`.
pub open spec fn is_at(h: HeapView, heres: Seq<usize>, index: int, place: usize) -> bool {
    0 <= index < CLASS_COUNT && h.active[index] && heres[index] == place
}

/// The class whose cache is at `place`, while the caches are at `heres`; the
/// first one, should there be several.
pub open spec fn cache_at(h: HeapView, heres: Seq<usize>, place: usize) -> Option<int> {
    if exists|i: int| is_at(h, heres, i, place) {
        Some(
            choose|i: int| #[trigger]
                is_at(h, heres, i, place) && forall|j: int| 0 <= j < i ==> !#[trigger] is_at(h, heres, j, place),
        )
    } else {
        None
    }
}

/// The caches are in different places, and each is where it grew its slabs.
pub open spec fn in_place(h: HeapView, heres: Seq<usize>) -> bool {
    &&& forall|i: int, j: int|
        0 <= i < CLASS_COUNT && 0 <= j < CLASS_COUNT && i != j ==> #[trigger] heres[i] != #[trigger] heres[j]
    &&& forall|i: int| 0 <= i < CLASS_COUNT ==> (#[trigger] h.caches[i]).stayed_at(heres[i])
}

/// How an allocation is served.
pub ghost enum Route {
    /// By the cache of the class.
    Class(int),
    /// By the page allocator.
    Large,
    /// Not at all.
    Refused(Error),
}

/// How an allocation of `size` bytes is served: by the smallest class that can
/// hold it, and by the page allocator if that class has no cache or there is
/// no such class.
pub open spec fn route(h: HeapView, size: int) -> Route {
    if !h.initialized {
        Route::Refused(Error::Uninitialized)
    } else if size == 0 {
        Route::Refused(Error::InvalidObjectSize)
    } else {
        match class_of(size) {
            Some(index) => if h.active[index] {
                Route::Class(index)
            } else {
                Route::Large
            },
            None => Route::Large,
        }
    }
}

/// The cache of the class serves `size` bytes aligned to `align`.
pub open spec fn class_covers(h: HeapView, index: int, size: int, align: int) -> bool {
    &&& h.active[index]
    &&& size <= SIZE_CLASSES@[index]
    &&& align <= h.caches[index].layout.align
}

/// How an allocation of `size` bytes aligned to `align` is served: by the
/// smallest class that covers both. If none does, the page allocator serves
/// it, unless the alignment is more than that of the address behind a tag.
pub open spec fn layout_route(h: HeapView, size: int, align: int) -> Route {
    if !h.initialized {
        Route::Refused(Error::Uninitialized)
    } else if size == 0 {
        Route::Refused(Error::InvalidObjectSize)
    } else if exists|i: int| 0 <= i < CLASS_COUNT && class_covers(h, i, size, align) {
        Route::Class(
            choose|i: int|
                0 <= i < CLASS_COUNT && class_covers(h, i, size, align) && forall|j: int|
                    0 <= j < i ==> !#[trigger] class_covers(h, j, size, align),
        )
    } else if align <= LARGE_TAG_SIZE {
        Route::Large
    } else {
        Route::Refused(Error::InvalidAlign)
    }
}

/// The route leads to something that holds `size` bytes.
pub open spec fn route_ok(h: HeapView, size: int, route: Route) -> bool {
    match route {
        Route::Class(index) => {
            &&& 0 <= index < CLASS_COUNT
            &&& h.active[index]
            &&& size <= SIZE_CLASSES@[index]
        },
        Route::Large => h.initialized && 0 < size,
        Route::Refused(_) => true,
    }
}

/// What an allocation from the cache of class `index` results in. All other
/// caches and blocks stay as they are, and so do the objects of the cache, but
/// for the bytes at `except`.
pub open spec fn class_outcome<PA: PageAlloc>(
    old: HeapView,
    new: HeapView,
    old_pages: PA,
    pages: PA,
    heres: Seq<usize>,
    index: int,
    result: Result<usize, Error>,
    except: Option<(int, int)>,
) -> bool {
    &&& alloc_outcome(old.caches[index], new.caches[index], old_pages, pages, heres[index], result)
    &&& framed(old_pages, pages, old.caches[index], new.caches[index], except)
    &&& new == old.with_cache(index, new.caches[index])
}

/// What an allocation of `size` bytes that takes the route `route` results in,
/// while the caches are at `heres`. What is allocated already keeps its bytes,
/// but for those at `except`.
pub open spec fn heap_alloc_outcome<PA: PageAlloc>(
    old: HeapView,
    new: HeapView,
    old_pages: PA,
    pages: PA,
    heres: Seq<usize>,
    size: int,
    route: Route,
    result: Result<usize, Error>,
    except: Option<(int, int)>,
) -> bool {
    match route {
        Route::Class(index) => class_outcome(old, new, old_pages, pages, heres, index, result, except),
        Route::Large => large_outcome(old, new, old_pages, pages, size, result),
        Route::Refused(error) => {
            &&& result == Err::<usize, Error>(error)
            &&& new == old
            &&& pages == old_pages
        },
    }
}

/// The physical address of the page around `ptr`.
pub open spec fn page_start(page_size: int, map: Mapping, ptr: int) -> int {
    let phys = map.to_phys[ptr];
    phys - phys % page_size
}

/// The virtual address of the page around `ptr`.
pub open spec fn page_around(page_size: int, map: Mapping, ptr: int) -> int {
    map.to_virt[page_start(page_size, map, ptr)]
}

/// `ptr` and the page around it can be translated, and what identifies the
/// page can be read.
pub open spec fn taggable(page_size: int, map: Mapping, mem: Map<int, u8>, ptr: int) -> bool {
    let page = page_around(page_size, map, ptr);
    &&& map.to_phys.dom().contains(ptr)
    &&& map.to_virt.dom().contains(page_start(page_size, map, ptr))
    &&& page + LARGE_TAG_SIZE <= usize::MAX
    &&& accessible(mem, page, LARGE_TAG_SIZE as int)
    &&& magic_at(mem, page) == SLAB_MAGIC ==> {
        &&& page + header_bytes() <= usize::MAX
        &&& accessible(mem, page, header_bytes())
    }
}

/// What a pointer is, by the first bytes of the page around it.
pub ghost enum Origin {
    /// An object of the cache of the class.
    Class(int),
    /// A large allocation of the order.
    Large(u8),
    /// Nothing of this heap.
    Foreign(Error),
}

/// What the page around `ptr` says that `ptr` is.
pub open spec fn origin(h: HeapView, map: Mapping, mem: Map<int, u8>, max_order: u8, heres: Seq<usize>, ptr: int) -> Origin {
    let page = page_around(h.page_size as int, map, ptr);
    let magic = magic_at(mem, page);
    if magic == SLAB_MAGIC {
        match cache_at(h, heres, header_at(mem, page).owner) {
            Some(index) => Origin::Class(index),
            None => Origin::Foreign(Error::CrossCacheFree),
        }
    } else if magic == LARGE_MAGIC {
        let order = mem[page + TAG_ORDER_OFFSET];
        if ptr != page + LARGE_TAG_SIZE || order > max_order {
            Origin::Foreign(Error::InvalidPointer)
        } else {
            Origin::Large(order)
        }
    } else {
        Origin::Foreign(Error::InvalidPointer)
    }
}

/// The page around `ptr` is taken for a slab of a class whose objects are of
/// another kind than those of the slab: the caches have moved, and this one is
/// where that of the slab was.
pub open spec fn mistaken(h: HeapView, map: Mapping, mem: Map<int, u8>, max_order: u8, heres: Seq<usize>, ptr: int) -> bool {
    origin(h, map, mem, max_order, heres, ptr) matches Origin::Class(index) && header_at(
        mem,
        page_around(h.page_size as int, map, ptr),
    ).kind != kind_of(h.caches[index].layout)
}

/// `ptr` can be handed to the heap to be freed: the page around it can be
/// looked at, and if what is there says that it is an object that its cache
/// would take back, then it is one in use. If what is there says that it is a
/// large allocation and the page is a block that is out, then the block has
/// the order that is there. The page need not be such a block: it is none
/// after a first free.
pub open spec fn heap_may_free<M: PhysMap>(h: HeapView, pages: M, heres: Seq<usize>, ptr: int) -> bool {
    h.initialized ==> {
        &&& taggable(h.page_size as int, pages.mapping(), pages.mem(), ptr)
        &&& match origin(h, pages.mapping(), pages.mem(), pages.book().max_order, heres, ptr) {
            Origin::Class(index) => may_free(h.caches[index], pages, heres[index], ptr),
            Origin::Large(order) => {
                let block = page_start(h.page_size as int, pages.mapping(), ptr);
                pages.book().blocks.dom().contains(block) ==> pages.book().blocks[block] == order
            },
            Origin::Foreign(_) => true,
        }
    }
}

/// The usable size of `ptr` can be asked for: the page around it can be looked
/// at, and if what is there says that it is a large allocation, the size of a
/// block of the order that is there can be expressed.
pub open spec fn may_measure<M: PhysMap>(h: HeapView, pages: M, heres: Seq<usize>, ptr: int) -> bool {
    h.initialized ==> {
        &&& taggable(h.page_size as int, pages.mapping(), pages.mem(), ptr)
        &&& origin(h, pages.mapping(), pages.mem(), pages.book().max_order, heres, ptr) matches Origin::Large(order)
            ==> block_bytes(h.page_size as int, order) <= usize::MAX
    }
}

/// What freeing `ptr` results in, while the caches are at `heres`: it goes
/// back to the cache or to the page allocator that it came from, or is
/// rejected, which changes nothing. The page allocator decides on what says
/// that it is a large allocation.
pub open spec fn heap_free_outcome<PA: PageAlloc>(
    old: HeapView,
    new: HeapView,
    old_pages: PA,
    pages: PA,
    heres: Seq<usize>,
    ptr: int,
    result: Result<(), Error>,
) -> bool {
    let map = old_pages.mapping();
    let book = old_pages.book();
    if !old.initialized {
        &&& result == Err::<(), Error>(Error::Uninitialized)
        &&& new == old
        &&& pages == old_pages
    } else {
        match origin(old, map, old_pages.mem(), book.max_order, heres, ptr) {
            Origin::Foreign(error) => {
                &&& result == Err::<(), Error>(error)
                &&& new == old
                &&& pages == old_pages
            },
            Origin::Class(index) => {
                &&& free_outcome(
                    old.caches[index],
                    new.caches[index],
                    old_pages,
                    pages,
                    heres[index],
                    ptr,
                    result,
                )
                &&& framed(old_pages, pages, old.caches[index], new.caches[index], Some((ptr, word_bytes())))
                &&& new == old.with_cache(index, new.caches[index])
            },
            Origin::Large(order) => {
                let block = page_start(old.page_size as int, map, ptr);
                &&& pages.mapping() == map
                &&& pages.mem().dom() == old_pages.mem().dom()
                &&& pages.book().page_size == book.page_size
                &&& pages.book().max_order == book.max_order
                &&& pages.book().managed == book.managed
                &&& no_new_stuck(book, pages.book())
                &&& kept(map, book.page_size as int, pages.book().blocks, old_pages.mem(), pages.mem())
                &&& match result {
                    Ok(()) => {
                        &&& book.blocks.dom().contains(block)
                        &&& !book.stuck.dom().contains(block)
                        &&& new == old.without_large(ptr - LARGE_TAG_SIZE)
                        &&& pages.book().blocks == book.blocks.remove(block)
                    },
                    Err(error) => {
                        &&& if book.blocks.dom().contains(block) {
                            &&& book.stuck.dom().contains(block)
                            &&& error == book.stuck[block]
                        } else {
                            error == book.unknown
                        }
                        &&& new == old
                        &&& pages.book().blocks == book.blocks
                    },
                }
            },
        }
    }
}

/// The usable size of the allocation at `ptr`, while the caches are at
/// `heres`: the size of its class, or that of its block without the tag.
pub open spec fn usable(
    h: HeapView,
    map: Mapping,
    mem: Map<int, u8>,
    max_order: u8,
    heres: Seq<usize>,
    ptr: int,
) -> Result<int, Error> {
    if !h.initialized {
        Err(Error::Uninitialized)
    } else {
        match origin(h, map, mem, max_order, heres, ptr) {
            Origin::Class(index) => Ok(h.caches[index].layout.object_size as int),
            Origin::Large(order) => Ok(block_bytes(h.page_size as int, order) - LARGE_TAG_SIZE),
            Origin::Foreign(error) => Err(error),
        }
    }
}

/// A fresh block that carries a tag is a large allocation.
pub proof fn lemma_large_added(
    h: HeapView,
    map: Mapping,
    old_book: Book,
    book: Book,
    old_mem: Map<int, u8>,
    mem: Map<int, u8>,
    order: u8,
    b: int,
)
    requires
        h.ok(map, old_mem, old_book),
        h.initialized,
        book_ok(map, old_mem, old_book),
        book_ok(map, mem, book),
        rest_kept(map, old_book, book, old_mem, mem, Map::empty()),
        fresh_block(map, old_book, book, order, b),
        large_ok(map, mem, book, b),
    ensures
        h.with_large(b).ok(map, mem, book),
{
    let new = h.with_large(b);
    let none = Map::<int, Slab>::empty();
    assert forall|i: int| 0 <= i < CLASS_COUNT implies (#[trigger] new.caches[i]).ok(map, mem, book) by {
        lemma_cache_untouched(h.caches[i], map, old_book, book, old_mem, mem, none);
    }
    assert forall|c: int| #[trigger] new.large.contains(c) implies large_ok(map, mem, book, c) by {
        if c != b {
            lemma_large_untouched(map, old_book, book, old_mem, mem, none, c);
        }
    }
    assert forall|i: int, c: int| #![trigger new.has_slab(i, c)]
        0 <= i < CLASS_COUNT && new.has_slab(i, c) implies !new.large.contains(c) by {
        assert(h.has_slab(i, c));
    }
    assert forall|i: int, j: int, c: int| #![trigger new.has_slab(i, c), new.has_slab(j, c)]
        0 <= i < CLASS_COUNT && 0 <= j < CLASS_COUNT && new.has_slab(i, c) && new.has_slab(j, c) implies i == j by {
        assert(h.has_slab(i, c));
        assert(h.has_slab(j, c));
    }
    assert forall|i: int| 0 <= i < CLASS_COUNT implies {
        &&& #[trigger] new.active[i] <==> new.initialized && single_page(i, new.page_size as int, book.max_order)
        &&& !new.active[i] ==> new.caches[i] == placeholder()
        &&& new.active[i] ==> new.caches[i].initialized() && class_layout(
            i,
            new.caches[i].layout,
            new.page_size as int,
            book.max_order,
        )
    } by {}
}

/// A large allocation that is gone leaves the rest of the heap consistent.
pub proof fn lemma_large_removed(
    h: HeapView,
    new: HeapView,
    map: Mapping,
    old_book: Book,
    book: Book,
    old_mem: Map<int, u8>,
    mem: Map<int, u8>,
    b: int,
)
    requires
        h.ok(map, old_mem, old_book),
        h.initialized,
        magic_at(old_mem, b) == LARGE_MAGIC,
        old_book.blocks.dom().contains(map.to_phys[b]),
        map.to_virt[map.to_phys[b]] == b,
        book_ok(map, old_mem, old_book),
        book_ok(map, mem, book),
        mem.dom() == old_mem.dom(),
        book.page_size == old_book.page_size,
        book.max_order == old_book.max_order,
        book.managed == old_book.managed,
        kept(map, book.page_size as int, book.blocks, old_mem, mem),
        new == h.without_large(b),
        book.blocks == old_book.blocks.remove(map.to_phys[b]),
    ensures
        new.ok(map, mem, book),
{
    let gone = Map::<int, Slab>::empty().insert(b, arbitrary());
    assert(rest_kept(map, old_book, book, old_mem, mem, gone)) by {
        assert forall|a: int| #[trigger] old_book.blocks.dom().contains(a) && !gone.dom().contains(map.to_virt[a])
            implies book.blocks.dom().contains(a) && book.blocks[a] == old_book.blocks[a] by {}
        assert forall|a: int, p: int| #![trigger old_book.blocks.dom().contains(a), mem[p]]
            old_book.blocks.dom().contains(a) && !gone.dom().contains(map.to_virt[a]) && map.to_virt[a] <= p
                < map.to_virt[a] + block_bytes(old_book.page_size as int, old_book.blocks[a])
                implies mem[p] == old_mem[p] by {}
    }
    assert forall|i: int| 0 <= i < CLASS_COUNT implies (#[trigger] new.caches[i]).ok(map, mem, book) by {
        assert forall|c: int| #[trigger] h.caches[i].slabs.dom().contains(c) implies !gone.dom().contains(c) by {
            lemma_slabs_have_no_tag(h.caches[i], old_mem, c);
        }
        lemma_cache_untouched(h.caches[i], map, old_book, book, old_mem, mem, gone);
    }
    assert forall|c: int| #[trigger] new.large.contains(c) implies large_ok(map, mem, book, c) by {
        lemma_large_untouched(map, old_book, book, old_mem, mem, gone, c);
    }
    assert forall|i: int, c: int| #![trigger new.has_slab(i, c)]
        0 <= i < CLASS_COUNT && new.has_slab(i, c) implies !new.large.contains(c) by {
        assert(h.has_slab(i, c));
    }
    assert forall|i: int, j: int, c: int| #![trigger new.has_slab(i, c), new.has_slab(j, c)]
        0 <= i < CLASS_COUNT && 0 <= j < CLASS_COUNT && new.has_slab(i, c) && new.has_slab(j, c) implies i == j by {
        assert(h.has_slab(i, c));
        assert(h.has_slab(j, c));
    }
    assert forall|i: int| 0 <= i < CLASS_COUNT implies {
        &&& #[trigger] new.active[i] <==> new.initialized && single_page(i, new.page_size as int, book.max_order)
        &&& !new.active[i] ==> new.caches[i] == placeholder()
        &&& new.active[i] ==> new.caches[i].initialized() && class_layout(
            i,
            new.caches[i].layout,
            new.page_size as int,
            book.max_order,
        )
    } by {}
}

/// The page behind which a large allocation starts is its block.
pub proof fn lemma_large_page(h: HeapView, map: Mapping, mem: Map<int, u8>, book: Book, ptr: int)
    requires
        h.ok(map, mem, book),
        h.initialized,
        book_ok(map, mem, book),
        h.large.contains(ptr - LARGE_TAG_SIZE),
        page_around(h.page_size as int, map, ptr) == ptr - LARGE_TAG_SIZE,
    ensures
        map.to_phys[ptr] - map.to_phys[ptr] % (h.page_size as int) == map.to_phys[ptr - LARGE_TAG_SIZE],
{
    let b = ptr - LARGE_TAG_SIZE;
    let ps = h.page_size as int;
    let block = map.to_phys[b];
    assert(map.to_phys[ptr] == block + LARGE_TAG_SIZE);
    lemma_pow2_positive(ps);
    let n = pow2(book.blocks[block] as nat) as int;
    let bytes = block_bytes(ps, book.blocks[block]);
    lemma_fundamental_div_mod(block, bytes);
    let q = block / bytes;
    assert(block == (n * q) * ps) by (nonlinear_arith)
        requires
            block == bytes * q,
            bytes == ps * n,
    ;
    lemma_mod_multiples_vanish(n * q, LARGE_TAG_SIZE as int, ps);
    let rest = LARGE_TAG_SIZE as int % ps;
    lemma_fundamental_div_mod(LARGE_TAG_SIZE as int, ps);
    assert(0 <= rest <= LARGE_TAG_SIZE) by {
        lemma_mod_decreases(LARGE_TAG_SIZE as nat, ps as nat);
    }
    assert(map.to_virt[block + (LARGE_TAG_SIZE - rest)] == b + (LARGE_TAG_SIZE - rest));
}

/// `ptr` is an allocation with `n` usable bytes.
pub open spec fn allocated(h: HeapView, map: Mapping, book: Book, ptr: int, n: int) -> bool {
    ||| exists|i: int, b: int|
        0 <= i < CLASS_COUNT && h.active[i] && #[trigger] h.caches[i].lives(b, ptr) && n
            == h.caches[i].layout.object_size
    ||| h.large.contains(ptr - LARGE_TAG_SIZE) && n == block_bytes(
        h.page_size as int,
        book.blocks[map.to_phys[ptr - LARGE_TAG_SIZE]],
    ) - LARGE_TAG_SIZE
}

/// The block that holds an allocation, and its size.
pub proof fn lemma_allocation_home(h: HeapView, map: Mapping, mem: Map<int, u8>, book: Book, ptr: int, n: int) -> (home: int)
    requires
        h.ok(map, mem, book),
        h.initialized,
        book_ok(map, mem, book),
        allocated(h, map, book, ptr, n),
    ensures
        book.blocks.dom().contains(home),
        map.to_virt[home] < ptr,
        ptr + n <= map.to_virt[home] + block_bytes(book.page_size as int, book.blocks[home]),
        0 < n,
        h.owns(map.to_virt[home]),
{
    if h.large.contains(ptr - LARGE_TAG_SIZE) && n == block_bytes(
        h.page_size as int,
        book.blocks[map.to_phys[ptr - LARGE_TAG_SIZE]],
    ) - LARGE_TAG_SIZE {
        let b = ptr - LARGE_TAG_SIZE;
        map.to_phys[b]
    } else {
        let (i, b) = choose|i: int, b: int|
            0 <= i < CLASS_COUNT && h.active[i] && #[trigger] h.caches[i].lives(b, ptr) && n
                == h.caches[i].layout.object_size;
        let v = h.caches[i];
        lemma_grid_bounds(v.layout, b, ptr);
        lemma_word_fits();
        assert(h.has_slab(i, b));
        map.to_phys[b]
    }
}

/// Two different allocations have no byte in common.
pub proof fn allocations_are_apart(
    h: HeapView,
    map: Mapping,
    mem: Map<int, u8>,
    book: Book,
    p: int,
    n: int,
    q: int,
    m: int,
)
    requires
        h.ok(map, mem, book),
        h.initialized,
        book_ok(map, mem, book),
        allocated(h, map, book, p, n),
        allocated(h, map, book, q, m),
        p != q,
    ensures
        p + n <= q || q + m <= p,
{
    let a = lemma_allocation_home(h, map, mem, book, p, n);
    let b = lemma_allocation_home(h, map, mem, book, q, m);
    if a == b {
        let home = map.to_virt[a];
        // Large blocks and slabs are different blocks, so both are objects of
        // one slab.
        lemma_allocation_kind(h, map, mem, book, p, n, a);
        lemma_allocation_kind(h, map, mem, book, q, m, a);
        if !h.large.contains(home) {
            let i = choose|i: int|
                0 <= i < CLASS_COUNT && h.active[i] && #[trigger] h.caches[i].lives(home, p) && n
                    == h.caches[i].layout.object_size;
            let j = choose|j: int|
                0 <= j < CLASS_COUNT && h.active[j] && #[trigger] h.caches[j].lives(home, q) && m
                    == h.caches[j].layout.object_size;
            assert(h.has_slab(i, home));
            assert(h.has_slab(j, home));
            lemma_grid_apart(h.caches[i].layout, home, p, q);
        }
    }
}

/// An allocation is the one in its large block, or an object of its slab.
proof fn lemma_allocation_kind(h: HeapView, map: Mapping, mem: Map<int, u8>, book: Book, ptr: int, n: int, home: int)
    requires
        h.ok(map, mem, book),
        h.initialized,
        book_ok(map, mem, book),
        allocated(h, map, book, ptr, n),
        book.blocks.dom().contains(home),
        map.to_virt[home] < ptr,
        ptr + n <= map.to_virt[home] + block_bytes(book.page_size as int, book.blocks[home]),
    ensures
        h.large.contains(map.to_virt[home]) ==> ptr == map.to_virt[home] + LARGE_TAG_SIZE,
        !h.large.contains(map.to_virt[home]) ==> exists|i: int|
            0 <= i < CLASS_COUNT && h.active[i] && #[trigger] h.caches[i].lives(map.to_virt[home], ptr) && n
                == h.caches[i].layout.object_size,
{
    assert(0 < n) by {
        lemma_allocation_home(h, map, mem, book, ptr, n);
    }
    if h.large.contains(ptr - LARGE_TAG_SIZE) && n == block_bytes(
        h.page_size as int,
        book.blocks[map.to_phys[ptr - LARGE_TAG_SIZE]],
    ) - LARGE_TAG_SIZE {
        let b = ptr - LARGE_TAG_SIZE;
        let a = map.to_phys[b];
    } else {
        let (i, b) = choose|i: int, b: int|
            0 <= i < CLASS_COUNT && h.active[i] && #[trigger] h.caches[i].lives(b, ptr) && n
                == h.caches[i].layout.object_size;
        let v = h.caches[i];
        lemma_grid_bounds(v.layout, b, ptr);
        let a = map.to_phys[b];
        assert(h.has_slab(i, b));
    }
}

/// Writing to an allocation leaves the heap consistent and every other
/// allocation alone.
pub proof fn writing_an_allocation(
    h: HeapView,
    map: Mapping,
    old_mem: Map<int, u8>,
    mem: Map<int, u8>,
    book: Book,
    ptr: int,
    n: int,
    q: int,
    k: int,
)
    requires
        h.ok(map, old_mem, book),
        h.initialized,
        book_ok(map, old_mem, book),
        book_ok(map, mem, book),
        allocated(h, map, book, ptr, n),
        ptr <= q,
        q + k <= ptr + n,
        same_but(old_mem, mem, q, k),
    ensures
        h.ok(map, mem, book),
        forall|p: int, m: int| #[trigger] allocated(h, map, book, p, m) && p != ptr ==> same_bytes(old_mem, mem, p, m),
{
    let home = lemma_allocation_home(h, map, old_mem, book, ptr, n);
    let virt = map.to_virt[home];
    lemma_allocation_kind(h, map, old_mem, book, ptr, n, home);
    assert forall|p: int, m: int| #[trigger] allocated(h, map, book, p, m) && p != ptr implies same_bytes(
        old_mem,
        mem,
        p,
        m,
    ) by {
        allocations_are_apart(h, map, old_mem, book, ptr, n, p, m);
    }
    if h.large.contains(virt) {
        let gone = Map::<int, Slab>::empty().insert(virt, arbitrary());
        assert(rest_kept(map, book, book, old_mem, mem, gone)) by {
            assert forall|a: int, p: int| #![trigger book.blocks.dom().contains(a), mem[p]]
                book.blocks.dom().contains(a) && !gone.dom().contains(map.to_virt[a]) && map.to_virt[a] <= p
                    < map.to_virt[a] + block_bytes(book.page_size as int, book.blocks[a])
                    implies mem[p] == old_mem[p] by {}
        }
        assert forall|i: int| 0 <= i < CLASS_COUNT implies (#[trigger] h.caches[i]).ok(map, mem, book) by {
            assert forall|c: int| #[trigger] h.caches[i].slabs.dom().contains(c) implies !gone.dom().contains(c) by {
                assert(h.has_slab(i, c));
            }
            lemma_cache_untouched(h.caches[i], map, book, book, old_mem, mem, gone);
        }
        assert forall|c: int| #[trigger] h.large.contains(c) implies large_ok(map, mem, book, c) by {
            if c != virt {
                lemma_large_untouched(map, book, book, old_mem, mem, gone, c);
            } else {
                lemma_number_same(old_mem, mem, c, 4);
            }
        }
    } else {
        let i = choose|i: int|
            0 <= i < CLASS_COUNT && h.active[i] && #[trigger] h.caches[i].lives(virt, ptr) && n
                == h.caches[i].layout.object_size;
        let v = h.caches[i];
        writing_a_live_object(v, map, old_mem, mem, book, virt, ptr, q, k);
        lemma_grid_bounds(v.layout, virt, ptr);
        lemma_write_in_slab(v, map, book, old_mem, mem, virt, q, k);
        assert forall|b: int| #[trigger] v.slabs.dom().contains(b) implies h.has_slab(i, b) by {}
        lemma_one_cache(h, i, v, map, book, book, old_mem, mem);
        assert(h.with_cache(i, v).caches =~= h.caches);
    }
}

/// The usable size of a new allocation.
pub open spec fn new_size(h: HeapView, map: Mapping, book: Book, route: Route, ptr: int) -> int {
    match route {
        Route::Class(index) => h.caches[index].layout.object_size as int,
        _ => block_bytes(h.page_size as int, book.blocks[map.to_phys[ptr - LARGE_TAG_SIZE]]) - LARGE_TAG_SIZE,
    }
}

/// What an allocation with its usable bytes zeroed results in.
pub open spec fn zeroed_outcome<PA: PageAlloc>(
    old: HeapView,
    new: HeapView,
    old_pages: PA,
    pages: PA,
    heres: Seq<usize>,
    size: int,
    route: Route,
    result: Result<usize, Error>,
) -> bool {
    match result {
        Ok(ptr) => {
            let n = new_size(old, pages.mapping(), pages.book(), route, ptr as int);
            &&& heap_alloc_outcome(
                old,
                new,
                old_pages,
                pages,
                heres,
                size,
                route,
                result,
                Some((ptr as int, n)),
            )
            &&& forall|p: int| ptr <= p < ptr + n ==> #[trigger] pages.mem()[p] == 0
        },
        Err(_) => heap_alloc_outcome(old, new, old_pages, pages, heres, size, route, result, None),
    }
}

/// `n` bytes at `from` have been copied to `to`, and nothing else has changed.
pub open spec fn copied<M: PhysMap>(old_pages: M, pages: M, from: int, to: int, n: int) -> bool {
    &&& pages.mapping() == old_pages.mapping()
    &&& pages.book() == old_pages.book()
    &&& same_but(old_pages.mem(), pages.mem(), to, n)
    &&& forall|i: int| 0 <= i < n ==> #[trigger] pages.mem()[to + i] == old_pages.mem()[from + i]
}

/// The smaller of two numbers.
pub open spec fn least(a: int, b: int) -> int {
    if a <= b {
        a
    } else {
        b
    }
}

/// The allocation at `ptr`, which has `n` usable bytes, is moved: an
/// allocation of `size` bytes is made, which takes `old` to `mid` and results
/// in `fresh`; the bytes are copied; and the allocation at `ptr` is freed.
pub open spec fn moved_outcome<PA: PageAlloc>(
    old: HeapView,
    mid: HeapView,
    new: HeapView,
    old_pages: PA,
    mid_pages: PA,
    full_pages: PA,
    pages: PA,
    heres: Seq<usize>,
    ptr: usize,
    n: int,
    size: int,
    route: Route,
    fresh: Result<usize, Error>,
    result: Result<usize, Error>,
) -> bool {
    &&& heap_alloc_outcome(old, mid, old_pages, mid_pages, heres, size, route, fresh, None)
    &&& mid_pages.inv()
    &&& mid.ok(mid_pages.mapping(), mid_pages.mem(), mid_pages.book())
    &&& match fresh {
        Err(error) => {
            &&& result == Err::<usize, Error>(error)
            &&& new == mid
            &&& pages == mid_pages
        },
        Ok(to) => {
            &&& copied(mid_pages, full_pages, ptr as int, to as int, least(n, size))
            &&& full_pages.inv()
            &&& mid.ok(full_pages.mapping(), full_pages.mem(), full_pages.book())
            &&& heap_may_free(mid, full_pages, heres, ptr as int)
            &&& match result {
                Ok(p) => p == to && heap_free_outcome(mid, new, full_pages, pages, heres, ptr as int, Ok(())),
                Err(error) => heap_free_outcome(mid, new, full_pages, pages, heres, ptr as int, Err(error)),
            }
        },
    }
}

/// What resizing the allocation at `ptr` to `size` bytes results in, while the
/// caches are at `heres`: it stays if it is large enough and `stays` holds,
/// and is moved otherwise. What would be freed as an object of the wrong class
/// is left alone.
pub open spec fn realloc_outcome<PA: PageAlloc>(
    old: HeapView,
    new: HeapView,
    old_pages: PA,
    pages: PA,
    heres: Seq<usize>,
    ptr: usize,
    size: int,
    stays: bool,
    route: Route,
    result: Result<usize, Error>,
) -> bool {
    if !old.initialized {
        &&& result == Err::<usize, Error>(Error::Uninitialized)
        &&& new == old
        &&& pages == old_pages
    } else if size == 0 {
        &&& result == Err::<usize, Error>(Error::InvalidObjectSize)
        &&& new == old
        &&& pages == old_pages
    } else {
        match usable(old, old_pages.mapping(), old_pages.mem(), old_pages.book().max_order, heres, ptr as int) {
            Err(error) => {
                &&& result == Err::<usize, Error>(error)
                &&& new == old
                &&& pages == old_pages
            },
            Ok(n) => if size <= n && stays {
                &&& result == Ok::<usize, Error>(ptr)
                &&& new == old
                &&& pages == old_pages
            } else if mistaken(
                old,
                old_pages.mapping(),
                old_pages.mem(),
                old_pages.book().max_order,
                heres,
                ptr as int,
            ) {
                &&& result == Err::<usize, Error>(Error::InvalidPointer)
                &&& new == old
                &&& pages == old_pages
            } else {
                &&& no_new_stuck(old_pages.book(), pages.book())
                &&& exists|mid: HeapView, mid_pages: PA, full_pages: PA, fresh: Result<usize, Error>|
                    #[trigger] moved_outcome(
                        old,
                        mid,
                        new,
                        old_pages,
                        mid_pages,
                        full_pages,
                        pages,
                        heres,
                        ptr,
                        n,
                        size,
                        route,
                        fresh,
                        result,
                    )
            },
        }
    }
}

/// `ptr` can be handed to the heap to be resized to `size` bytes, where it
/// stays if it is large enough and `stays` holds: its usable size can be asked
/// for, and if it is to be moved, it is an allocation in use.
pub open spec fn may_realloc<M: PhysMap>(
    h: HeapView,
    pages: M,
    heres: Seq<usize>,
    ptr: int,
    size: int,
    stays: bool,
) -> bool {
    h.initialized && size != 0 ==> {
        &&& may_measure(h, pages, heres, ptr)
        &&& usable(h, pages.mapping(), pages.mem(), pages.book().max_order, heres, ptr) matches Ok(n) ==> {
            ||| size <= n && stays
            ||| mistaken(h, pages.mapping(), pages.mem(), pages.book().max_order, heres, ptr)
            ||| allocated(h, pages.mapping(), pages.book(), ptr, n)
        }
    }
}

/// What `class_of` finds is the smallest class that can hold the size.
pub proof fn class_of_is_the_smallest(size: int)
    ensures
        match class_of(size) {
            Some(i) => {
                &&& 0 <= i < CLASS_COUNT
                &&& size <= SIZE_CLASSES@[i]
                &&& forall|j: int| 0 <= j < i ==> #[trigger] SIZE_CLASSES@[j] < size
            },
            None => forall|j: int| 0 <= j < CLASS_COUNT ==> #[trigger] SIZE_CLASSES@[j] < size,
        },
{
    if class_of(size) is Some {
        let any = choose|i: int| 0 <= i < CLASS_COUNT && size <= SIZE_CLASSES@[i];
        let least = lemma_least(size, any);
        assert(0 <= least < CLASS_COUNT && size <= SIZE_CLASSES@[least] && forall|j: int|
            0 <= j < least ==> #[trigger] SIZE_CLASSES@[j] < size);
    }
}

/// Below a class that can hold `size` there is a smallest one that can.
proof fn lemma_least(size: int, any: int) -> (least: int)
    requires
        0 <= any < CLASS_COUNT,
        size <= SIZE_CLASSES@[any],
    ensures
        0 <= least <= any,
        size <= SIZE_CLASSES@[least],
        forall|j: int| 0 <= j < least ==> #[trigger] SIZE_CLASSES@[j] < size,
    decreases any,
{
    if exists|j: int| 0 <= j < any && size <= #[trigger] SIZE_CLASSES@[j] {
        let j = choose|j: int| 0 <= j < any && size <= #[trigger] SIZE_CLASSES@[j];
        lemma_least(size, j)
    } else {
        any
    }
}

/// The route of an allocation leads to something that holds it.
pub proof fn routes_are_ok(h: HeapView, size: int, align: int)
    requires
        0 <= size,
        h.active.len() == CLASS_COUNT,
    ensures
        route_ok(h, size, route(h, size)),
        route_ok(h, size, layout_route(h, size, align)),
{
    class_of_is_the_smallest(size);
    if layout_route(h, size, align) is Class {
        layout_route_is_the_smallest(h, size, align);
    }
}

/// The class that serves a size and an alignment is the smallest one that
/// covers both.
pub proof fn layout_route_is_the_smallest(h: HeapView, size: int, align: int)
    requires
        layout_route(h, size, align) is Class,
    ensures
        ({
            let index = layout_route(h, size, align)->Class_0;
            &&& 0 <= index < CLASS_COUNT
            &&& class_covers(h, index, size, align)
            &&& forall|j: int| 0 <= j < index ==> !#[trigger] class_covers(h, j, size, align)
        }),
{
    let any = choose|i: int| 0 <= i < CLASS_COUNT && class_covers(h, i, size, align);
    let least = lemma_least_cover(h, size, align, any);
    assert(0 <= least < CLASS_COUNT && class_covers(h, least, size, align) && forall|j: int|
        0 <= j < least ==> !#[trigger] class_covers(h, j, size, align));
}

proof fn lemma_least_cover(h: HeapView, size: int, align: int, any: int) -> (least: int)
    requires
        0 <= any < CLASS_COUNT,
        class_covers(h, any, size, align),
    ensures
        0 <= least <= any,
        class_covers(h, least, size, align),
        forall|j: int| 0 <= j < least ==> !#[trigger] class_covers(h, j, size, align),
    decreases any,
{
    if exists|j: int| 0 <= j < any && #[trigger] class_covers(h, j, size, align) {
        let j = choose|j: int| 0 <= j < any && #[trigger] class_covers(h, j, size, align);
        lemma_least_cover(h, size, align, j)
    } else {
        any
    }
}

/// A new allocation is one, with at least the wanted number of usable bytes.
pub proof fn allocation_is_live<PA: PageAlloc>(
    old: HeapView,
    new: HeapView,
    old_pages: PA,
    pages: PA,
    heres: Seq<usize>,
    size: int,
    route: Route,
    ptr: usize,
    except: Option<(int, int)>,
)
    requires
        old_pages.inv(),
        old.ok(old_pages.mapping(), old_pages.mem(), old_pages.book()),
        route_ok(old, size, route),
        heap_alloc_outcome(old, new, old_pages, pages, heres, size, route, Ok(ptr), except),
    ensures
        allocated(
            new,
            pages.mapping(),
            pages.book(),
            ptr as int,
            new_size(old, pages.mapping(), pages.book(), route, ptr as int),
        ),
        size <= new_size(old, pages.mapping(), pages.book(), route, ptr as int),
        new.initialized,
        route matches Route::Class(index) ==> new.caches[index].lives(new.caches[index].current->0, ptr as int),
{
    if let Route::Class(index) = route {
        let v = old.caches[index];
        handed_out_is_live(
            v,
            new.caches[index],
            old_pages.mapping(),
            old_pages.mem(),
            old_pages.book(),
            pages.book(),
            heres[index],
            ptr as int,
        );
    }
}

/// The caches of the classes below `k` have been shrunk, and the others are as
/// they were.
pub open spec fn shrunk_below(old: HeapView, new: HeapView, k: int) -> bool {
    &&& new.initialized == old.initialized
    &&& new.page_size == old.page_size
    &&& new.active == old.active
    &&& new.large == old.large
    &&& new.caches.len() == old.caches.len()
    &&& forall|i: int| 0 <= i < CLASS_COUNT ==> #[trigger] new.caches[i] == (if i < k && old.active[i] {
        old.caches[i].shrunk()
    } else {
        old.caches[i]
    })
}

/// What shrinking a heap results in: all caches are shrunk, or those in front
/// of one that cannot be shrunk as a whole.
pub open spec fn heap_shrink_outcome(
    old: HeapView,
    new: HeapView,
    map: Mapping,
    book: Book,
    result: Result<(), Error>,
) -> bool {
    match result {
        Ok(()) => old.initialized && shrunk_below(old, new, CLASS_COUNT as int),
        Err(error) => if !old.initialized {
            error == Error::Uninitialized && new == old
        } else {
            exists|k: int, mid: HeapView| {
                &&& 0 <= k < CLASS_COUNT
                &&& old.active[k]
                &&& #[trigger] shrunk_below(old, mid, k)
                &&& shrink_outcome(old.caches[k], new.caches[k], map, book, result)
                &&& new == mid.with_cache(k, new.caches[k])
            }
        },
    }
}

/// The page allocator has back the blocks of exactly those slabs that the heap
/// had in the state `old` and has no more in the state `new`.
pub open spec fn heap_returned(map: Mapping, old_book: Book, book: Book, old: HeapView, new: HeapView) -> bool {
    forall|a: int| #![trigger book.blocks.dom().contains(a)] #![trigger old_book.blocks.dom().contains(a)] {
        &&& book.blocks.dom().contains(a) <==> {
            &&& old_book.blocks.dom().contains(a)
            &&& forall|i: int| 0 <= i < CLASS_COUNT && #[trigger] old.has_slab(i, map.to_virt[a]) ==> new.has_slab(
                i,
                map.to_virt[a],
            )
        }
        &&& book.blocks.dom().contains(a) ==> book.blocks[a] == old_book.blocks[a]
    }
}

/// Every allocation stays one and keeps its bytes.
pub open spec fn allocations_kept<M: PhysMap>(old: HeapView, new: HeapView, old_pages: M, pages: M) -> bool {
    forall|q: int, m: int| #[trigger]
        allocated(old, old_pages.mapping(), old_pages.book(), q, m) ==> {
            &&& allocated(new, pages.mapping(), pages.book(), q, m)
            &&& same_bytes(old_pages.mem(), pages.mem(), q, m)
        }
}

/// What destroying a heap results in: the heap is shrunk once more before it
/// is gone. What is allocated keeps its memory and its bytes.
pub open spec fn heap_destroy_outcome<PA: PageAlloc>(
    h: HeapView,
    old_pages: PA,
    pages: PA,
    result: Result<(), Error>,
) -> bool {
    exists|rest: HeapView| {
        &&& #[trigger] heap_shrink_outcome(h, rest, old_pages.mapping(), old_pages.book(), result)
        &&& heap_returned(old_pages.mapping(), old_pages.book(), pages.book(), h, rest)
        &&& allocations_kept(h, rest, old_pages, pages)
    }
}

/// The slabs of all caches.
pub open spec fn all_slabs(h: HeapView) -> Map<int, Slab> {
    Map::new(|b: int| exists|i: int| 0 <= i < CLASS_COUNT && #[trigger] h.has_slab(i, b), |b: int| arbitrary())
}

/// What the validation of the caches of the classes from `from` on reports.
pub open spec fn verdict_from(h: HeapView, map: Mapping, mem: Map<int, u8>, heres: Seq<usize>, from: int) -> Result<
    (),
    Error,
>
    decreases CLASS_COUNT - from,
{
    if from >= CLASS_COUNT {
        Ok(())
    } else if h.active[from] && verdict(h.caches[from], map, mem, heres[from]) is Err {
        verdict(h.caches[from], map, mem, heres[from])
    } else {
        verdict_from(h, map, mem, heres, from + 1)
    }
}

/// What validation reports for a heap whose books say `h`, while the caches
/// are at `heres`: the first error of a cache.
pub open spec fn heap_verdict(h: HeapView, map: Mapping, mem: Map<int, u8>, heres: Seq<usize>) -> Result<(), Error> {
    if !h.initialized {
        Err(Error::Uninitialized)
    } else {
        verdict_from(h, map, mem, heres, 0)
    }
}

/// What validation looks at can be looked at.
pub open spec fn heap_verdict_safe(h: HeapView, map: Mapping, mem: Map<int, u8>, heres: Seq<usize>) -> bool {
    forall|i: int| 0 <= i < CLASS_COUNT && h.active[i] ==> verdict_safe(#[trigger] h.caches[i], map, mem, heres[i])
}

} // verus!
