//! What the requests to a heap come to, said of size classes, objects, blocks
//! and bytes.

use vstd::arithmetic::div_mod::lemma_fundamental_div_mod;
use vstd::arithmetic::div_mod::lemma_mod_multiples_basic;
use vstd::arithmetic::div_mod::lemma_truncate_middle;
use vstd::arithmetic::power2::is_pow2;
use vstd::arithmetic::power2::pow2;
use vstd::prelude::*;

use crate::addresses::lemma_class_aligned;
use crate::addresses::natural_alignments;
use crate::cache::DEFAULT_MIN_PARTIAL;
use crate::cache_facts::allocating_fails_only_without_room;
use crate::cache_facts::allocating_prefers_the_active_slab;
use crate::cache_facts::allocating_uses_one_more_object;
use crate::cache_facts::freeing_uses_one_object_less;
use crate::cache_facts::in_use;
use crate::cache_facts::lemma_in_use_lives;
use crate::cache_facts::objects_in_use_lie_on_the_grid;
use crate::cache_facts::place_of;
use crate::cache_facts::shrinking_fails_only_for_the_page_allocator;
use crate::cache_facts::slabs_go_back_once_min_partial_is_exceeded;
use crate::error::Error;
use crate::header::header_at;
use crate::header::header_bytes;
use crate::header::SLAB_MAGIC;
use crate::heap::fresh_heap;
use crate::heap::CLASS_COUNT;
use crate::heap::LARGE_MAGIC;
use crate::heap::LARGE_TAG_SIZE;
use crate::heap::SIZE_CLASSES;
use crate::heap_laws::accepted_frees_leave_no_allocation;
use crate::heap_laws::allocating_keeps_allocations;
use crate::heap_laws::allocations_can_be_freed;
use crate::heap_laws::lemma_cache_at;
use crate::heap_laws::lemma_object_page;
use crate::heap_laws::lemma_tag_page;
use crate::heap_laws::resizing_keeps_allocations;
use crate::heap_model::allocated;
use crate::heap_model::allocations_kept;
use crate::heap_model::cache_at;
use crate::heap_model::class_align;
use crate::heap_model::class_covers;
use crate::heap_model::class_of;
use crate::heap_model::class_of_is_the_smallest;
use crate::heap_model::class_outcome;
use crate::heap_model::heap_alloc_outcome;
use crate::heap_model::heap_destroy_outcome;
use crate::heap_model::heap_free_outcome;
use crate::heap_model::heap_returned;
use crate::heap_model::heap_shrink_outcome;
use crate::heap_model::in_place;
use crate::heap_model::is_at;
use crate::heap_model::large_order;
use crate::heap_model::large_outcome;
use crate::heap_model::layout_route;
use crate::heap_model::layout_route_is_the_smallest;
use crate::heap_model::least;
use crate::heap_model::lemma_large_page;
use crate::heap_model::lowbit;
use crate::heap_model::mistaken;
use crate::heap_model::moved_outcome;
use crate::heap_model::new_size;
use crate::heap_model::origin;
use crate::heap_model::page_around;
use crate::heap_model::realloc_outcome;
use crate::heap_model::route;
use crate::heap_model::route_ok;
use crate::heap_model::shrunk_below;
use crate::heap_model::too_large;
use crate::heap_model::usable;
use crate::heap_model::zeroed_outcome;
use crate::heap_model::HeapView;
use crate::heap_model::Origin;
use crate::heap_model::Route;
use crate::heap_steps::carried_over;
use crate::heap_steps::lemma_class_align;
use crate::layout::lemma_block_bytes_ordered;
use crate::layout::lemma_pow2_divides;
use crate::layout::lemma_pow2_halves;
use crate::layout::lemma_pow2_positive;
use crate::layout::raised_align;
use crate::layout::round_up;
use crate::layout_facts::layouts_are_refused_only_for_a_reason;
use crate::layout_facts::layouts_hold_as_many_objects_as_fit;
use crate::layout_facts::lemma_room;
use crate::layout_facts::next_multiple;
use crate::layout_facts::rounding_up_gives_the_next_multiple;
use crate::layout_facts::words_and_blocks;
use crate::memory::lemma_word_fits;
use crate::memory::number_at;
use crate::model::CacheView;
use crate::model::Slab;
use crate::outcome::fresh_block;
use crate::outcome::shrink_outcome;
use crate::pages::block_bytes;
use crate::pages::book_ok;
use crate::pages::no_new_stuck;
use crate::pages::Book;
use crate::pages::Mapping;
use crate::pages::PageAlloc;
use crate::pages::PhysMap;

verus! {

/// The size classes ascend: the powers of two from 8 to 8192, and 96 and 192
/// between them.
pub proof fn size_classes_ascend(i: int, j: int)
    requires
        0 <= i < j < CLASS_COUNT,
    ensures
        SIZE_CLASSES@[i] < SIZE_CLASSES@[j],
        SIZE_CLASSES@ == seq![8usize, 16, 32, 64, 96, 128, 192, 256, 512, 1024, 2048, 4096, 8192],
        LARGE_TAG_SIZE == 8,
{
}

/// The class that a size belongs to is the first one that is not smaller.
pub proof fn sizes_belong_to_the_first_class_that_holds_them(size: int, i: int)
    requires
        0 <= i < CLASS_COUNT,
        size <= SIZE_CLASSES@[i],
        forall|j: int| 0 <= j < i ==> #[trigger] SIZE_CLASSES@[j] < size,
    ensures
        class_of(size) == Some(i),
{
    class_of_is_the_smallest(size);
    let found = class_of(size)->0;
    if found < i {
    } else if i < found {
    }
}

/// A size above the last class belongs to none.
pub proof fn sizes_above_every_class_belong_to_none(size: int)
    requires
        SIZE_CLASSES@[CLASS_COUNT - 1] < size,
    ensures
        class_of(size) is None,
{
    class_of_is_the_smallest(size);
    if class_of(size) is Some {
        let found = class_of(size)->0;
        if found < CLASS_COUNT - 1 {
            size_classes_ascend(found, CLASS_COUNT - 1);
        }
    }
}

/// The request was served by the cache of class `i`: with object `place.1` of
/// the slab at `place.0`, which was not in use before; or not at all, where
/// every slab is full and the page allocator has no page for another one.
/// Nothing else in the heap has changed.
pub open spec fn served_by_class<PA: PageAlloc>(
    old: HeapView,
    new: HeapView,
    old_pages: PA,
    pages: PA,
    i: int,
    place: (int, int),
    result: Result<usize, Error>,
) -> bool {
    let v = old.caches[i];
    let w = new.caches[i];
    let full = forall|b: int| #[trigger] v.slabs.dom().contains(b) && !v.slabs[b].lost ==> v.slabs[b].free.len() == 0;
    let refused = old_pages.book().refused;
    &&& v.layout.object_size == SIZE_CLASSES@[i]
    &&& w.layout == v.layout
    &&& result is Err <==> full && refused.dom().contains(0)
    &&& match result {
        Ok(ptr) => {
            &&& ptr == place_of(w, place.0, place.1)
            &&& in_use(w, place.0, place.1)
            &&& !in_use(v, place.0, place.1)
            &&& forall|c: int, j: int|
                (c, j) != place && 0 <= j < v.layout.objects ==> #[trigger] in_use(w, c, j) == in_use(v, c, j)
        },
        Err(error) => error == refused[0] && w.slabs == v.slabs && w.partial == v.partial,
    }
    &&& new.initialized == old.initialized
    &&& new.page_size == old.page_size
    &&& new.active == old.active
    &&& new.large == old.large
    &&& new.caches.len() == old.caches.len()
    &&& forall|j: int| 0 <= j < CLASS_COUNT && j != i ==> #[trigger] new.caches[j] == old.caches[j]
}

/// The request was served by the page allocator: with the address behind the
/// tag of a fresh block of order `order`, the smallest with room for `size`
/// bytes and the tag. It is refused where there is no such order, without
/// asking, and where the page allocator refuses it. Nothing else in the heap
/// has changed.
pub open spec fn served_by_pages<PA: PageAlloc>(
    old: HeapView,
    new: HeapView,
    old_pages: PA,
    pages: PA,
    size: int,
    order: u8,
    result: Result<usize, Error>,
) -> bool {
    let book = old_pages.book();
    let map = old_pages.mapping();
    if size + 8 > usize::MAX || book.page_size * pow2(book.max_order as nat) < size + 8 {
        &&& result == Err::<usize, Error>(Error::OutOfMemory)
        &&& new == old
        &&& pages == old_pages
    } else {
        &&& order <= book.max_order
        &&& size + 8 <= book.page_size * pow2(order as nat)
        &&& order > 0 ==> book.page_size * pow2((order - 1) as nat) < size + 8
        &&& result is Err <==> book.refused.dom().contains(order)
        &&& match result {
            Ok(ptr) => {
                let block = map.to_phys[ptr - 8];
                &&& map.to_virt[block] == ptr - 8
                &&& !book.blocks.dom().contains(block)
                &&& pages.book().blocks == book.blocks.insert(block, order)
                &&& new.large == old.large.insert(ptr - 8)
                &&& new.initialized == old.initialized
                &&& new.page_size == old.page_size
                &&& new.active == old.active
                &&& new.caches == old.caches
            },
            Err(error) => error == book.refused[order] && new == old && pages.book().blocks == book.blocks,
        }
    }
}

/// What is asked of the cache of a class is served by it.
proof fn lemma_class_serves<PA: PageAlloc>(
    old: HeapView,
    new: HeapView,
    old_pages: PA,
    pages: PA,
    heres: Seq<usize>,
    i: int,
    result: Result<usize, Error>,
    except: Option<(int, int)>,
) -> (place: (int, int))
    requires
        old.ok(old_pages.mapping(), old_pages.mem(), old_pages.book()),
        0 <= i < CLASS_COUNT,
        old.active[i],
        class_outcome(old, new, old_pages, pages, heres, i, result, except),
    ensures
        served_by_class(old, new, old_pages, pages, i, place, result),
{
    let v = old.caches[i];
    allocating_fails_only_without_room(v, new.caches[i], old_pages, pages, heres[i], result);
    match result {
        Ok(ptr) => allocating_uses_one_more_object(v, new.caches[i], old_pages, pages, heres[i], ptr),
        Err(_) => (0, 0),
    }
}

/// What is asked of the page allocator is served by it.
proof fn lemma_pages_serve<PA: PageAlloc>(
    old: HeapView,
    new: HeapView,
    old_pages: PA,
    pages: PA,
    size: int,
    result: Result<usize, Error>,
) -> (order: u8)
    requires
        old.ok(old_pages.mapping(), old_pages.mem(), old_pages.book()),
        old.initialized,
        large_outcome(old, new, old_pages, pages, size, result),
    ensures
        served_by_pages(old, new, old_pages, pages, size, order, result),
{
    let book = old_pages.book();
    let ps = book.page_size as int;
    lemma_pow2_positive(ps);
    let last = block_bytes(ps, book.max_order);
    assert(last < size + LARGE_TAG_SIZE ==> too_large(size, ps, book.max_order)) by {
        if last < size + LARGE_TAG_SIZE {
            assert forall|o: u8| o <= book.max_order implies #[trigger] block_bytes(ps, o) < size + LARGE_TAG_SIZE by {
                lemma_block_bytes_ordered(ps, o, book.max_order);
            }
        }
    }
    if size + LARGE_TAG_SIZE > usize::MAX || too_large(size, ps, book.max_order) {
        assert(size + LARGE_TAG_SIZE > usize::MAX || last < size + LARGE_TAG_SIZE);
        0
    } else {
        let order = match result {
            Ok(ptr) => choose|order: u8| {
                &&& #[trigger] large_order(size, ps, order)
                &&& order <= book.max_order
                &&& !book.refused.dom().contains(order)
                &&& fresh_block(old_pages.mapping(), book, pages.book(), order, ptr - LARGE_TAG_SIZE)
                &&& new == old.with_large(ptr - LARGE_TAG_SIZE)
            },
            Err(error) => choose|order: u8| {
                &&& #[trigger] large_order(size, ps, order)
                &&& order <= book.max_order
                &&& book.refused.dom().contains(order)
                &&& error == book.refused[order]
            },
        };
        if order > 0 {
            assert(block_bytes(ps, (order - 1) as u8) < size + LARGE_TAG_SIZE);
        }
        order
    }
}

/// A request is served by the cache of the smallest class that can hold it,
/// where that class has one.
pub proof fn requests_are_served_by_the_smallest_class<PA: PageAlloc>(
    old: HeapView,
    new: HeapView,
    old_pages: PA,
    pages: PA,
    heres: Seq<usize>,
    size: int,
    i: int,
    result: Result<usize, Error>,
    except: Option<(int, int)>,
) -> (place: (int, int))
    requires
        old.ok(old_pages.mapping(), old_pages.mem(), old_pages.book()),
        old.initialized,
        0 < size,
        0 <= i < CLASS_COUNT,
        size <= SIZE_CLASSES@[i],
        forall|j: int| 0 <= j < i ==> #[trigger] SIZE_CLASSES@[j] < size,
        old.active[i],
        heap_alloc_outcome(old, new, old_pages, pages, heres, size, route(old, size), result, except),
    ensures
        served_by_class(old, new, old_pages, pages, i, place, result),
{
    sizes_belong_to_the_first_class_that_holds_them(size, i);
    lemma_class_serves(old, new, old_pages, pages, heres, i, result, except)
}

/// The page allocator is asked where the smallest class that can hold a
/// request has no cache, and where there is no such class.
pub proof fn requests_that_no_cache_holds_are_served_by_pages<PA: PageAlloc>(
    old: HeapView,
    new: HeapView,
    old_pages: PA,
    pages: PA,
    heres: Seq<usize>,
    size: int,
    i: int,
    result: Result<usize, Error>,
    except: Option<(int, int)>,
) -> (order: u8)
    requires
        old.ok(old_pages.mapping(), old_pages.mem(), old_pages.book()),
        old.initialized,
        0 < size,
        0 <= i <= CLASS_COUNT,
        forall|j: int| 0 <= j < i ==> #[trigger] SIZE_CLASSES@[j] < size,
        i < CLASS_COUNT ==> size <= SIZE_CLASSES@[i] && !old.active[i],
        heap_alloc_outcome(old, new, old_pages, pages, heres, size, route(old, size), result, except),
    ensures
        served_by_pages(old, new, old_pages, pages, size, order, result),
{
    if i < CLASS_COUNT {
        sizes_belong_to_the_first_class_that_holds_them(size, i);
    } else {
        assert(SIZE_CLASSES@[CLASS_COUNT - 1] < size);
        sizes_above_every_class_belong_to_none(size);
    }
    lemma_pages_serve(old, new, old_pages, pages, size, result)
}

/// A request for an alignment is served by the first class with a cache whose
/// objects are large enough and aligned enough.
pub proof fn layout_requests_are_served_by_the_first_class_that_fits<PA: PageAlloc>(
    old: HeapView,
    new: HeapView,
    old_pages: PA,
    pages: PA,
    heres: Seq<usize>,
    size: int,
    align: int,
    i: int,
    result: Result<usize, Error>,
    except: Option<(int, int)>,
) -> (place: (int, int))
    requires
        old.ok(old_pages.mapping(), old_pages.mem(), old_pages.book()),
        old.initialized,
        0 < size,
        0 <= i < CLASS_COUNT,
        old.active[i],
        size <= SIZE_CLASSES@[i],
        align <= old.caches[i].layout.align,
        forall|j: int| 0 <= j < i && #[trigger] old.active[j] ==> SIZE_CLASSES@[j] < size || old.caches[j].layout.align < align,
        heap_alloc_outcome(old, new, old_pages, pages, heres, size, layout_route(old, size, align), result, except),
    ensures
        served_by_class(old, new, old_pages, pages, i, place, result),
{
    assert(class_covers(old, i, size, align));
    layout_route_is_the_smallest(old, size, align);
    let found = layout_route(old, size, align)->Class_0;
    if found < i {
        assert(old.active[found]);
    } else if i < found {
    }
    lemma_class_serves(old, new, old_pages, pages, heres, i, result, except)
}

/// Where no class with a cache has objects that are large enough and aligned
/// enough, the page allocator is asked, unless the alignment is more than the
/// 8 bytes of a tag: then the request is refused.
pub proof fn layout_requests_that_no_class_fits<PA: PageAlloc>(
    old: HeapView,
    new: HeapView,
    old_pages: PA,
    pages: PA,
    heres: Seq<usize>,
    size: int,
    align: int,
    result: Result<usize, Error>,
    except: Option<(int, int)>,
) -> (order: u8)
    requires
        old.ok(old_pages.mapping(), old_pages.mem(), old_pages.book()),
        old.initialized,
        0 < size,
        forall|j: int|
            0 <= j < CLASS_COUNT && #[trigger] old.active[j] ==> SIZE_CLASSES@[j] < size || old.caches[j].layout.align < align,
        heap_alloc_outcome(old, new, old_pages, pages, heres, size, layout_route(old, size, align), result, except),
    ensures
        align <= 8 ==> served_by_pages(old, new, old_pages, pages, size, order, result),
        align > 8 ==> result == Err::<usize, Error>(Error::InvalidAlign) && new == old && pages == old_pages,
{
    if layout_route(old, size, align) is Class {
        layout_route_is_the_smallest(old, size, align);
        let found = layout_route(old, size, align)->Class_0;
        assert(old.active[found]);
    }
    if align <= 8 {
        lemma_pages_serve(old, new, old_pages, pages, size, result)
    } else {
        0
    }
}

/// Before initialization every request is refused, and so is one for nothing;
/// both with and without an alignment.
pub proof fn empty_requests_are_refused<PA: PageAlloc>(
    old: HeapView,
    new: HeapView,
    old_pages: PA,
    pages: PA,
    heres: Seq<usize>,
    size: int,
    align: int,
    way: Route,
    result: Result<usize, Error>,
    except: Option<(int, int)>,
)
    requires
        way == route(old, size) || way == layout_route(old, size, align),
        heap_alloc_outcome(old, new, old_pages, pages, heres, size, way, result, except),
        !old.initialized || size == 0,
    ensures
        !old.initialized ==> result == Err::<usize, Error>(Error::Uninitialized),
        old.initialized ==> result == Err::<usize, Error>(Error::InvalidObjectSize),
        new == old,
        pages == old_pages,
{
}

/// The lowest bit of a number is the largest power of two that divides it.
pub proof fn the_lowest_bit_is_the_largest_power_that_divides(n: int)
    requires
        0 < n,
    ensures
        is_pow2(lowbit(n)),
        0 < lowbit(n) <= n,
        n % lowbit(n) == 0,
        n % (2 * lowbit(n)) != 0,
    decreases n,
{
    reveal(is_pow2);
    if n > 1 && n % 2 == 0 {
        let half = n / 2;
        let bit = lowbit(half);
        the_lowest_bit_is_the_largest_power_that_divides(half);
        lemma_truncate_middle(half, 2, bit);
        lemma_truncate_middle(half, 2, 2 * bit);
    }
}

/// What a class hands out is aligned to the largest power of two that divides
/// its size.
pub proof fn classes_have_the_alignment_of_their_size(h: HeapView, map: Mapping, mem: Map<int, u8>, book: Book, i: int)
    requires
        h.ok(map, mem, book),
        0 <= i < CLASS_COUNT,
        h.active[i],
    ensures
        ({
            let align = h.caches[i].layout.align as int;
            let size = SIZE_CLASSES@[i] as int;
            &&& is_pow2(align)
            &&& size % align == 0
            &&& size % (2 * align) != 0
        }),
{
    lemma_class_aligned(h, book, i);
    the_lowest_bit_is_the_largest_power_that_divides(SIZE_CLASSES@[i] as int);
}

/// A zeroed request is served as one that is not, and every usable byte is
/// zero: the bytes of the object, or those of the block behind the tag.
pub proof fn zeroed_requests_give_zeros<PA: PageAlloc>(
    old: HeapView,
    new: HeapView,
    old_pages: PA,
    pages: PA,
    heres: Seq<usize>,
    size: int,
    way: Route,
    result: Result<usize, Error>,
) -> (except: Option<(int, int)>)
    requires
        old.ok(old_pages.mapping(), old_pages.mem(), old_pages.book()),
        old.initialized,
        route_ok(old, size, way),
        zeroed_outcome(old, new, old_pages, pages, heres, size, way, result),
    ensures
        heap_alloc_outcome(old, new, old_pages, pages, heres, size, way, result, except),
        result is Err ==> except is None,
        result matches Ok(ptr) ==> except is Some && (except->0).0 == ptr && match way {
            Route::Class(i) => {
                &&& (except->0).1 == SIZE_CLASSES@[i]
                &&& forall|p: int| ptr <= p < ptr + SIZE_CLASSES@[i] ==> #[trigger] pages.mem()[p] == 0
            },
            _ => {
                let order = pages.book().blocks[pages.mapping().to_phys[ptr - 8]];
                forall|p: int|
                    ptr <= p < ptr - 8 + old.page_size * pow2(order as nat) ==> #[trigger] pages.mem()[p] == 0
            },
        },
{
    match result {
        Ok(ptr) => {
            let n = new_size(old, pages.mapping(), pages.book(), way, ptr as int);
            Some((ptr as int, n))
        },
        Err(_) => None,
    }
}

/// The page around `ptr`: the virtual address that belongs to the physical one
/// rounded down to a page.
pub open spec fn page_with(page_size: int, map: Mapping, ptr: int) -> int {
    map.to_virt[page_size * (map.to_phys[ptr] / page_size)]
}

/// What the first bytes of the page around a pointer say, and what becomes of
/// a pointer that is none of the heap: without a known magic it is invalid;
/// with that of a slab that no cache of the heap owns it belongs to another
/// cache; with that of a large block it is invalid unless it is the address
/// behind the tag of an order that there is.
pub proof fn strangers_are_refused<PA: PageAlloc>(
    old: HeapView,
    new: HeapView,
    old_pages: PA,
    pages: PA,
    heres: Seq<usize>,
    ptr: int,
    freed: Result<(), Error>,
)
    requires
        old.initialized,
        0 < old.page_size,
        heap_free_outcome(old, new, old_pages, pages, heres, ptr, freed),
    ensures
        ({
            let mem = old_pages.mem();
            let page = page_with(old.page_size as int, old_pages.mapping(), ptr);
            let magic = number_at(mem, page, 4);
            let known = exists|i: int|
                0 <= i < CLASS_COUNT && old.active[i] && #[trigger] heres[i] == header_at(mem, page).owner;
            let behind = ptr == page + 8 && mem[page + 4] <= old_pages.book().max_order;
            let measured = usable(old, old_pages.mapping(), mem, old_pages.book().max_order, heres, ptr);
            let gone = freed is Err && new == old && pages == old_pages;
            &&& magic != SLAB_MAGIC && magic != LARGE_MAGIC ==> {
                &&& measured == Err::<int, Error>(Error::InvalidPointer)
                &&& gone && freed == Err::<(), Error>(Error::InvalidPointer)
            }
            &&& magic == SLAB_MAGIC && !known ==> {
                &&& measured == Err::<int, Error>(Error::CrossCacheFree)
                &&& gone && freed == Err::<(), Error>(Error::CrossCacheFree)
            }
            &&& magic == LARGE_MAGIC && !behind ==> {
                &&& measured == Err::<int, Error>(Error::InvalidPointer)
                &&& gone && freed == Err::<(), Error>(Error::InvalidPointer)
            }
            &&& magic == SLAB_MAGIC && known ==> measured is Ok
            &&& magic == LARGE_MAGIC && behind ==> measured == Ok::<int, Error>(
                old.page_size * pow2(mem[page + 4] as nat) - 8,
            )
        }),
{
    let ps = old.page_size as int;
    let phys = old_pages.mapping().to_phys[ptr];
    lemma_fundamental_div_mod(phys, ps);
    let page = page_around(ps, old_pages.mapping(), ptr);
    let owner = header_at(old_pages.mem(), page).owner;
    lemma_cache_at(old, heres, owner);
    if exists|i: int| 0 <= i < CLASS_COUNT && old.active[i] && #[trigger] heres[i] == owner {
        let i = choose|i: int| 0 <= i < CLASS_COUNT && old.active[i] && #[trigger] heres[i] == owner;
        assert(is_at(old, heres, i, owner));
    }
    if let Some(i) = cache_at(old, heres, owner) {
        assert(heres[i] == owner);
    }
}

/// Before initialization nothing can be measured, freed or resized.
pub proof fn nothing_works_before_initialization<PA: PageAlloc>(
    old: HeapView,
    new: HeapView,
    old_pages: PA,
    pages: PA,
    heres: Seq<usize>,
    ptr: usize,
    size: int,
    stays: bool,
    way: Route,
    freed: Result<(), Error>,
    resized: Result<usize, Error>,
)
    requires
        !old.initialized,
    ensures
        usable(old, old_pages.mapping(), old_pages.mem(), old_pages.book().max_order, heres, ptr as int) == Err::<
            int,
            Error,
        >(Error::Uninitialized),
        heap_free_outcome(old, new, old_pages, pages, heres, ptr as int, freed) ==> freed == Err::<(), Error>(
            Error::Uninitialized,
        ) && new == old && pages == old_pages,
        realloc_outcome(old, new, old_pages, pages, heres, ptr, size, stays, way, resized) ==> resized == Err::<
            usize,
            Error,
        >(Error::Uninitialized) && new == old && pages == old_pages,
{
}

/// An object of a class has as many usable bytes as the class says, while the
/// cache is where it grew the slab and no other one is there.
pub proof fn objects_have_the_size_of_their_class<M: PhysMap>(
    h: HeapView,
    pages: M,
    heres: Seq<usize>,
    i: int,
    b: int,
    k: int,
)
    requires
        pages.inv(),
        h.initialized,
        h.ok(pages.mapping(), pages.mem(), pages.book()),
        0 <= i < CLASS_COUNT,
        h.active[i],
        in_use(h.caches[i], b, k),
        h.caches[i].slabs[b].owner == heres[i],
        forall|j: int| 0 <= j < CLASS_COUNT && h.active[j] && j != i ==> #[trigger] heres[j] != heres[i],
    ensures
        ({
            let ptr = place_of(h.caches[i], b, k);
            &&& origin(h, pages.mapping(), pages.mem(), pages.book().max_order, heres, ptr) == Origin::Class(i)
            &&& usable(h, pages.mapping(), pages.mem(), pages.book().max_order, heres, ptr) == Ok::<int, Error>(
                SIZE_CLASSES@[i] as int,
            )
            &&& allocated(h, pages.mapping(), pages.book(), ptr, SIZE_CLASSES@[i] as int)
        }),
{
    let v = h.caches[i];
    let ptr = place_of(v, b, k);
    lemma_word_fits();
    lemma_in_use_lives(v, b, k);
    lemma_object_page(h, pages, i, b, ptr);
    lemma_cache_at(h, heres, heres[i]);
    assert(is_at(h, heres, i, heres[i]));
    if let Some(found) = cache_at(h, heres, heres[i]) {
        if found != i {
            assert(heres[found] != heres[i]);
        }
    }
}

/// A large allocation has as many usable bytes as its block without the tag.
pub proof fn large_allocations_have_the_size_of_their_block<M: PhysMap>(
    h: HeapView,
    pages: M,
    heres: Seq<usize>,
    ptr: int,
    order: u8,
)
    requires
        pages.inv(),
        h.initialized,
        h.ok(pages.mapping(), pages.mem(), pages.book()),
        8 < h.page_size,
        h.large.contains(ptr - 8),
        order == pages.book().blocks[pages.mapping().to_phys[ptr - 8]],
    ensures
        ({
            let n = h.page_size * pow2(order as nat) - 8;
            &&& origin(h, pages.mapping(), pages.mem(), pages.book().max_order, heres, ptr) == Origin::Large(order)
            &&& usable(h, pages.mapping(), pages.mem(), pages.book().max_order, heres, ptr) == Ok::<int, Error>(n)
            &&& allocated(h, pages.mapping(), pages.book(), ptr, n)
            &&& pages.book().blocks.dom().contains(pages.mapping().to_phys[ptr - 8])
            &&& number_at(pages.mem(), ptr - 8, 4) == LARGE_MAGIC
            &&& pages.mem()[ptr - 4] == order
        }),
{
    pages.book_in_order();
    lemma_tag_page(h, pages, ptr);
}

/// An allocation is an object in use, with as many bytes as its class says, or
/// a large block, with as many as it has behind the tag.
pub proof fn allocations_are_objects_or_blocks<M: PhysMap>(h: HeapView, pages: M, ptr: int, n: int) -> (found: (
    int,
    int,
    int,
))
    requires
        pages.inv(),
        h.initialized,
        h.ok(pages.mapping(), pages.mem(), pages.book()),
        allocated(h, pages.mapping(), pages.book(), ptr, n),
    ensures
        ({
            let (i, b, k) = found;
            ||| {
                &&& 0 <= i < CLASS_COUNT
                &&& h.active[i]
                &&& in_use(h.caches[i], b, k)
                &&& ptr == place_of(h.caches[i], b, k)
                &&& n == SIZE_CLASSES@[i]
            }
            ||| {
                &&& h.large.contains(ptr - 8)
                &&& n == h.page_size * pow2(pages.book().blocks[pages.mapping().to_phys[ptr - 8]] as nat) - 8
            }
        }),
{
    let map = pages.mapping();
    let b = ptr - LARGE_TAG_SIZE;
    lemma_word_fits();
    if h.large.contains(b) && n == block_bytes(h.page_size as int, pages.book().blocks[map.to_phys[b]])
        - LARGE_TAG_SIZE {
        (0, 0, 0)
    } else {
        let (i, c) = choose|i: int, c: int|
            0 <= i < CLASS_COUNT && h.active[i] && #[trigger] h.caches[i].lives(c, ptr) && n
                == h.caches[i].layout.object_size;
        let k = objects_in_use_lie_on_the_grid(h.caches[i], c, ptr);
        (i, c, k)
    }
}

/// The smaller of two numbers is one of them, and above neither.
pub proof fn the_smaller_of_two_is_one_of_them(a: int, b: int)
    ensures
        least(a, b) == a || least(a, b) == b,
        least(a, b) <= a,
        least(a, b) <= b,
{
}

/// Resizing keeps the bytes: byte `i` of the new allocation is byte `i` of the
/// old one, for every `i` that lies within the `n` usable bytes of the old one
/// and within the `size` that was asked for.
pub proof fn resizing_keeps_the_first_bytes<PA: PageAlloc>(
    old: HeapView,
    old_pages: PA,
    pages: PA,
    heres: Seq<usize>,
    ptr: usize,
    n: int,
    size: int,
    p: usize,
    i: int,
)
    requires
        old_pages.inv(),
        old.initialized,
        old.ok(old_pages.mapping(), old_pages.mem(), old_pages.book()),
        8 < old.page_size,
        allocated(old, old_pages.mapping(), old_pages.book(), ptr as int, n),
        in_place(old, heres),
        carried_over(old, old_pages, pages, heres, ptr, size, Ok(p)),
        0 <= i,
        i < n,
        i < size,
    ensures
        pages.mem()[p + i] == old_pages.mem()[ptr + i],
{
    allocations_can_be_freed(old, old_pages, heres, ptr as int, n);
    the_smaller_of_two_is_one_of_them(n, size);
}

/// The same wherever the caches are, of the `n` bytes that the heap reports as
/// usable.
pub proof fn resizing_keeps_what_is_usable<PA: PageAlloc>(
    old: HeapView,
    old_pages: PA,
    pages: PA,
    heres: Seq<usize>,
    ptr: usize,
    n: int,
    size: int,
    p: usize,
    i: int,
)
    requires
        usable(old, old_pages.mapping(), old_pages.mem(), old_pages.book().max_order, heres, ptr as int) == Ok::<
            int,
            Error,
        >(n),
        carried_over(old, old_pages, pages, heres, ptr, size, Ok(p)),
        0 <= i,
        i < n,
        i < size,
    ensures
        pages.mem()[p + i] == old_pages.mem()[ptr + i],
{
    the_smaller_of_two_is_one_of_them(n, size);
}

/// Resizing to nothing is refused. An allocation that is large enough and may
/// stay does so, and nothing changes. Any other one is moved.
pub proof fn resizing_stays_where_it_fits<PA: PageAlloc>(
    old: HeapView,
    new: HeapView,
    old_pages: PA,
    pages: PA,
    heres: Seq<usize>,
    ptr: usize,
    n: int,
    size: int,
    stays: bool,
    way: Route,
    result: Result<usize, Error>,
)
    requires
        old_pages.inv(),
        old.initialized,
        old.ok(old_pages.mapping(), old_pages.mem(), old_pages.book()),
        8 < old.page_size,
        allocated(old, old_pages.mapping(), old_pages.book(), ptr as int, n),
        in_place(old, heres),
        0 <= size,
        route_ok(old, size, way),
        realloc_outcome(old, new, old_pages, pages, heres, ptr, size, stays, way, result),
    ensures
        size == 0 ==> result == Err::<usize, Error>(Error::InvalidObjectSize) && new == old && pages == old_pages,
        0 < size && size <= n && stays ==> result == Ok::<usize, Error>(ptr) && new == old && pages == old_pages,
        0 < size && !(size <= n && stays) ==> result != Ok::<usize, Error>(ptr),
{
    let map = old_pages.mapping();
    allocations_can_be_freed(old, old_pages, heres, ptr as int, n);
    if 0 < size && !(size <= n && stays) && result == Ok::<usize, Error>(ptr) {
        if !mistaken(old, map, old_pages.mem(), old_pages.book().max_order, heres, ptr as int) {
            let (mid, mid_pages, full_pages, fresh) = choose|
                mid: HeapView,
                mid_pages: PA,
                full_pages: PA,
                fresh: Result<usize, Error>,
            |
                #[trigger] moved_outcome(
                    old,
                    mid,
                    new,
                    old_pages,
                    mid_pages,
                    full_pages,
                    pages,
                    heres,
                    ptr,
                    n,
                    size,
                    way,
                    fresh,
                    result,
                );
            allocating_keeps_allocations(
                old,
                mid,
                old_pages,
                mid_pages,
                heres,
                size,
                way,
                fresh,
                None,
                ptr as int,
                n,
            );
        }
    }
}

/// Caches that are in place stay there when something is allocated.
pub proof fn allocating_keeps_caches_in_place<PA: PageAlloc>(
    old: HeapView,
    new: HeapView,
    old_pages: PA,
    pages: PA,
    heres: Seq<usize>,
    size: int,
    way: Route,
    result: Result<usize, Error>,
    except: Option<(int, int)>,
)
    requires
        old.ok(old_pages.mapping(), old_pages.mem(), old_pages.book()),
        route_ok(old, size, way),
        in_place(old, heres),
        heap_alloc_outcome(old, new, old_pages, pages, heres, size, way, result, except),
    ensures
        in_place(new, heres),
{
    if let Route::Class(i) = way {
        let v = old.caches[i];
        let w = new.caches[i];
        if let Ok(ptr) = result {
            allocating_prefers_the_active_slab(v, w, old_pages, pages, heres[i], ptr);
        } else {
            allocating_fails_only_without_room(v, w, old_pages, pages, heres[i], result);
        }
        assert forall|j: int| 0 <= j < CLASS_COUNT implies (#[trigger] new.caches[j]).stayed_at(heres[j]) by {
            assert(old.caches[j].stayed_at(heres[j]));
            if j == i {
                assert forall|b: int| #[trigger] w.slabs.dom().contains(b) implies w.slabs[b].owner == heres[i] by {
                    if v.slabs.dom().contains(b) {
                        assert(v.slabs[b].owner == heres[i]);
                    }
                }
            }
        }
    }
}

/// Moving an allocation leaves none where it was: the new one is elsewhere,
/// and has at least the wanted size. Where there is no room for the new one,
/// the old one stays as it is.
pub proof fn moving_replaces_the_old_allocation<PA: PageAlloc>(
    old: HeapView,
    new: HeapView,
    old_pages: PA,
    pages: PA,
    heres: Seq<usize>,
    ptr: usize,
    n: int,
    size: int,
    stays: bool,
    way: Route,
    result: Result<usize, Error>,
    m: int,
) -> (bytes: int)
    requires
        old_pages.inv(),
        pages.inv(),
        old.initialized,
        old.ok(old_pages.mapping(), old_pages.mem(), old_pages.book()),
        8 < old.page_size,
        allocated(old, old_pages.mapping(), old_pages.book(), ptr as int, n),
        in_place(old, heres),
        0 < size,
        !(size <= n && stays),
        route_ok(old, size, way),
        realloc_outcome(old, new, old_pages, pages, heres, ptr, size, stays, way, result),
    ensures
        result matches Ok(p) ==> {
            &&& p != ptr
            &&& size <= bytes
            &&& allocated(new, pages.mapping(), pages.book(), p as int, bytes)
            &&& !allocated(new, pages.mapping(), pages.book(), ptr as int, m)
        },
        result is Err && old_pages.book().stuck =~= Map::<int, Error>::empty() ==> {
            &&& allocated(new, pages.mapping(), pages.book(), ptr as int, n)
            &&& forall|q: int| ptr <= q < ptr + n ==> #[trigger] pages.mem()[q] == old_pages.mem()[q]
        },
{
    let at = ptr as int;
    allocations_can_be_freed(old, old_pages, heres, at, n);
    let bytes = resizing_keeps_allocations(old, new, old_pages, pages, heres, ptr, size, stays, way, result, at, n);
    lemma_not_mistaken(old, old_pages, heres, at, n);
    let (mid, mid_pages, full_pages, fresh) = choose|
        mid: HeapView,
        mid_pages: PA,
        full_pages: PA,
        fresh: Result<usize, Error>,
    |
        #[trigger] moved_outcome(
            old,
            mid,
            new,
            old_pages,
            mid_pages,
            full_pages,
            pages,
            heres,
            ptr,
            n,
            size,
            way,
            fresh,
            result,
        );
    allocating_keeps_allocations(old, mid, old_pages, mid_pages, heres, size, way, fresh, None, at, n);
    if let Ok(to) = fresh {
        if result is Ok {
            accepted_frees_leave_no_allocation(mid, new, full_pages, pages, heres, at, n, m);
        } else {
            allocating_keeps_caches_in_place(old, mid, old_pages, mid_pages, heres, size, way, fresh, None);
            allocations_can_be_freed(mid, full_pages, heres, at, n);
            lemma_nothing_stuck(old, mid, new, old_pages, mid_pages, full_pages, pages, heres, at, n, result->Err_0);
        }
    }
    bytes
}

/// An allocation is not taken for one of another class while the caches are in
/// place.
pub proof fn lemma_not_mistaken<M: PhysMap>(h: HeapView, pages: M, heres: Seq<usize>, ptr: int, n: int)
    requires
        pages.inv(),
        h.initialized,
        h.ok(pages.mapping(), pages.mem(), pages.book()),
        8 < h.page_size,
        allocated(h, pages.mapping(), pages.book(), ptr, n),
        in_place(h, heres),
    ensures
        !mistaken(h, pages.mapping(), pages.mem(), pages.book().max_order, heres, ptr),
{
    let (i, b, k) = allocations_are_objects_or_blocks(h, pages, ptr, n);
    if h.large.contains(ptr - 8) {
        large_allocations_have_the_size_of_their_block(
            h,
            pages,
            heres,
            ptr,
            pages.book().blocks[pages.mapping().to_phys[ptr - 8]],
        );
    } else {
        lemma_word_fits();
        lemma_in_use_lives(h.caches[i], b, k);
        lemma_object_page(h, pages, i, b, ptr);
        objects_have_the_size_of_their_class(h, pages, heres, i, b, k);
    }
}

/// Freeing what was allocated before a move does not fail, where the page
/// allocator took back every block before.
proof fn lemma_nothing_stuck<PA: PageAlloc>(
    old: HeapView,
    mid: HeapView,
    new: HeapView,
    old_pages: PA,
    mid_pages: PA,
    full_pages: PA,
    pages: PA,
    heres: Seq<usize>,
    ptr: int,
    n: int,
    error: Error,
)
    requires
        old_pages.inv(),
        full_pages.inv(),
        old.initialized,
        old.ok(old_pages.mapping(), old_pages.mem(), old_pages.book()),
        mid.initialized,
        mid.ok(full_pages.mapping(), full_pages.mem(), full_pages.book()),
        8 < old.page_size,
        mid.page_size == old.page_size,
        allocated(old, old_pages.mapping(), old_pages.book(), ptr, n),
        allocated(mid, full_pages.mapping(), full_pages.book(), ptr, n),
        full_pages.mapping() == old_pages.mapping(),
        full_pages.book() == mid_pages.book(),
        no_new_stuck(old_pages.book(), mid_pages.book()),
        in_place(old, heres),
        in_place(mid, heres),
        heap_free_outcome(mid, new, full_pages, pages, heres, ptr, Err(error)),
    ensures
        !(old_pages.book().stuck =~= Map::<int, Error>::empty()),
{
    let map = old_pages.mapping();
    old_pages.book_in_order();
    full_pages.book_in_order();
    allocations_can_be_freed(mid, full_pages, heres, ptr, n);
    lemma_word_fits();
    let (j, c, l) = allocations_are_objects_or_blocks(old, old_pages, ptr, n);
    let page = page_around(old.page_size as int, map, ptr);
    if old.large.contains(ptr - 8) {
        lemma_tag_page(old, old_pages, ptr);
    } else {
        lemma_in_use_lives(old.caches[j], c, l);
        lemma_object_page(old, old_pages, j, c, ptr);
        assert(old.has_slab(j, c));
    }
    assert(old_pages.book().blocks.dom().contains(map.to_phys[page]));
    let (i, b, k) = allocations_are_objects_or_blocks(mid, full_pages, ptr, n);
    if mid.large.contains(ptr - 8) {
        let order = full_pages.book().blocks[map.to_phys[ptr - 8]];
        large_allocations_have_the_size_of_their_block(mid, full_pages, heres, ptr, order);
        lemma_tag_page(mid, full_pages, ptr);
        lemma_large_page(mid, map, full_pages.mem(), full_pages.book(), ptr);
    } else {
        lemma_in_use_lives(mid.caches[i], b, k);
        lemma_object_page(mid, full_pages, i, b, ptr);
        assert(mid.has_slab(i, b));
        objects_have_the_size_of_their_class(mid, full_pages, heres, i, b, k);
        slabs_go_back_once_min_partial_is_exceeded(
            mid.caches[i],
            new.caches[i],
            full_pages,
            pages,
            heres[i],
            b,
            k,
            Err(error),
        );
    }
}

/// An object goes back to its slab: it is in use no more, and every other
/// object of the heap stays as it is.
pub proof fn freed_objects_go_back_to_their_class<PA: PageAlloc>(
    old: HeapView,
    new: HeapView,
    old_pages: PA,
    pages: PA,
    heres: Seq<usize>,
    i: int,
    b: int,
    k: int,
    result: Result<(), Error>,
)
    requires
        old_pages.inv(),
        old.initialized,
        old.ok(old_pages.mapping(), old_pages.mem(), old_pages.book()),
        0 <= i < CLASS_COUNT,
        old.active[i],
        in_use(old.caches[i], b, k),
        old.caches[i].slabs[b].owner == heres[i],
        forall|j: int| 0 <= j < CLASS_COUNT && old.active[j] && j != i ==> #[trigger] heres[j] != heres[i],
        heap_free_outcome(old, new, old_pages, pages, heres, place_of(old.caches[i], b, k), result),
    ensures
        result is Err ==> old_pages.book().stuck.dom().contains(old_pages.mapping().to_phys[b]),
        !in_use(new.caches[i], b, k),
        forall|c: int, l: int|
            (c, l) != (b, k) && 0 <= l < old.caches[i].layout.objects && in_use(old.caches[i], c, l) ==> #[trigger] in_use(
                new.caches[i],
                c,
                l,
            ),
        forall|c: int, l: int| #[trigger] in_use(new.caches[i], c, l) ==> in_use(old.caches[i], c, l),
        forall|j: int| 0 <= j < CLASS_COUNT && j != i ==> #[trigger] new.caches[j] == old.caches[j],
        new.large == old.large,
        new.active == old.active,
        new.initialized,
        new.page_size == old.page_size,
{
    objects_have_the_size_of_their_class(old, old_pages, heres, i, b, k);
    freeing_uses_one_object_less(
        old.caches[i],
        new.caches[i],
        old_pages,
        pages,
        heres[i],
        b,
        k,
        result,
    );
    slabs_go_back_once_min_partial_is_exceeded(
        old.caches[i],
        new.caches[i],
        old_pages,
        pages,
        heres[i],
        b,
        k,
        result,
    );
}

/// A large allocation goes back to the page allocator, all of it; unless that
/// does not take it, then it stays.
pub proof fn freed_blocks_go_back_to_the_page_allocator<PA: PageAlloc>(
    old: HeapView,
    new: HeapView,
    old_pages: PA,
    pages: PA,
    heres: Seq<usize>,
    ptr: int,
    result: Result<(), Error>,
)
    requires
        old_pages.inv(),
        old.initialized,
        old.ok(old_pages.mapping(), old_pages.mem(), old_pages.book()),
        8 < old.page_size,
        old.large.contains(ptr - 8),
        heap_free_outcome(old, new, old_pages, pages, heres, ptr, result),
    ensures
        ({
            let book = old_pages.book();
            let block = old_pages.mapping().to_phys[ptr - 8];
            if book.stuck.dom().contains(block) {
                &&& result == Err::<(), Error>(book.stuck[block])
                &&& new == old
                &&& pages.book().blocks == book.blocks
            } else {
                &&& result is Ok
                &&& new.large == old.large.remove(ptr - 8)
                &&& new.caches == old.caches
                &&& new.active == old.active
                &&& new.initialized
                &&& new.page_size == old.page_size
                &&& pages.book().blocks == book.blocks.remove(block)
            }
        }),
{
    let order = old_pages.book().blocks[old_pages.mapping().to_phys[ptr - 8]];
    large_allocations_have_the_size_of_their_block(old, old_pages, heres, ptr, order);
    old_pages.book_in_order();
    lemma_tag_page(old, old_pages, ptr);
    lemma_large_page(old, old_pages.mapping(), old_pages.mem(), old_pages.book(), ptr);
}

/// Two powers of two that both divide a number, while their doubles do not,
/// are the same.
proof fn lemma_same_power(n: int, a: int, b: int)
    requires
        is_pow2(a),
        is_pow2(b),
        0 < a < b,
        n % b == 0,
    ensures
        n % (2 * a) == 0,
{
    assert(2 * a <= b) by {
        lemma_pow2_halves(a, b);
    }
    assert(is_pow2(2 * a)) by {
        reveal(is_pow2);
    }
    lemma_pow2_divides(2 * a, b);
    lemma_fundamental_div_mod(n, b);
    lemma_fundamental_div_mod(b, 2 * a);
    let r = b / (2 * a);
    let q = n / b;
    assert(n == (r * q) * (2 * a)) by (nonlinear_arith)
        requires
            n == b * q,
            b == (2 * a) * r,
    ;
    lemma_mod_multiples_basic(r * q, 2 * a);
}

/// A heap that has just been initialized has a cache for exactly those classes
/// whose objects, aligned to the largest power of two `align` that divides
/// their size, fit a page behind the header; none of them has a slab, and
/// nothing is allocated. `first` is where the first object would be.
pub proof fn fresh_heaps_have_a_cache_for_what_fits_a_page(h: HeapView, book: Book, i: int, align: int, first: int)
    requires
        fresh_heap(h, book),
        is_pow2(book.page_size as int),
        8 <= book.page_size,
        0 <= i < CLASS_COUNT,
        is_pow2(align),
        SIZE_CLASSES@[i] as int % align == 0,
        SIZE_CLASSES@[i] as int % (2 * align) != 0,
        next_multiple(header_bytes(), align, first),
    ensures
        h.initialized,
        h.page_size == book.page_size,
        h.large == Set::<int>::empty(),
        h.active.len() == CLASS_COUNT,
        h.active[i] <==> book.max_order < usize::BITS && first + SIZE_CLASSES@[i] <= book.page_size,
        h.caches[i].slabs == Map::<int, Slab>::empty(),
        h.caches[i].current is None,
        h.caches[i].partial == Seq::<int>::empty(),
        h.caches[i].min_partial == DEFAULT_MIN_PARTIAL,
        !h.active[i] ==> h.caches[i].layout.slab_bytes == 0,
        h.active[i] ==> {
            let layout = h.caches[i].layout;
            &&& layout.object_size == SIZE_CLASSES@[i]
            &&& layout.stride == SIZE_CLASSES@[i]
            &&& layout.align == align
            &&& layout.first_offset == first
            &&& layout.order == 0
            &&& layout.slab_bytes == book.page_size
            &&& first + layout.objects * SIZE_CLASSES@[i] <= book.page_size
            &&& book.page_size < first + (layout.objects + 1) * SIZE_CLASSES@[i]
        },
{
    let size = SIZE_CLASSES@[i] as int;
    let ps = book.page_size as int;
    lemma_word_fits();
    natural_alignments();
    the_lowest_bit_is_the_largest_power_that_divides(size);
    lemma_pow2_positive(align);
    if align < lowbit(size) {
        lemma_same_power(size, align, lowbit(size));
    } else if lowbit(size) < align {
        lemma_same_power(size, lowbit(size), align);
    }
    assert(8 <= align <= size);
    let a = class_align(size, ps);
    lemma_class_align(size, ps);
    let raised = raised_align(a);
    assert(block_bytes(ps, 0) == ps) by {
        words_and_blocks(ps, 0);
    }
    rounding_up_gives_the_next_multiple(header_bytes(), align, first);
    rounding_up_gives_the_next_multiple(size, align, size);
    if align <= ps {
        assert(raised == align);
        layouts_are_refused_only_for_a_reason(
            header_bytes(),
            size,
            align,
            ps,
            book.max_order,
            align,
            first,
            size,
        );
        lemma_room(ps, first, size, 1, 0);
        if book.max_order < usize::BITS && first + size <= ps {
            assert(block_bytes(ps, 0) <= usize::MAX);
        }
    } else {
        rounding_up_gives_the_next_multiple(header_bytes(), raised, 0);
        rounding_up_gives_the_next_multiple(size, raised, 0);
        lemma_room(ps, round_up(header_bytes(), raised), round_up(size, raised), 1, 0);
    }
    if h.active[i] {
        layouts_hold_as_many_objects_as_fit(
            h.caches[i].layout,
            header_bytes(),
            size,
            a,
            ps,
            book.max_order,
            1,
        );
    }
}

/// Shrinking a heap keeps exactly the slabs with objects in use, and those
/// that were given up, as they are; and every large allocation.
pub proof fn shrinking_a_heap_keeps_exactly_what_is_in_use(
    old: HeapView,
    new: HeapView,
    map: Mapping,
    mem: Map<int, u8>,
    old_book: Book,
    book: Book,
    i: int,
    b: int,
)
    requires
        old.ok(map, mem, old_book),
        book_ok(map, mem, old_book),
        heap_shrink_outcome(old, new, map, old_book, Ok(())),
        heap_returned(map, old_book, book, old, new),
        0 <= i < CLASS_COUNT,
    ensures
        ({
            let v = old.caches[i];
            let w = new.caches[i];
            &&& old.initialized
            &&& new.large == old.large
            &&& new.active == old.active
            &&& w.layout == v.layout
            &&& w.slabs.dom().contains(b) <==> v.slabs.dom().contains(b) && (v.slabs[b].lost || v.slabs[b].free.len()
                < v.layout.objects)
            &&& w.slabs.dom().contains(b) ==> w.slabs[b] == v.slabs[b]
            &&& v.slabs.dom().contains(b) ==> (book.blocks.dom().contains(map.to_phys[b]) <==> w.slabs.dom().contains(b))
            &&& old.large.contains(b) ==> book.blocks.dom().contains(map.to_phys[b])
        }),
{
    let v = old.caches[i];
    let w = new.caches[i];
    let a = map.to_phys[b];
    if v.slabs.dom().contains(b) {
        assert(old.active[i]);
        assert(old.has_slab(i, b));
        assert(old_book.blocks.dom().contains(a) && map.to_virt[a] == b);
        assert forall|j: int| 0 <= j < CLASS_COUNT && #[trigger] old.has_slab(j, b) implies j == i by {}
        assert(new.has_slab(i, b) == w.slabs.dom().contains(b));
        lemma_idle_slabs_go(v, map, mem, old_book, b);
    }
    if old.large.contains(b) {
        assert(old_book.blocks.dom().contains(a) && map.to_virt[a] == b);
        assert forall|j: int| 0 <= j < CLASS_COUNT implies !#[trigger] old.has_slab(j, b) by {}
    }
}

/// What shrinking does to one slab.
proof fn lemma_idle_slabs_go(v: CacheView, map: Mapping, mem: Map<int, u8>, book: Book, b: int)
    requires
        v.ok(map, mem, book),
        v.initialized(),
        v.slabs.dom().contains(b),
    ensures
        v.shrunk().slabs.dom().contains(b) <==> v.slabs[b].lost || v.slabs[b].free.len() < v.layout.objects,
        v.shrunk().slabs.dom().contains(b) ==> v.shrunk().slabs[b] == v.slabs[b],
{
    assert(v.partial.take(v.partial.len() as int) =~= v.partial);
}

/// Shrinking a heap fails before initialization, and where the page allocator
/// does not take back a slab without objects in use, with its error. The
/// classes behind that of the slab stay as they are.
pub proof fn shrinking_a_heap_fails_only_for_the_page_allocator(
    old: HeapView,
    new: HeapView,
    map: Mapping,
    mem: Map<int, u8>,
    book: Book,
    error: Error,
) -> (found: (int, int))
    requires
        old.ok(map, mem, book),
        heap_shrink_outcome(old, new, map, book, Err(error)),
    ensures
        !old.initialized ==> error == Error::Uninitialized && new == old,
        old.initialized ==> {
            let (k, b) = found;
            let v = old.caches[k];
            &&& 0 <= k < CLASS_COUNT
            &&& old.active[k]
            &&& v.slabs.dom().contains(b)
            &&& v.slabs[b].free.len() == v.layout.objects
            &&& book.stuck.dom().contains(map.to_phys[b])
            &&& error == book.stuck[map.to_phys[b]]
            &&& new.large == old.large
            &&& new.active == old.active
            &&& forall|j: int| k < j < CLASS_COUNT ==> #[trigger] new.caches[j] == old.caches[j]
        },
{
    if old.initialized {
        let (k, mid) = choose|k: int, mid: HeapView| {
            &&& 0 <= k < CLASS_COUNT
            &&& old.active[k]
            &&& #[trigger] shrunk_below(old, mid, k)
            &&& shrink_outcome(old.caches[k], new.caches[k], map, book, Err(error))
            &&& new == mid.with_cache(k, new.caches[k])
        };
        let b = shrinking_fails_only_for_the_page_allocator(
            old.caches[k],
            new.caches[k],
            map,
            mem,
            book,
            error,
        );
        (k, b)
    } else {
        (0, 0)
    }
}

/// Destroying a heap gives back the blocks of exactly those slabs that have no
/// object in use and were not given up; what is allocated stays.
pub proof fn destroying_a_heap_gives_back_exactly_the_unused_slabs<PA: PageAlloc>(
    h: HeapView,
    old_pages: PA,
    pages: PA,
    i: int,
    b: int,
)
    requires
        old_pages.inv(),
        h.ok(old_pages.mapping(), old_pages.mem(), old_pages.book()),
        heap_destroy_outcome(h, old_pages, pages, Ok(())),
        0 <= i < CLASS_COUNT,
    ensures
        h.initialized,
        ({
            let v = h.caches[i];
            let unused = !v.slabs[b].lost && v.slabs[b].free.len() == v.layout.objects;
            let block = old_pages.mapping().to_phys[b];
            &&& v.slabs.dom().contains(b) ==> (pages.book().blocks.dom().contains(block) <==> !unused)
            &&& h.large.contains(b) ==> pages.book().blocks.dom().contains(block)
        }),
{
    let map = old_pages.mapping();
    let book = old_pages.book();
    old_pages.book_in_order();
    let rest = choose|rest: HeapView| {
        &&& #[trigger] heap_shrink_outcome(h, rest, map, book, Ok(()))
        &&& heap_returned(map, book, pages.book(), h, rest)
        &&& allocations_kept(h, rest, old_pages, pages)
    };
    shrinking_a_heap_keeps_exactly_what_is_in_use(h, rest, map, old_pages.mem(), book, pages.book(), i, b);
}

} // verus!
