//! How the operations of a heap that go through all caches, or through an
//! allocation and a free, add up.

use vstd::arithmetic::power2::is_pow2;
use vstd::prelude::*;

use crate::error::Error;
use crate::heap::CLASS_COUNT;
use crate::heap::LARGE_TAG_SIZE;
use crate::heap_model::all_slabs;
use crate::heap_model::allocated;
use crate::heap_model::allocations_kept;
use crate::heap_model::class_align;
use crate::heap_model::heap_returned;
use crate::heap_model::large_ok;
use crate::heap_model::least;
use crate::heap_model::lemma_allocation_home;
use crate::heap_model::lemma_cache_untouched;
use crate::heap_model::lemma_large_untouched;
use crate::heap_model::lowbit;
use crate::heap_model::shrunk_below;
use crate::heap_model::usable;
use crate::heap_model::HeapView;
use crate::laws::shrinking_adds_no_slab;
use crate::laws::shrinking_keeps_objects;
use crate::memory::accessible;
use crate::memory::same_but;
use crate::memory::same_bytes;
use crate::model::framed;
use crate::model::lemma_grid_bounds;
use crate::model::lemma_rest_kept_trans;
use crate::model::rest_kept;
use crate::model::returned;
use crate::model::Slab;
use crate::outcome::fresh_block;
use crate::outcome::shrink_outcome;
use crate::pages::block_bytes;
use crate::pages::book_ok;
use crate::pages::kept;
use crate::pages::no_new_stuck;
use crate::pages::Book;
use crate::pages::Mapping;
use crate::pages::PageAlloc;
use crate::pages::PhysMap;

verus! {

/// The alignment of a class is a power of two that fits a page.
pub proof fn lemma_class_align(size: int, page_size: int)
    requires
        0 < size,
        is_pow2(page_size),
    ensures
        is_pow2(lowbit(size)),
        0 < lowbit(size) <= size,
        is_pow2(class_align(size, page_size)),
        0 < class_align(size, page_size) <= size || class_align(size, page_size) == 1,
        class_align(size, page_size) <= page_size,
    decreases size,
{
    reveal(is_pow2);
    if size > 1 && size % 2 == 0 {
        lemma_class_align(size / 2, page_size);
    }
}

/// The bytes of an allocation can be accessed.
pub proof fn lemma_allocation_bytes<M: PhysMap>(h: HeapView, pages: M, ptr: int, n: int)
    requires
        pages.inv(),
        h.initialized,
        h.ok(pages.mapping(), pages.mem(), pages.book()),
        allocated(h, pages.mapping(), pages.book(), ptr, n),
    ensures
        accessible(pages.mem(), ptr, n),
        ptr + n <= usize::MAX,
{
    pages.book_in_order();
    lemma_allocation_home(h, pages.mapping(), pages.mem(), pages.book(), ptr, n);
}

/// One more cache of a heap has been shrunk.
pub proof fn lemma_shrink_step<PA: PageAlloc>(
    h: HeapView,
    mid: HeapView,
    new: HeapView,
    pages0: PA,
    pages1: PA,
    pages: PA,
    i: int,
    result: Result<(), Error>,
)
    requires
        pages0.inv(),
        pages1.inv(),
        h.initialized,
        h.ok(pages0.mapping(), pages0.mem(), pages0.book()),
        mid.ok(pages1.mapping(), pages1.mem(), pages1.book()),
        shrunk_below(h, mid, i),
        0 <= i < CLASS_COUNT,
        mid.active[i],
        pages1.mapping() == pages0.mapping(),
        new == mid.with_cache(i, new.caches[i]),
        shrink_outcome(mid.caches[i], new.caches[i], pages1.mapping(), pages1.book(), result),
        returned(pages1.mapping(), pages1.book(), pages.book(), mid.caches[i], new.caches[i]),
        framed(pages1, pages, mid.caches[i], new.caches[i], None),
        heap_returned(pages0.mapping(), pages0.book(), pages1.book(), h, mid),
        no_new_stuck(pages0.book(), pages1.book()),
        no_new_stuck(pages1.book(), pages.book()),
        allocations_kept(h, mid, pages0, pages1),
        rest_kept(pages0.mapping(), pages0.book(), pages1.book(), pages0.mem(), pages1.mem(), all_slabs(h)),
    ensures
        pages.mapping() == pages0.mapping(),
        rest_kept(pages0.mapping(), pages0.book(), pages.book(), pages0.mem(), pages.mem(), all_slabs(h)),
        heap_returned(pages0.mapping(), pages0.book(), pages.book(), h, new),
        no_new_stuck(pages0.book(), pages.book()),
        allocations_kept(h, new, pages0, pages),
        result is Ok ==> shrunk_below(h, new, i + 1),
        result is Err ==> shrink_outcome(
            h.caches[i],
            new.caches[i],
            pages0.mapping(),
            pages0.book(),
            result,
        ),
{
    let map = pages0.mapping();
    let v = mid.caches[i];
    let w = new.caches[i];
    pages0.book_in_order();
    pages1.book_in_order();
    assert forall|a: int| #[trigger] pages0.book().blocks.dom().contains(a) && v.slabs.dom().contains(map.to_virt[a])
        implies all_slabs(h).dom().contains(map.to_virt[a]) by {
        assert(h.has_slab(i, map.to_virt[a]));
    }
    lemma_rest_kept_trans(
        map,
        pages0.book(),
        pages1.book(),
        pages.book(),
        pages0.mem(),
        pages1.mem(),
        pages.mem(),
        all_slabs(h),
        v.slabs,
    );
    assert forall|q: int, m: int| #[trigger] allocated(mid, map, pages1.book(), q, m) implies allocated(
        new,
        map,
        pages.book(),
        q,
        m,
    ) && same_bytes(pages1.mem(), pages.mem(), q, m) by {
        shrinking_keeps_allocation(mid, new, pages1, pages, i, result, q, m);
    }
    assert forall|q: int, m: int| #[trigger] allocated(h, map, pages0.book(), q, m) implies allocated(
        new,
        map,
        pages.book(),
        q,
        m,
    ) && same_bytes(pages0.mem(), pages.mem(), q, m) by {
        assert forall|p: int| q <= p < q + m implies #[trigger] pages.mem()[p] == pages0.mem()[p] by {}
    }
    let book0 = pages0.book();
    let book1 = pages1.book();
    let book = pages.book();
    assert forall|a: int| #![trigger book.blocks.dom().contains(a)] #![trigger book0.blocks.dom().contains(a)] {
        &&& book.blocks.dom().contains(a) <==> {
            &&& book0.blocks.dom().contains(a)
            &&& forall|j: int| 0 <= j < CLASS_COUNT && #[trigger] h.has_slab(j, map.to_virt[a]) ==> new.has_slab(
                j,
                map.to_virt[a],
            )
        }
        &&& book.blocks.dom().contains(a) ==> book.blocks[a] == book0.blocks[a]
    } by {
        let b = map.to_virt[a];
        assert forall|j: int| 0 <= j < CLASS_COUNT && j != i implies #[trigger] new.has_slab(j, b) == mid.has_slab(j, b) by {}
        if new.has_slab(i, b) {
            shrinking_adds_no_slab(v, w, map, book1, result, b);
        }
        assert(mid.has_slab(i, b) == h.has_slab(i, b));
        if book.blocks.dom().contains(a) {
            assert forall|j: int| 0 <= j < CLASS_COUNT && #[trigger] h.has_slab(j, b) implies new.has_slab(j, b) by {}
        }
        if book0.blocks.dom().contains(a) && (forall|j: int|
            0 <= j < CLASS_COUNT && #[trigger] h.has_slab(j, b) ==> new.has_slab(j, b)) {
            assert forall|j: int| 0 <= j < CLASS_COUNT && #[trigger] h.has_slab(j, b) implies mid.has_slab(j, b) by {}
        }
    }
    assert forall|a: int| #[trigger] book.stuck.dom().contains(a) && book0.blocks.dom().contains(a)
        && book.blocks.dom().contains(a) implies book0.stuck.dom().contains(a) && book.stuck[a] == book0.stuck[a] by {}
    assert forall|b: int| #[trigger] v.slabs.dom().contains(b) && book1.stuck.dom().contains(map.to_phys[b]) implies
        book0.stuck.dom().contains(map.to_phys[b]) && book1.stuck[map.to_phys[b]] == book0.stuck[map.to_phys[b]] by {}
    if result is Err {
        assert forall|k: int| 0 <= k < v.partial.len() implies v.slabs.dom().contains(#[trigger] v.partial[k]) by {}
        if !(v.current matches Some(c) && v.inuse(c) == 0 && w == v.with_current(None).stranded(c)) {
            let k = choose|k: int| {
                &&& 0 <= k < v.partial.len()
                &&& v.inuse(v.partial[k]) == 0
                &&& book1.stuck.dom().contains(map.to_phys[v.partial[k]])
                &&& result == Err::<(), Error>(book1.stuck[map.to_phys[v.partial[k]]])
                &&& w == #[trigger] v.swept(k).unlinked(v.partial[k]).stranded(v.partial[k])
            };
        }
    }
    assert forall|j: int| 0 <= j < CLASS_COUNT && result is Ok implies #[trigger] new.caches[j] == (if j < i + 1
        && h.active[j] {
        h.caches[j].shrunk()
    } else {
        h.caches[j]
    }) by {}
}

/// An allocation stays one and keeps its bytes when one of the caches is
/// shrunk.
pub proof fn shrinking_keeps_allocation<PA: PageAlloc>(
    old: HeapView,
    new: HeapView,
    old_pages: PA,
    pages: PA,
    i: int,
    result: Result<(), Error>,
    q: int,
    m: int,
)
    requires
        old_pages.inv(),
        old.initialized,
        old.ok(old_pages.mapping(), old_pages.mem(), old_pages.book()),
        0 <= i < CLASS_COUNT,
        old.active[i],
        new == old.with_cache(i, new.caches[i]),
        shrink_outcome(old.caches[i], new.caches[i], old_pages.mapping(), old_pages.book(), result),
        framed(old_pages, pages, old.caches[i], new.caches[i], None),
        allocated(old, old_pages.mapping(), old_pages.book(), q, m),
    ensures
        allocated(new, pages.mapping(), pages.book(), q, m),
        same_bytes(old_pages.mem(), pages.mem(), q, m),
{
    let map = old_pages.mapping();
    let book = old_pages.book();
    old_pages.book_in_order();
    let b = q - LARGE_TAG_SIZE;
    if old.large.contains(b) && m == block_bytes(old.page_size as int, book.blocks[map.to_phys[b]]) - LARGE_TAG_SIZE {
        let home = map.to_phys[b];
        assert(!old.caches[i].slabs.dom().contains(b)) by {
            if old.caches[i].slabs.dom().contains(b) {
                assert(old.has_slab(i, b));
            }
        }
        assert forall|p: int| q <= p < q + m implies #[trigger] pages.mem()[p] == old_pages.mem()[p] by {}
    } else {
        let (j, c) = choose|j: int, c: int|
            0 <= j < CLASS_COUNT && old.active[j] && #[trigger] old.caches[j].lives(c, q) && m
                == old.caches[j].layout.object_size;
        let v = old.caches[j];
        let home = map.to_phys[c];
        lemma_grid_bounds(v.layout, c, q);
        assert(old.has_slab(j, c));
        if i == j {
            shrinking_keeps_objects(v, new.caches[j], map, old_pages.mem(), book, result, c, q);
            assert forall|p: int| q <= p < q + m implies #[trigger] pages.mem()[p] == old_pages.mem()[p] by {}
        } else {
            assert(!old.caches[i].slabs.dom().contains(c)) by {
                if old.caches[i].slabs.dom().contains(c) {
                    assert(old.has_slab(i, c));
                }
            }
            assert forall|p: int| q <= p < q + m implies #[trigger] pages.mem()[p] == old_pages.mem()[p] by {}
        }
    }
}

/// Where an allocation has been resized, the new one starts with the bytes of
/// the old one.
pub open spec fn carried_over<M: PhysMap>(
    old: HeapView,
    old_pages: M,
    pages: M,
    heres: Seq<usize>,
    ptr: usize,
    size: int,
    result: Result<usize, Error>,
) -> bool {
    match (result, usable(old, old_pages.mapping(), old_pages.mem(), old_pages.book().max_order, heres, ptr as int)) {
        (Ok(p), Ok(n)) => forall|q: int|
            p <= q < p + least(n, size) ==> #[trigger] pages.mem()[q] == old_pages.mem()[ptr + (q - p)],
        _ => true,
    }
}

/// What is copied from an allocation that keeps its bytes to one that keeps
/// them afterwards is there in the end.
pub proof fn lemma_carried(
    mem0: Map<int, u8>,
    mem1: Map<int, u8>,
    mem2: Map<int, u8>,
    mem: Map<int, u8>,
    ptr: int,
    n: int,
    to: int,
    m: int,
    count: int,
)
    requires
        same_bytes(mem0, mem1, ptr, n),
        forall|i: int| 0 <= i < count ==> #[trigger] mem2[to + i] == mem1[ptr + i],
        same_bytes(mem2, mem, to, m),
        count <= n,
        count <= m,
    ensures
        forall|q: int| to <= q < to + count ==> #[trigger] mem[q] == mem0[ptr + (q - to)],
{
    assert forall|q: int| to <= q < to + count implies #[trigger] mem[q] == mem0[ptr + (q - to)] by {
        assert(mem2[to + (q - to)] == mem1[ptr + (q - to)]);
    }
}

/// A heap stays as it is while the page allocator keeps its blocks.
pub proof fn lemma_all_kept(
    h: HeapView,
    map: Mapping,
    old_book: Book,
    book: Book,
    old_mem: Map<int, u8>,
    mem: Map<int, u8>,
)
    requires
        h.ok(map, old_mem, old_book),
        book_ok(map, old_mem, old_book),
        mem.dom() == old_mem.dom(),
        book.page_size == old_book.page_size,
        book.max_order == old_book.max_order,
        book.managed == old_book.managed,
        book.blocks == old_book.blocks,
        kept(map, book.page_size as int, old_book.blocks, old_mem, mem),
    ensures
        h.ok(map, mem, book),
        rest_kept(map, old_book, book, old_mem, mem, Map::empty()),
{
    let none = Map::<int, Slab>::empty();
    assert forall|i: int| 0 <= i < CLASS_COUNT implies (#[trigger] h.caches[i]).ok(map, mem, book) by {
        lemma_cache_untouched(h.caches[i], map, old_book, book, old_mem, mem, none);
    }
    assert forall|b: int| #[trigger] h.large.contains(b) implies large_ok(map, mem, book, b) by {
        lemma_large_untouched(map, old_book, book, old_mem, mem, none, b);
    }
}

/// Writing to a fresh block keeps all other blocks.
pub proof fn lemma_fresh_write(
    map: Mapping,
    old_book: Book,
    book: Book,
    mem0: Map<int, u8>,
    mem1: Map<int, u8>,
    mem2: Map<int, u8>,
    order: u8,
    b: int,
    ptr: int,
    n: int,
)
    requires
        book_ok(map, mem2, book),
        fresh_block(map, old_book, book, order, b),
        rest_kept(map, old_book, book, mem0, mem1, Map::empty()),
        b <= ptr,
        ptr + n <= b + block_bytes(book.page_size as int, order),
        same_but(mem1, mem2, ptr, n),
    ensures
        rest_kept(map, old_book, book, mem0, mem2, Map::empty()),
{
    let home = map.to_phys[b];
    assert forall|a: int, p: int| #![trigger old_book.blocks.dom().contains(a), mem2[p]]
        old_book.blocks.dom().contains(a) && map.to_virt[a] <= p < map.to_virt[a] + block_bytes(
            old_book.page_size as int,
            old_book.blocks[a],
        ) implies mem2[p] == mem0[p] by {
        assert(book.blocks.dom().contains(home));
    }
}

/// Handing out a block and writing to it keeps all other blocks.
pub proof fn lemma_fresh_kept(
    map: Mapping,
    old_book: Book,
    book: Book,
    mem0: Map<int, u8>,
    mem1: Map<int, u8>,
    mem2: Map<int, u8>,
    order: u8,
    b: int,
)
    requires
        book_ok(map, mem2, book),
        fresh_block(map, old_book, book, order, b),
        book.page_size == old_book.page_size,
        book.max_order == old_book.max_order,
        book.managed == old_book.managed,
        mem1.dom() == mem0.dom(),
        kept(map, book.page_size as int, old_book.blocks, mem0, mem1),
        same_but(mem1, mem2, b, LARGE_TAG_SIZE as int),
        LARGE_TAG_SIZE <= block_bytes(book.page_size as int, order),
    ensures
        rest_kept(map, old_book, book, mem0, mem2, Map::empty()),
{
    let home = map.to_phys[b];
    assert forall|a: int, p: int| #![trigger old_book.blocks.dom().contains(a), mem2[p]]
        old_book.blocks.dom().contains(a) && map.to_virt[a] <= p < map.to_virt[a] + block_bytes(
            old_book.page_size as int,
            old_book.blocks[a],
        ) implies mem2[p] == mem0[p] by {
        assert(book.blocks.dom().contains(a));
        assert(book.blocks.dom().contains(home));
    }
}

} // verus!
