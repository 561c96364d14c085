//! What holds of a kernel heap across calls.

use vstd::arithmetic::div_mod::lemma_fundamental_div_mod;
use vstd::arithmetic::div_mod::lemma_fundamental_div_mod_converse;
use vstd::arithmetic::power2::lemma2_to64;
use vstd::arithmetic::power2::pow2;
use vstd::prelude::*;
use vstd::set_lib::lemma_set_empty_equivalency_len;

use crate::error::Error;
use crate::header::header_at;
use crate::header::SLAB_MAGIC;
use crate::heap::CLASS_COUNT;
use crate::heap::LARGE_TAG_SIZE;
use crate::heap_model::allocated;
use crate::heap_model::allocation_is_live;
use crate::heap_model::allocations_are_apart;
use crate::heap_model::allocations_kept;
use crate::heap_model::cache_at;
use crate::heap_model::heap_alloc_outcome;
use crate::heap_model::heap_destroy_outcome;
use crate::heap_model::heap_free_outcome;
use crate::heap_model::heap_may_free;
use crate::heap_model::heap_returned;
use crate::heap_model::heap_shrink_outcome;
use crate::heap_model::heap_verdict;
use crate::heap_model::heap_verdict_safe;
use crate::heap_model::in_place;
use crate::heap_model::is_at;
use crate::heap_model::lemma_large_page;
use crate::heap_model::lemma_slabs_have_no_tag;
use crate::heap_model::magic_at;
use crate::heap_model::may_realloc;
use crate::heap_model::mistaken;
use crate::heap_model::moved_outcome;
use crate::heap_model::new_size;
use crate::heap_model::origin;
use crate::heap_model::page_around;
use crate::heap_model::realloc_outcome;
use crate::heap_model::route_ok;
use crate::heap_model::taggable;
use crate::heap_model::usable;
use crate::heap_model::verdict_from;
use crate::heap_model::HeapView;
use crate::heap_model::Origin;
use crate::heap_model::Route;
use crate::laws::allocating_keeps_objects;
use crate::laws::consistent_caches_are_valid;
use crate::laws::freed_objects_are_not_in_use;
use crate::laws::freeing_keeps_objects;
use crate::laws::idle;
use crate::laws::live_objects_can_be_freed;
use crate::laws::shrinking_an_idle_cache_releases_everything;
use crate::laws::validation_is_safe;
use crate::memory::lemma_number_bound;
use crate::memory::lemma_word_fits;
use crate::memory::pow256;
use crate::memory::same_bytes;
use crate::model::kind_of;
use crate::model::lemma_grid_bounds;
use crate::model::lemma_slab_region;
use crate::model::CacheView;
use crate::model::Slab;
use crate::objects::lemma_object_address;
use crate::objects::lemma_used_header;
use crate::outcome::rejects;
use crate::outcome::slab_around;
use crate::pages::block_bytes;
use crate::pages::no_new_stuck;
use crate::pages::Book;
use crate::pages::Mapping;
use crate::pages::PageAlloc;
use crate::pages::PhysMap;
use crate::verdict::verdict_safe;

verus! {

/// An allocation stays one and keeps its bytes when another one is made.
pub proof fn allocating_keeps_allocations<PA: PageAlloc>(
    old: HeapView,
    new: HeapView,
    old_pages: PA,
    pages: PA,
    heres: Seq<usize>,
    size: int,
    route: Route,
    result: Result<usize, Error>,
    except: Option<(int, int)>,
    q: int,
    m: int,
)
    requires
        old_pages.inv(),
        pages.inv(),
        old.initialized,
        old.ok(old_pages.mapping(), old_pages.mem(), old_pages.book()),
        new.ok(pages.mapping(), pages.mem(), pages.book()),
        route_ok(old, size, route),
        heap_alloc_outcome(old, new, old_pages, pages, heres, size, route, result, except),
        except matches Some((p, n)) ==> result == Ok::<usize, Error>(p as usize) && 0 <= p <= usize::MAX && (
        route matches Route::Class(i) ==> n == old.caches[i].layout.object_size),
        allocated(old, old_pages.mapping(), old_pages.book(), q, m),
    ensures
        allocated(new, pages.mapping(), pages.book(), q, m),
        same_bytes(old_pages.mem(), pages.mem(), q, m),
        result matches Ok(ptr) ==> ptr != q,
{
    let map = old_pages.mapping();
    old_pages.book_in_order();
    pages.book_in_order();
    let b = q - LARGE_TAG_SIZE;
    if old.large.contains(b) && m == block_bytes(old.page_size as int, old_pages.book().blocks[map.to_phys[b]])
        - LARGE_TAG_SIZE {
        if let Route::Class(i) = route {
            assert(!old.caches[i].slabs.dom().contains(b)) by {
                if old.caches[i].slabs.dom().contains(b) {
                    assert(old.has_slab(i, b));
                }
            }
        }
        if result is Ok {
            let ptr = result->Ok_0;
            allocation_is_live(old, new, old_pages, pages, heres, size, route, ptr, except);
            if ptr == q {
                if let Route::Class(i) = route {
                    lemma_not_both(new, pages, q, i);
                }
            }
        }
        assert forall|p: int| q <= p < q + m implies #[trigger] pages.mem()[p] == old_pages.mem()[p] by {}
    } else {
        let (j, c) = choose|j: int, c: int|
            0 <= j < CLASS_COUNT && old.active[j] && #[trigger] old.caches[j].lives(c, q) && m
                == old.caches[j].layout.object_size;
        let v = old.caches[j];
        lemma_grid_bounds(v.layout, c, q);
        assert(old.has_slab(j, c));
        let same = route matches Route::Class(i) && i == j;
        if same {
            allocating_keeps_objects(v, new.caches[j], old_pages, pages, heres[j], result, except, c, q);
        } else {
            if let Route::Class(i) = route {
                assert(!old.caches[i].slabs.dom().contains(c)) by {
                    if old.caches[i].slabs.dom().contains(c) {
                        assert(old.has_slab(i, c));
                    }
                }
            }
            assert forall|p: int| q <= p < q + m implies #[trigger] pages.mem()[p] == old_pages.mem()[p] by {}
        }
        if result is Ok {
            let ptr = result->Ok_0;
            if !same && ptr == q {
                allocation_is_live(old, new, old_pages, pages, heres, size, route, ptr, except);
                if let Route::Class(i) = route {
                    lemma_one_class(new, pages, q, i, j, c);
                } else {
                    lemma_not_both(new, pages, q, j);
                }
            }
        }
    }
}

/// An address is not both an object and a large allocation.
proof fn lemma_not_both<M: PhysMap>(h: HeapView, pages: M, q: int, j: int)
    requires
        pages.inv(),
        h.initialized,
        h.ok(pages.mapping(), pages.mem(), pages.book()),
        h.large.contains(q - LARGE_TAG_SIZE),
        0 <= j < CLASS_COUNT,
        h.active[j],
    ensures
        forall|c: int| !#[trigger] h.caches[j].lives(c, q),
{
    let book = pages.book();
    pages.book_in_order();
    assert forall|c: int| !#[trigger] h.caches[j].lives(c, q) by {
        if h.caches[j].lives(c, q) {
            let v = h.caches[j];
            lemma_grid_bounds(v.layout, c, q);
            lemma_word_fits();
        }
    }
}

/// An address is an object of one class at most.
proof fn lemma_one_class<M: PhysMap>(h: HeapView, pages: M, q: int, i: int, j: int, c: int)
    requires
        pages.inv(),
        h.initialized,
        h.ok(pages.mapping(), pages.mem(), pages.book()),
        0 <= i < CLASS_COUNT,
        0 <= j < CLASS_COUNT,
        h.active[i],
        h.active[j],
        h.caches[j].lives(c, q),
        i != j,
    ensures
        forall|d: int| !#[trigger] h.caches[i].lives(d, q),
{
    let book = pages.book();
    pages.book_in_order();
    assert forall|d: int| !#[trigger] h.caches[i].lives(d, q) by {
        if h.caches[i].lives(d, q) {
            let v = h.caches[j];
            let w = h.caches[i];
            lemma_grid_bounds(v.layout, c, q);
            lemma_grid_bounds(w.layout, d, q);
            lemma_word_fits();
            assert(h.has_slab(j, c));
            assert(h.has_slab(i, d));
        }
    }
}

/// An allocation stays one and keeps its bytes when another one is freed.
pub proof fn freeing_keeps_allocations<PA: PageAlloc>(
    old: HeapView,
    new: HeapView,
    old_pages: PA,
    pages: PA,
    heres: Seq<usize>,
    ptr: int,
    result: Result<(), Error>,
    q: int,
    m: int,
)
    requires
        old_pages.inv(),
        old.initialized,
        old.ok(old_pages.mapping(), old_pages.mem(), old_pages.book()),
        heap_may_free(old, old_pages, heres, ptr),
        heap_free_outcome(old, new, old_pages, pages, heres, ptr, result),
        allocated(old, old_pages.mapping(), old_pages.book(), q, m),
        q != ptr,
    ensures
        allocated(new, pages.mapping(), pages.book(), q, m),
        same_bytes(old_pages.mem(), pages.mem(), q, m),
{
    let map = old_pages.mapping();
    let book = old_pages.book();
    old_pages.book_in_order();
    let b = q - LARGE_TAG_SIZE;
    let kind = origin(old, map, old_pages.mem(), book.max_order, heres, ptr);
    if let Origin::Class(i) = kind {
        lemma_cache_at(old, heres, header_at(old_pages.mem(), page_around(old.page_size as int, map, ptr)).owner);
    }
    if old.large.contains(b) && m == block_bytes(old.page_size as int, book.blocks[map.to_phys[b]]) - LARGE_TAG_SIZE {
        let home = map.to_phys[b];
        if let Origin::Class(i) = kind {
            assert(!old.caches[i].slabs.dom().contains(b)) by {
                if old.caches[i].slabs.dom().contains(b) {
                    assert(old.has_slab(i, b));
                }
            }
        }
        assert(kind is Foreign || pages.book().blocks.dom().contains(home));
        assert forall|p: int| q <= p < q + m implies #[trigger] pages.mem()[p] == old_pages.mem()[p] by {}
    } else {
        let (j, c) = choose|j: int, c: int|
            0 <= j < CLASS_COUNT && old.active[j] && #[trigger] old.caches[j].lives(c, q) && m
                == old.caches[j].layout.object_size;
        let v = old.caches[j];
        let home = map.to_phys[c];
        lemma_grid_bounds(v.layout, c, q);
        assert(old.has_slab(j, c));
        let same = kind matches Origin::Class(i) && i == j;
        if same {
            freeing_keeps_objects(v, new.caches[j], old_pages, pages, heres[j], ptr, result, c, q);
        } else {
            if let Origin::Class(i) = kind {
                assert(!old.caches[i].slabs.dom().contains(c)) by {
                    if old.caches[i].slabs.dom().contains(c) {
                        assert(old.has_slab(i, c));
                    }
                }
            }
            lemma_slabs_have_no_tag(v, old_pages.mem(), c);
            assert(kind is Large ==> pages.book().blocks.dom().contains(home));
            assert forall|p: int| q <= p < q + m implies #[trigger] pages.mem()[p] == old_pages.mem()[p] by {}
        }
    }
}

/// What `cache_at` finds is the first class whose cache is there.
pub proof fn lemma_cache_at(h: HeapView, heres: Seq<usize>, place: usize)
    ensures
        match cache_at(h, heres, place) {
            Some(i) => is_at(h, heres, i, place) && forall|j: int| 0 <= j < i ==> !#[trigger] is_at(h, heres, j, place),
            None => forall|i: int| !#[trigger] is_at(h, heres, i, place),
        },
{
    if cache_at(h, heres, place) is Some {
        let any = choose|i: int| is_at(h, heres, i, place);
        let first = lemma_first_at(h, heres, place, any);
        assert(is_at(h, heres, first, place) && forall|j: int| 0 <= j < first ==> !#[trigger] is_at(h, heres, j, place));
    }
}

/// Below a class whose cache is at `place` there is a first one.
proof fn lemma_first_at(h: HeapView, heres: Seq<usize>, place: usize, any: int) -> (first: int)
    requires
        is_at(h, heres, any, place),
    ensures
        is_at(h, heres, first, place),
        forall|j: int| 0 <= j < first ==> !#[trigger] is_at(h, heres, j, place),
    decreases any,
{
    if exists|j: int| 0 <= j < any && is_at(h, heres, j, place) {
        let j = choose|j: int| 0 <= j < any && is_at(h, heres, j, place);
        lemma_first_at(h, heres, place, j)
    } else {
        any
    }
}

/// The page around an object is its slab, which its cache owns.
pub proof fn lemma_object_page<M: PhysMap>(h: HeapView, pages: M, j: int, c: int, ptr: int)
    requires
        pages.inv(),
        h.initialized,
        h.ok(pages.mapping(), pages.mem(), pages.book()),
        0 <= j < CLASS_COUNT,
        h.active[j],
        h.caches[j].lives(c, ptr),
    ensures
        page_around(h.page_size as int, pages.mapping(), ptr) == c,
        taggable(h.page_size as int, pages.mapping(), pages.mem(), ptr),
        magic_at(pages.mem(), c) == SLAB_MAGIC,
        header_at(pages.mem(), c).owner == h.caches[j].slabs[c].owner,
        header_at(pages.mem(), c).kind == kind_of(h.caches[j].layout),
        h.caches[j].slabs.dom().len() > 0,
{
    let v = h.caches[j];
    let map = pages.mapping();
    pages.book_in_order();
    live_objects_can_be_freed(v, pages, 0, c, ptr);
    lemma_slab_region(v, map, pages.mem(), pages.book(), c);
    lemma_object_address(v, map, pages.mem(), pages.book(), c, ptr);
    lemma_used_header(v, pages.mem(), c);
    assert(block_bytes(h.page_size as int, 0) == h.page_size) by {
        lemma2_to64();
    }
    lemma_word_fits();
    lemma_number_bound(pages.mem(), c, 4);
    reveal_with_fuel(pow256, 5);
    lemma_set_empty_equivalency_len(v.slabs.dom());
}

/// An allocation on a page with the tag of a large one is a large one.
pub proof fn lemma_large_in_use<M: PhysMap>(h: HeapView, pages: M, ptr: int, n: int)
    requires
        pages.inv(),
        h.initialized,
        h.ok(pages.mapping(), pages.mem(), pages.book()),
        allocated(h, pages.mapping(), pages.book(), ptr, n),
        magic_at(pages.mem(), page_around(h.page_size as int, pages.mapping(), ptr)) != SLAB_MAGIC,
    ensures
        h.large.contains(ptr - LARGE_TAG_SIZE),
{
    if !h.large.contains(ptr - LARGE_TAG_SIZE) {
        let (j, c) = choose|j: int, c: int|
            0 <= j < CLASS_COUNT && h.active[j] && #[trigger] h.caches[j].lives(c, ptr) && n
                == h.caches[j].layout.object_size;
        lemma_object_page(h, pages, j, c, ptr);
    }
}

/// The page before a large allocation is its block, where a page is larger
/// than a tag.
pub proof fn lemma_tag_page<M: PhysMap>(h: HeapView, pages: M, ptr: int)
    requires
        pages.inv(),
        h.initialized,
        h.ok(pages.mapping(), pages.mem(), pages.book()),
        h.large.contains(ptr - LARGE_TAG_SIZE),
        LARGE_TAG_SIZE < h.page_size,
    ensures
        page_around(h.page_size as int, pages.mapping(), ptr) == ptr - LARGE_TAG_SIZE,
        taggable(h.page_size as int, pages.mapping(), pages.mem(), ptr),
{
    let b = ptr - LARGE_TAG_SIZE;
    let map = pages.mapping();
    let book = pages.book();
    let ps = h.page_size as int;
    pages.book_in_order();
    let block = map.to_phys[b];
    let n = pow2(book.blocks[block] as nat) as int;
    let bytes = block_bytes(ps, book.blocks[block]);
    lemma_fundamental_div_mod(block, bytes);
    let q = block / bytes;
    assert(block + LARGE_TAG_SIZE == (n * q) * ps + LARGE_TAG_SIZE) by (nonlinear_arith)
        requires
            block == bytes * q,
            bytes == ps * n,
    ;
    lemma_fundamental_div_mod_converse(
        block + LARGE_TAG_SIZE,
        ps,
        n * q,
        LARGE_TAG_SIZE as int,
    );
}

/// An allocation can be freed and resized wherever the caches are. While they
/// stay in place, its usable size is what it was given and a free is accepted.
pub proof fn allocations_can_be_freed<M: PhysMap>(h: HeapView, pages: M, heres: Seq<usize>, ptr: int, n: int)
    requires
        pages.inv(),
        h.initialized,
        h.ok(pages.mapping(), pages.mem(), pages.book()),
        LARGE_TAG_SIZE < h.page_size,
        allocated(h, pages.mapping(), pages.book(), ptr, n),
    ensures
        heap_may_free(h, pages, heres, ptr),
        forall|size: int, stays: bool| #[trigger] may_realloc(h, pages, heres, ptr, size, stays),
        in_place(h, heres) ==> {
            let kind = origin(h, pages.mapping(), pages.mem(), pages.book().max_order, heres, ptr);
            &&& usable(h, pages.mapping(), pages.mem(), pages.book().max_order, heres, ptr) == Ok::<int, Error>(n)
            &&& !(kind is Foreign)
            &&& kind matches Origin::Class(i) ==> !rejects(h.caches[i], pages, heres[i], ptr)
        },
{
    let map = pages.mapping();
    let book = pages.book();
    let b = ptr - LARGE_TAG_SIZE;
    pages.book_in_order();
    if h.large.contains(b) && n == block_bytes(h.page_size as int, book.blocks[map.to_phys[b]]) - LARGE_TAG_SIZE {
        lemma_tag_page(h, pages, ptr);
    } else {
        let (j, c) = choose|j: int, c: int|
            0 <= j < CLASS_COUNT && h.active[j] && #[trigger] h.caches[j].lives(c, ptr) && n
                == h.caches[j].layout.object_size;
        lemma_object_page(h, pages, j, c, ptr);
        lemma_object_may_be_freed(h, pages, heres, j, c, ptr);
        live_objects_can_be_freed(h.caches[j], pages, heres[j], c, ptr);
        lemma_cache_at(h, heres, h.caches[j].slabs[c].owner);
        if in_place(h, heres) {
            assert(is_at(h, heres, j, h.caches[j].slabs[c].owner));
        }
        if let Some(i) = cache_at(h, heres, h.caches[j].slabs[c].owner) {
            if i != j {
                lemma_class_kinds(h, pages, i, j);
            }
        }
    }
}

/// An object in use can be freed wherever the caches are.
proof fn lemma_object_may_be_freed<M: PhysMap>(h: HeapView, pages: M, heres: Seq<usize>, j: int, c: int, ptr: int)
    requires
        pages.inv(),
        h.initialized,
        h.ok(pages.mapping(), pages.mem(), pages.book()),
        0 <= j < CLASS_COUNT,
        h.active[j],
        h.caches[j].lives(c, ptr),
    ensures
        heap_may_free(h, pages, heres, ptr),
{
    lemma_object_page(h, pages, j, c, ptr);
    live_objects_can_be_freed(h.caches[j], pages, heres[j], c, ptr);
    lemma_cache_at(h, heres, h.caches[j].slabs[c].owner);
    if let Some(i) = cache_at(h, heres, h.caches[j].slabs[c].owner) {
        if i != j {
            lemma_class_kinds(h, pages, i, j);
        }
    }
}

/// An object in use of a cache whose slabs are single pages can be handed to a
/// heap that the cache is no part of, and is rejected as a pointer of another
/// cache.
pub proof fn foreign_objects_are_no_allocations<M: PhysMap>(
    h: HeapView,
    w: CacheView,
    pages: M,
    heres: Seq<usize>,
    b: int,
    ptr: int,
)
    requires
        pages.inv(),
        h.initialized,
        h.ok(pages.mapping(), pages.mem(), pages.book()),
        w.initialized(),
        w.ok(pages.mapping(), pages.mem(), pages.book()),
        w.layout.slab_bytes == h.page_size,
        w.lives(b, ptr),
        forall|i: int| 0 <= i < CLASS_COUNT ==> #[trigger] heres[i] != w.slabs[b].owner,
    ensures
        heap_may_free(h, pages, heres, ptr),
        origin(h, pages.mapping(), pages.mem(), pages.book().max_order, heres, ptr) == Origin::Foreign(
            Error::CrossCacheFree,
        ),
{
    pages.book_in_order();
    live_objects_can_be_freed(w, pages, 0, b, ptr);
    lemma_slab_region(w, pages.mapping(), pages.mem(), pages.book(), b);
    lemma_used_header(w, pages.mem(), b);
    lemma_word_fits();
    lemma_number_bound(pages.mem(), b, 4);
    reveal_with_fuel(pow256, 5);
    lemma_cache_at(h, heres, w.slabs[b].owner);
}

/// What says that it is a large allocation can be freed only once: where the
/// tag outlasts the free, a second one is refused and changes nothing.
pub proof fn large_allocations_are_freed_once<PA: PageAlloc>(
    old: HeapView,
    mid: HeapView,
    new: HeapView,
    old_pages: PA,
    mid_pages: PA,
    pages: PA,
    heres: Seq<usize>,
    ptr: int,
    result: Result<(), Error>,
)
    requires
        old.initialized,
        origin(old, old_pages.mapping(), old_pages.mem(), old_pages.book().max_order, heres, ptr) is Large,
        heap_free_outcome(old, mid, old_pages, mid_pages, heres, ptr, Ok(())),
        taggable(mid.page_size as int, mid_pages.mapping(), mid_pages.mem(), ptr),
        origin(mid, mid_pages.mapping(), mid_pages.mem(), mid_pages.book().max_order, heres, ptr) is Large,
        heap_free_outcome(mid, new, mid_pages, pages, heres, ptr, result),
    ensures
        heap_may_free(mid, mid_pages, heres, ptr),
        result == Err::<(), Error>(mid_pages.book().unknown),
        new == mid,
        pages.book().blocks == mid_pages.book().blocks,
{
}

/// The blocks that are out stay out when an allocation is made.
pub proof fn lemma_blocks_stay_out<PA: PageAlloc>(
    old: HeapView,
    new: HeapView,
    old_pages: PA,
    pages: PA,
    heres: Seq<usize>,
    size: int,
    route: Route,
    result: Result<usize, Error>,
    except: Option<(int, int)>,
)
    requires
        heap_alloc_outcome(old, new, old_pages, pages, heres, size, route, result, except),
    ensures
        old_pages.book().blocks.dom().subset_of(pages.book().blocks.dom()),
        no_new_stuck(old_pages.book(), pages.book()),
{
}

/// An object of a class stays one when an allocation is made.
proof fn lemma_lives_on<PA: PageAlloc>(
    old: HeapView,
    new: HeapView,
    old_pages: PA,
    pages: PA,
    heres: Seq<usize>,
    size: int,
    route: Route,
    result: Result<usize, Error>,
    j: int,
    c: int,
    q: int,
)
    requires
        old_pages.inv(),
        pages.inv(),
        old.initialized,
        old.ok(old_pages.mapping(), old_pages.mem(), old_pages.book()),
        new.ok(pages.mapping(), pages.mem(), pages.book()),
        route_ok(old, size, route),
        heap_alloc_outcome(old, new, old_pages, pages, heres, size, route, result, None),
        0 <= j < CLASS_COUNT,
        old.active[j],
        old.caches[j].lives(c, q),
    ensures
        new.caches[j].lives(c, q),
{
    if route matches Route::Class(i) && i == j {
        allocating_keeps_objects(
            old.caches[j],
            new.caches[j],
            old_pages,
            pages,
            heres[j],
            result,
            None,
            c,
            q,
        );
    }
}

/// An allocation can be freed after another one has been made, and after other
/// allocations have been written to.
pub proof fn lemma_free_later<PA: PageAlloc>(
    old: HeapView,
    mid: HeapView,
    old_pages: PA,
    mid_pages: PA,
    pages: PA,
    heres: Seq<usize>,
    size: int,
    route: Route,
    fresh: Result<usize, Error>,
    ptr: int,
    n: int,
)
    requires
        old_pages.inv(),
        mid_pages.inv(),
        pages.inv(),
        old.initialized,
        old.ok(old_pages.mapping(), old_pages.mem(), old_pages.book()),
        mid.ok(mid_pages.mapping(), mid_pages.mem(), mid_pages.book()),
        mid.ok(pages.mapping(), pages.mem(), pages.book()),
        pages.mapping() == mid_pages.mapping(),
        pages.book() == mid_pages.book(),
        pages.mem().dom() == mid_pages.mem().dom(),
        route_ok(old, size, route),
        heap_alloc_outcome(old, mid, old_pages, mid_pages, heres, size, route, fresh, None),
        allocated(old, old_pages.mapping(), old_pages.book(), ptr, n),
        taggable(old.page_size as int, old_pages.mapping(), old_pages.mem(), ptr),
        usable(old, old_pages.mapping(), old_pages.mem(), old_pages.book().max_order, heres, ptr) == Ok::<int, Error>(n),
    ensures
        heap_may_free(mid, pages, heres, ptr),
{
    let map = old_pages.mapping();
    let book = old_pages.book();
    old_pages.book_in_order();
    mid_pages.book_in_order();
    pages.book_in_order();
    let b = ptr - LARGE_TAG_SIZE;
    let kind = origin(old, map, old_pages.mem(), book.max_order, heres, ptr);
    let page = page_around(old.page_size as int, map, ptr);
    lemma_number_bound(old_pages.mem(), page, 4);
    if let Origin::Large(order) = kind {
        lemma_large_in_use(old, old_pages, ptr, n);
        assert(mid.large.contains(b));
    } else if let Origin::Class(i) = kind {
        lemma_cache_at(old, heres, header_at(old_pages.mem(), page).owner);
        assert(!old.large.contains(b) || page != b);
        let (j, c) = lemma_class_witness(old, old_pages, ptr, n, page);
        lemma_object_page(old, old_pages, j, c, ptr);
        lemma_lives_on(old, mid, old_pages, mid_pages, heres, size, route, fresh, j, c, ptr);
        lemma_object_may_be_freed(mid, pages, heres, j, c, ptr);
    }
}

/// Classes have objects of different kinds, in slabs of one page.
proof fn lemma_class_kinds<M: PhysMap>(h: HeapView, pages: M, i: int, j: int)
    requires
        h.classes_ok(pages.book()),
        0 <= i < CLASS_COUNT,
        0 <= j < CLASS_COUNT,
        h.active[i],
        h.active[j],
        i != j,
    ensures
        kind_of(h.caches[i].layout) != kind_of(h.caches[j].layout),
        h.caches[i].layout.slab_bytes == h.caches[j].layout.slab_bytes,
{
}

/// An allocation on a page that is a slab is an object.
proof fn lemma_class_witness<M: PhysMap>(h: HeapView, pages: M, ptr: int, n: int, page: int) -> (found: (int, int))
    requires
        pages.inv(),
        h.initialized,
        h.ok(pages.mapping(), pages.mem(), pages.book()),
        allocated(h, pages.mapping(), pages.book(), ptr, n),
        page == page_around(h.page_size as int, pages.mapping(), ptr),
        magic_at(pages.mem(), page) == SLAB_MAGIC,
        exists|i: int| 0 <= i < CLASS_COUNT && h.active[i] && n == #[trigger] h.caches[i].layout.object_size,
    ensures
        0 <= found.0 < CLASS_COUNT,
        h.active[found.0],
        h.caches[found.0].lives(found.1, ptr),
        n == h.caches[found.0].layout.object_size,
{
    lemma_no_tag_in_slab(h, pages, ptr, n, page);
    let (j, c) = choose|j: int, c: int|
        0 <= j < CLASS_COUNT && h.active[j] && #[trigger] h.caches[j].lives(c, ptr) && n
            == h.caches[j].layout.object_size;
    (j, c)
}

/// The page around a large allocation is no slab.
proof fn lemma_no_tag_in_slab<M: PhysMap>(h: HeapView, pages: M, ptr: int, n: int, page: int)
    requires
        pages.inv(),
        h.initialized,
        h.ok(pages.mapping(), pages.mem(), pages.book()),
        page == page_around(h.page_size as int, pages.mapping(), ptr),
        magic_at(pages.mem(), page) == SLAB_MAGIC,
        exists|i: int| 0 <= i < CLASS_COUNT && h.active[i] && n == #[trigger] h.caches[i].layout.object_size,
    ensures
        !h.large.contains(ptr - LARGE_TAG_SIZE),
{
    let i = choose|i: int| 0 <= i < CLASS_COUNT && h.active[i] && n == #[trigger] h.caches[i].layout.object_size;
    assert(block_bytes(h.page_size as int, 0) == h.page_size) by {
        lemma2_to64();
    }
    assert(LARGE_TAG_SIZE < h.page_size) by {
        lemma_word_fits();
    }
    if h.large.contains(ptr - LARGE_TAG_SIZE) {
        lemma_tag_page(h, pages, ptr);
    }
}

/// Freeing an allocation succeeds if the page allocator takes back what the
/// heap has from it and the caches are in place, and there is no allocation at that
/// address afterwards.
pub proof fn freed_allocations_are_gone<PA: PageAlloc>(
    old: HeapView,
    new: HeapView,
    old_pages: PA,
    pages: PA,
    heres: Seq<usize>,
    ptr: int,
    n: int,
    result: Result<(), Error>,
    m: int,
)
    requires
        old_pages.inv(),
        old.initialized,
        old.ok(old_pages.mapping(), old_pages.mem(), old_pages.book()),
        LARGE_TAG_SIZE < old.page_size,
        allocated(old, old_pages.mapping(), old_pages.book(), ptr, n),
        in_place(old, heres),
        forall|b: int| #[trigger] old.owns(b) ==> !old_pages.book().stuck.dom().contains(
            old_pages.mapping().to_phys[b],
        ),
        heap_free_outcome(old, new, old_pages, pages, heres, ptr, result),
    ensures
        result is Ok,
        !allocated(new, pages.mapping(), pages.book(), ptr, m),
{
    let map = old_pages.mapping();
    let b = ptr - LARGE_TAG_SIZE;
    allocations_can_be_freed(old, old_pages, heres, ptr, n);
    match origin(old, map, old_pages.mem(), old_pages.book().max_order, heres, ptr) {
        Origin::Class(i) => {
            lemma_cache_at(old, heres, header_at(old_pages.mem(), page_around(old.page_size as int, map, ptr)).owner);
            let v = old.caches[i];
            let slab = slab_around(v.layout, map, ptr);
            assert(old.has_slab(i, slab));
            assert(old.owns(slab));
            if old.large.contains(b) {
                lemma_not_both(old, old_pages, ptr, i);
            }
            assert forall|j: int, c: int| 0 <= j < CLASS_COUNT && new.active[j] implies !#[trigger] new.caches[j].lives(
                c,
                ptr,
            ) by {
                if j == i {
                    freed_objects_are_not_in_use(v, new.caches[i], old_pages, pages, heres[i], ptr, result, c);
                } else {
                    lemma_one_class(old, old_pages, ptr, j, i, slab);
                }
            }
        },
        Origin::Large(_) => {
            lemma_large_in_use(old, old_pages, ptr, n);
            old_pages.book_in_order();
            lemma_large_page(old, map, old_pages.mem(), old_pages.book(), ptr);
            assert(old.owns(b));
            assert forall|j: int, c: int| 0 <= j < CLASS_COUNT && new.active[j] implies !#[trigger] new.caches[j].lives(
                c,
                ptr,
            ) by {
                lemma_not_both(old, old_pages, ptr, j);
            }
        },
        Origin::Foreign(_) => {},
    }
}

/// Where a free has been accepted, there is no allocation at that address any
/// more.
pub proof fn accepted_frees_leave_no_allocation<PA: PageAlloc>(
    old: HeapView,
    new: HeapView,
    old_pages: PA,
    pages: PA,
    heres: Seq<usize>,
    ptr: int,
    n: int,
    m: int,
)
    requires
        old_pages.inv(),
        old.initialized,
        old.ok(old_pages.mapping(), old_pages.mem(), old_pages.book()),
        allocated(old, old_pages.mapping(), old_pages.book(), ptr, n),
        heap_may_free(old, old_pages, heres, ptr),
        heap_free_outcome(old, new, old_pages, pages, heres, ptr, Ok(())),
    ensures
        !allocated(new, pages.mapping(), pages.book(), ptr, m),
{
    let map = old_pages.mapping();
    let b = ptr - LARGE_TAG_SIZE;
    match origin(old, map, old_pages.mem(), old_pages.book().max_order, heres, ptr) {
        Origin::Class(i) => {
            lemma_cache_at(old, heres, header_at(old_pages.mem(), page_around(old.page_size as int, map, ptr)).owner);
            let v = old.caches[i];
            let slab = slab_around(v.layout, map, ptr);
            assert(!rejects(v, old_pages, heres[i], ptr));
            assert(old.has_slab(i, slab));
            if old.large.contains(b) {
                lemma_not_both(old, old_pages, ptr, i);
            }
            assert forall|j: int, c: int| 0 <= j < CLASS_COUNT && new.active[j] implies !#[trigger] new.caches[j].lives(
                c,
                ptr,
            ) by {
                if j == i {
                    freed_objects_are_not_in_use(v, new.caches[i], old_pages, pages, heres[i], ptr, Ok(()), c);
                } else {
                    lemma_one_class(old, old_pages, ptr, j, i, slab);
                }
            }
        },
        Origin::Large(_) => {
            lemma_large_in_use(old, old_pages, ptr, n);
            assert forall|j: int, c: int| 0 <= j < CLASS_COUNT && new.active[j] implies !#[trigger] new.caches[j].lives(
                c,
                ptr,
            ) by {
                lemma_not_both(old, old_pages, ptr, j);
            }
        },
        Origin::Foreign(_) => {},
    }
}

/// Resizing an allocation keeps every other one, with its bytes, and what it
/// results in is an allocation with at least the wanted number of bytes.
pub proof fn resizing_keeps_allocations<PA: PageAlloc>(
    old: HeapView,
    new: HeapView,
    old_pages: PA,
    pages: PA,
    heres: Seq<usize>,
    ptr: usize,
    size: int,
    stays: bool,
    route: Route,
    result: Result<usize, Error>,
    q: int,
    m: int,
) -> (bytes: int)
    requires
        old_pages.inv(),
        0 <= size,
        old.initialized,
        old.ok(old_pages.mapping(), old_pages.mem(), old_pages.book()),
        route_ok(old, size, route),
        usable(old, old_pages.mapping(), old_pages.mem(), old_pages.book().max_order, heres, ptr as int) matches Ok(n)
            ==> allocated(old, old_pages.mapping(), old_pages.book(), ptr as int, n),
        realloc_outcome(old, new, old_pages, pages, heres, ptr, size, stays, route, result),
    ensures
        allocated(old, old_pages.mapping(), old_pages.book(), q, m) && q != ptr ==> {
            &&& allocated(new, pages.mapping(), pages.book(), q, m)
            &&& same_bytes(old_pages.mem(), pages.mem(), q, m)
        },
        result matches Ok(p) ==> size <= bytes && allocated(new, pages.mapping(), pages.book(), p as int, bytes),
{
    let map = old_pages.mapping();
    let other = allocated(old, map, old_pages.book(), q, m) && q != ptr;
    let mut bytes: int = 0;
    if 0 < size {
        if let Ok(n) = usable(old, map, old_pages.mem(), old_pages.book().max_order, heres, ptr as int) {
            if size <= n && stays {
                bytes = n;
            } else if !mistaken(old, map, old_pages.mem(), old_pages.book().max_order, heres, ptr as int) {
                let (mid, mid_pages, full_pages, fresh) = choose|
                    mid: HeapView,
                    mid_pages: PA,
                    full_pages: PA,
                    fresh: Result<usize, Error>,
                |
                    #[trigger] moved_outcome(
                        old,
                        mid,
                        new,
                        old_pages,
                        mid_pages,
                        full_pages,
                        pages,
                        heres,
                        ptr,
                        n,
                        size,
                        route,
                        fresh,
                        result,
                    );
                let at = ptr as int;
                let freed = match result {
                    Ok(_) => Ok::<(), Error>(()),
                    Err(error) => Err::<(), Error>(error),
                };
                if other {
                    allocating_keeps_allocations(old, mid, old_pages, mid_pages, heres, size, route, fresh, None, q, m);
                }
                if let Ok(to) = fresh {
                    bytes = new_size(old, mid_pages.mapping(), mid_pages.book(), route, to as int);
                    mid_pages.book_in_order();
                    allocation_is_live(old, mid, old_pages, mid_pages, heres, size, route, to, None);
                    allocating_keeps_allocations(old, mid, old_pages, mid_pages, heres, size, route, fresh, None, at, n);
                    freeing_keeps_allocations(mid, new, full_pages, pages, heres, at, freed, to as int, bytes);
                    if other {
                        allocations_are_apart(
                            mid,
                            mid_pages.mapping(),
                            mid_pages.mem(),
                            mid_pages.book(),
                            q,
                            m,
                            to as int,
                            bytes,
                        );
                        freeing_keeps_allocations(mid, new, full_pages, pages, heres, at, freed, q, m);
                        assert forall|p: int| q <= p < q + m implies #[trigger] pages.mem()[p] == old_pages.mem()[p] by {}
                    }
                }
            }
        }
    }
    bytes
}

/// A consistent heap can be validated wherever its caches are.
pub proof fn heap_validation_is_safe<M: PhysMap>(h: HeapView, pages: M, heres: Seq<usize>)
    requires
        pages.inv(),
        h.ok(pages.mapping(), pages.mem(), pages.book()),
    ensures
        heap_verdict_safe(h, pages.mapping(), pages.mem(), heres),
{
    pages.book_in_order();
    assert forall|i: int| 0 <= i < CLASS_COUNT && h.active[i] implies verdict_safe(
        #[trigger] h.caches[i],
        pages.mapping(),
        pages.mem(),
        heres[i],
    ) by {
        validation_is_safe(h.caches[i], pages.mapping(), pages.mem(), pages.book(), heres[i]);
    }
}

/// A consistent heap whose caches are where they grew their slabs is valid, unless the page
/// allocator refused to take back a slab with free objects.
pub proof fn consistent_heaps_are_valid<M: PhysMap>(h: HeapView, pages: M, heres: Seq<usize>)
    requires
        pages.inv(),
        h.initialized,
        h.ok(pages.mapping(), pages.mem(), pages.book()),
        forall|i: int| 0 <= i < CLASS_COUNT ==> (#[trigger] h.caches[i]).stayed_at(heres[i]),
        forall|i: int, b: int|
            0 <= i < CLASS_COUNT && #[trigger] h.has_slab(i, b) && h.caches[i].slabs[b].lost
                ==> h.caches[i].slabs[b].free.len() == 0,
    ensures
        heap_verdict(h, pages.mapping(), pages.mem(), heres) == Ok::<(), Error>(()),
{
    lemma_verdict_from(h, pages, heres, 0);
}

proof fn lemma_verdict_from<M: PhysMap>(h: HeapView, pages: M, heres: Seq<usize>, from: int)
    requires
        pages.inv(),
        h.initialized,
        h.ok(pages.mapping(), pages.mem(), pages.book()),
        0 <= from <= CLASS_COUNT,
        forall|i: int| 0 <= i < CLASS_COUNT ==> (#[trigger] h.caches[i]).stayed_at(heres[i]),
        forall|i: int, b: int|
            0 <= i < CLASS_COUNT && #[trigger] h.has_slab(i, b) && h.caches[i].slabs[b].lost
                ==> h.caches[i].slabs[b].free.len() == 0,
    ensures
        verdict_from(h, pages.mapping(), pages.mem(), heres, from) == Ok::<(), Error>(()),
    decreases CLASS_COUNT - from,
{
    if from < CLASS_COUNT {
        pages.book_in_order();
        if h.active[from] {
            let v = h.caches[from];
            assert forall|b: int| #[trigger] v.slabs.dom().contains(b) && v.slabs[b].lost implies v.slabs[b].free.len()
                == 0 by {
                assert(h.has_slab(from, b));
            }
            consistent_caches_are_valid(v, pages.mapping(), pages.mem(), pages.book(), heres[from]);
        }
        lemma_verdict_from(h, pages, heres, from + 1);
    }
}

/// No object of a size class is in use, and no slab has been refused by the
/// page allocator.
pub open spec fn classes_idle(h: HeapView) -> bool {
    forall|i: int| 0 <= i < CLASS_COUNT ==> idle(#[trigger] h.caches[i])
}

/// Where no cache has a slab any more, none of their blocks is out.
proof fn lemma_slabs_gone(h: HeapView, new: HeapView, map: Mapping, mem: Map<int, u8>, old_book: Book, book: Book)
    requires
        h.ok(map, mem, old_book),
        heap_returned(map, old_book, book, h, new),
        forall|i: int| 0 <= i < CLASS_COUNT ==> (#[trigger] new.caches[i]).slabs == Map::<int, Slab>::empty(),
    ensures
        forall|i: int, b: int|
            0 <= i < CLASS_COUNT && #[trigger] h.has_slab(i, b) ==> !book.blocks.dom().contains(map.to_phys[b]),
{
    assert forall|i: int, b: int| 0 <= i < CLASS_COUNT && #[trigger] h.has_slab(i, b) implies
        !book.blocks.dom().contains(map.to_phys[b]) by {}
}

/// Once all objects of the size classes are freed, shrinking the heap releases
/// every slab.
pub proof fn shrinking_an_idle_heap_releases_every_slab(
    h: HeapView,
    new: HeapView,
    map: Mapping,
    mem: Map<int, u8>,
    old_book: Book,
    book: Book,
)
    requires
        h.ok(map, mem, old_book),
        classes_idle(h),
        heap_shrink_outcome(h, new, map, old_book, Ok(())),
        heap_returned(map, old_book, book, h, new),
    ensures
        forall|i: int| 0 <= i < CLASS_COUNT ==> (#[trigger] new.caches[i]).slabs == Map::<int, Slab>::empty(),
        forall|i: int, b: int|
            0 <= i < CLASS_COUNT && #[trigger] h.has_slab(i, b) ==> !book.blocks.dom().contains(map.to_phys[b]),
{
    assert forall|i: int| 0 <= i < CLASS_COUNT implies (#[trigger] new.caches[i]).slabs == Map::<int, Slab>::empty() by {
        let v = h.caches[i];
        if h.active[i] {
            lemma_returned_shrunk(v, map, mem, old_book);
        }
    }
    lemma_slabs_gone(h, new, map, mem, old_book, book);
}

/// A cache without objects in use has no slab once it is shrunk.
proof fn lemma_returned_shrunk(v: CacheView, map: Mapping, mem: Map<int, u8>, book: Book)
    requires
        v.ok(map, mem, book),
        idle(v),
    ensures
        v.shrunk().slabs == Map::<int, Slab>::empty(),
{
    let gone = Set::new(|a: int| v.slabs.dom().contains(map.to_virt[a]) && !v.shrunk().slabs.dom().contains(map.to_virt[a]));
    let later = Book { blocks: book.blocks.remove_keys(gone), ..book };
    shrinking_an_idle_cache_releases_everything(v, map, mem, book, later);
}

/// Once all objects of the size classes are freed, destroying the heap
/// releases every slab.
pub proof fn destroying_an_idle_heap_releases_every_slab<PA: PageAlloc>(h: HeapView, old_pages: PA, pages: PA)
    requires
        h.ok(old_pages.mapping(), old_pages.mem(), old_pages.book()),
        classes_idle(h),
        heap_destroy_outcome(h, old_pages, pages, Ok(())),
    ensures
        forall|i: int, b: int|
            0 <= i < CLASS_COUNT && #[trigger] h.has_slab(i, b) ==> !pages.book().blocks.dom().contains(
                old_pages.mapping().to_phys[b],
            ),
{
    let rest = choose|rest: HeapView| {
        &&& #[trigger] heap_shrink_outcome(h, rest, old_pages.mapping(), old_pages.book(), Ok(()))
        &&& heap_returned(old_pages.mapping(), old_pages.book(), pages.book(), h, rest)
        &&& allocations_kept(h, rest, old_pages, pages)
    };
    shrinking_an_idle_heap_releases_every_slab(
        h,
        rest,
        old_pages.mapping(),
        old_pages.mem(),
        old_pages.book(),
        pages.book(),
    );
}

} // verus!
