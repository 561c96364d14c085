//! What caches and heaps take from a page allocator, and that they give all of
//! it back.
//!
//! Every operation of a cache or a heap leaves the page allocator as it was,
//! apart from the blocks of the slabs and of the large allocations. Steps of
//! this kind add up, so that once nothing is held any more, the same pages are
//! free as before.

use vstd::prelude::*;

use crate::error::Error;
use crate::header::header_at;
use crate::heap::CLASS_COUNT;
use crate::heap::LARGE_TAG_SIZE;
use crate::heap_laws::allocating_keeps_allocations;
use crate::heap_laws::classes_idle;
use crate::heap_laws::lemma_cache_at;
use crate::heap_laws::lemma_large_in_use;
use crate::heap_laws::shrinking_an_idle_heap_releases_every_slab;
use crate::heap_model::all_slabs;
use crate::heap_model::allocations_kept;
use crate::heap_model::heap_alloc_outcome;
use crate::heap_model::heap_destroy_outcome;
use crate::heap_model::heap_free_outcome;
use crate::heap_model::heap_may_free;
use crate::heap_model::heap_returned;
use crate::heap_model::heap_shrink_outcome;
use crate::heap_model::may_realloc;
use crate::heap_model::mistaken;
use crate::heap_model::moved_outcome;
use crate::heap_model::origin;
use crate::heap_model::page_around;
use crate::heap_model::page_start;
use crate::heap_model::realloc_outcome;
use crate::heap_model::route_ok;
use crate::heap_model::shrunk_below;
use crate::heap_model::usable;
use crate::heap_model::HeapView;
use crate::heap_model::Origin;
use crate::heap_model::Route;
use crate::laws::idle;
use crate::laws::shrinking_adds_no_slab;
use crate::laws::shrinking_an_idle_cache_releases_everything;
use crate::laws::shrinking_strands_nothing;
use crate::memory::word_bytes;
use crate::model::framed;
use crate::model::rest_kept;
use crate::model::returned;
use crate::model::CacheView;
use crate::model::Slab;
use crate::outcome::alloc_outcome;
use crate::outcome::destroy_outcome;
use crate::outcome::free_outcome;
use crate::outcome::may_free;
use crate::outcome::shrink_outcome;
use crate::pages::pages_free;
use crate::pages::Book;
use crate::pages::Mapping;
use crate::pages::PageAlloc;
use crate::pages::PhysMap;

verus! {

/// The blocks of the slabs of a cache in the state `v`.
pub open spec fn cache_holds(v: CacheView, map: Mapping) -> Set<int> {
    Set::new(|a: int| v.slabs.dom().contains(map.to_virt[a]))
}

/// The blocks of the slabs and of the large allocations of a heap in the state
/// `h`.
pub open spec fn heap_holds(h: HeapView, map: Mapping) -> Set<int> {
    Set::new(|a: int| h.owns(map.to_virt[a]))
}

/// The page allocator manages the same pages, and the same blocks are out but
/// for those in `old_held` before and those in `held` after.
pub open spec fn even_but_for(old_book: Book, old_held: Set<int>, book: Book, held: Set<int>) -> bool {
    &&& book.page_size == old_book.page_size
    &&& book.managed == old_book.managed
    &&& book.blocks.remove_keys(held) == old_book.blocks.remove_keys(old_held)
}

/// Steps add up.
pub proof fn steps_add_up(
    first: Book,
    first_held: Set<int>,
    second: Book,
    second_held: Set<int>,
    third: Book,
    third_held: Set<int>,
)
    requires
        even_but_for(first, first_held, second, second_held),
        even_but_for(second, second_held, third, third_held),
    ensures
        even_but_for(first, first_held, third, third_held),
{
}

/// While nothing is held, the page allocator is as it is.
pub proof fn holding_nothing_is_even(book: Book, held: Set<int>)
    requires
        book.blocks.dom().disjoint(held),
    ensures
        even_but_for(book, Set::empty(), book, held),
{
    assert(book.blocks.remove_keys(held) =~= book.blocks.remove_keys(Set::empty()));
}

/// Where nothing is held before and after, the same blocks are out, and the
/// same pages are free.
pub proof fn what_is_even_has_the_same_free_pages(old_book: Book, old_held: Set<int>, book: Book, held: Set<int>)
    requires
        even_but_for(old_book, old_held, book, held),
        old_book.blocks.dom().disjoint(old_held),
        book.blocks.dom().disjoint(held),
    ensures
        book.blocks == old_book.blocks,
        pages_free(book) == pages_free(old_book),
{
    assert(old_book.blocks.remove_keys(old_held) =~= old_book.blocks);
    assert(book.blocks.remove_keys(held) =~= book.blocks);
}

/// An allocation from a cache takes nothing but what the cache holds.
pub proof fn allocating_stays_even<PA: PageAlloc>(
    old: CacheView,
    new: CacheView,
    old_pages: PA,
    pages: PA,
    here: usize,
    result: Result<usize, Error>,
    except: Option<(int, int)>,
)
    requires
        old_pages.inv(),
        pages.inv(),
        old.ok(old_pages.mapping(), old_pages.mem(), old_pages.book()),
        alloc_outcome(old, new, old_pages, pages, here, result),
        framed(old_pages, pages, old, new, except),
    ensures
        even_but_for(
            old_pages.book(),
            cache_holds(old, old_pages.mapping()),
            pages.book(),
            cache_holds(new, pages.mapping()),
        ),
{
    let map = old_pages.mapping();
    let before = old_pages.book().blocks.remove_keys(cache_holds(old, map));
    let after = pages.book().blocks.remove_keys(cache_holds(new, map));
    pages.book_in_order();
    assert forall|a: int| #[trigger] before.dom().contains(a) implies after.dom().contains(a) && after[a] == before[a] by {}
    assert forall|a: int| #[trigger] after.dom().contains(a) implies before.dom().contains(a) by {}
    assert(after =~= before);
}

/// Freeing an object of a cache gives back nothing but what the cache held.
pub proof fn freeing_stays_even<PA: PageAlloc>(
    old: CacheView,
    new: CacheView,
    old_pages: PA,
    pages: PA,
    here: usize,
    ptr: int,
    result: Result<(), Error>,
)
    requires
        old_pages.inv(),
        old.ok(old_pages.mapping(), old_pages.mem(), old_pages.book()),
        may_free(old, old_pages, here, ptr),
        free_outcome(old, new, old_pages, pages, here, ptr, result),
        framed(old_pages, pages, old, new, Some((ptr, word_bytes()))),
    ensures
        even_but_for(
            old_pages.book(),
            cache_holds(old, old_pages.mapping()),
            pages.book(),
            cache_holds(new, pages.mapping()),
        ),
{
    let map = old_pages.mapping();
    let before = old_pages.book().blocks.remove_keys(cache_holds(old, map));
    let after = pages.book().blocks.remove_keys(cache_holds(new, map));
    old_pages.book_in_order();
    assert forall|a: int| #[trigger] before.dom().contains(a) implies after.dom().contains(a) && after[a] == before[a] by {}
    assert forall|a: int| #[trigger] after.dom().contains(a) implies before.dom().contains(a) by {}
    assert(after =~= before);
}

/// Shrinking a cache gives back nothing but what the cache held.
pub proof fn shrinking_stays_even<M: PhysMap>(
    old: CacheView,
    new: CacheView,
    old_pages: M,
    pages: M,
    result: Result<(), Error>,
)
    requires
        old.ok(old_pages.mapping(), old_pages.mem(), old_pages.book()),
        shrink_outcome(old, new, old_pages.mapping(), old_pages.book(), result),
        returned(old_pages.mapping(), old_pages.book(), pages.book(), old, new),
        framed(old_pages, pages, old, new, None),
    ensures
        even_but_for(
            old_pages.book(),
            cache_holds(old, old_pages.mapping()),
            pages.book(),
            cache_holds(new, pages.mapping()),
        ),
{
    let map = old_pages.mapping();
    let before = old_pages.book().blocks.remove_keys(cache_holds(old, map));
    let after = pages.book().blocks.remove_keys(cache_holds(new, map));
    assert forall|b: int| #[trigger] new.slabs.dom().contains(b) implies old.slabs.dom().contains(b) by {
        shrinking_adds_no_slab(old, new, map, old_pages.book(), result, b);
    }
    assert forall|a: int| #[trigger] before.dom().contains(a) implies after.dom().contains(a) && after[a] == before[a] by {}
    assert forall|a: int| #[trigger] after.dom().contains(a) implies before.dom().contains(a) by {}
    assert(after =~= before);
}

/// Once all objects are freed, destroying a cache succeeds if the page
/// allocator takes its slabs back, and leaves the same pages free as there
/// were when the cache held nothing.
pub proof fn destroyed_caches_give_back_every_page<M: PhysMap>(
    start: Book,
    v: CacheView,
    old_pages: M,
    pages: M,
    result: Result<(), Error>,
)
    requires
        old_pages.inv(),
        v.initialized(),
        v.ok(old_pages.mapping(), old_pages.mem(), old_pages.book()),
        idle(v),
        forall|b: int| #[trigger] v.slabs.dom().contains(b) ==> !old_pages.book().stuck.dom().contains(
            old_pages.mapping().to_phys[b],
        ),
        even_but_for(start, Set::empty(), old_pages.book(), cache_holds(v, old_pages.mapping())),
        destroy_outcome(v, old_pages, pages, result),
    ensures
        result is Ok,
        pages.book().blocks == start.blocks,
        pages_free(pages.book()) == pages_free(start),
{
    let map = old_pages.mapping();
    let rest = choose|rest: CacheView| {
        &&& #[trigger] shrink_outcome(v, rest, map, old_pages.book(), result)
        &&& returned(map, old_pages.book(), pages.book(), v, rest)
        &&& framed(old_pages, pages, v, rest, None)
    };
    shrinking_stays_even(v, rest, old_pages, pages, result);
    shrinking_strands_nothing(v, rest, map, old_pages.book(), result);
    shrinking_an_idle_cache_releases_everything(v, map, old_pages.mem(), old_pages.book(), pages.book());
    what_is_even_has_the_same_free_pages(start, Set::empty(), pages.book(), cache_holds(rest, map));
}

/// What a heap does with the cache of one class is even for the heap where it
/// is for the cache.
proof fn lemma_class_even(old: HeapView, new: HeapView, map: Mapping, old_book: Book, book: Book, index: int)
    requires
        0 <= index < CLASS_COUNT,
        old.caches.len() == CLASS_COUNT,
        new == old.with_cache(index, new.caches[index]),
        even_but_for(old_book, cache_holds(old.caches[index], map), book, cache_holds(new.caches[index], map)),
    ensures
        even_but_for(old_book, heap_holds(old, map), book, heap_holds(new, map)),
{
    let old_part = old_book.blocks.remove_keys(cache_holds(old.caches[index], map));
    let part = book.blocks.remove_keys(cache_holds(new.caches[index], map));
    let before = old_book.blocks.remove_keys(heap_holds(old, map));
    let after = book.blocks.remove_keys(heap_holds(new, map));
    assert forall|a: int| #[trigger] before.dom().contains(a) implies after.dom().contains(a) && after[a] == before[a] by {
        let b = map.to_virt[a];
        assert(!old.has_slab(index, b));
        assert(old_part.dom().contains(a));
        assert(part.dom().contains(a) && part[a] == old_part[a]);
        assert forall|i: int| 0 <= i < CLASS_COUNT implies !#[trigger] new.has_slab(i, b) by {
            assert(!old.has_slab(i, b));
        }
    }
    assert forall|a: int| #[trigger] after.dom().contains(a) implies before.dom().contains(a) by {
        let b = map.to_virt[a];
        assert(!new.has_slab(index, b));
        assert(part.dom().contains(a));
        assert(old_part.dom().contains(a));
        assert forall|i: int| 0 <= i < CLASS_COUNT implies !#[trigger] old.has_slab(i, b) by {
            assert(!new.has_slab(i, b));
        }
    }
    assert(after =~= before);
}

/// An allocation from a heap takes nothing but what the heap holds.
pub proof fn heap_allocating_stays_even<PA: PageAlloc>(
    old: HeapView,
    new: HeapView,
    old_pages: PA,
    pages: PA,
    heres: Seq<usize>,
    size: int,
    route: Route,
    result: Result<usize, Error>,
    except: Option<(int, int)>,
)
    requires
        old_pages.inv(),
        pages.inv(),
        old.ok(old_pages.mapping(), old_pages.mem(), old_pages.book()),
        route_ok(old, size, route),
        heap_alloc_outcome(old, new, old_pages, pages, heres, size, route, result, except),
    ensures
        even_but_for(
            old_pages.book(),
            heap_holds(old, old_pages.mapping()),
            pages.book(),
            heap_holds(new, pages.mapping()),
        ),
{
    let map = old_pages.mapping();
    pages.book_in_order();
    match route {
        Route::Class(index) => {
            allocating_stays_even(
                old.caches[index],
                new.caches[index],
                old_pages,
                pages,
                heres[index],
                result,
                except,
            );
            lemma_class_even(old, new, map, old_pages.book(), pages.book(), index);
        },
        Route::Large => {
            let before = old_pages.book().blocks.remove_keys(heap_holds(old, map));
            let after = pages.book().blocks.remove_keys(heap_holds(new, map));
            assert forall|b: int, i: int| new.has_slab(i, b) == #[trigger] old.has_slab(i, b) by {}
            assert forall|a: int| #[trigger] before.dom().contains(a) implies after.dom().contains(a) && after[a]
                == before[a] by {
                lemma_owns(old, new, map.to_virt[a]);
            }
            assert forall|a: int| #[trigger] after.dom().contains(a) implies before.dom().contains(a) by {
                lemma_owns(old, new, map.to_virt[a]);
            }
            assert(after =~= before);
        },
        Route::Refused(_) => {},
    }
}

/// What a heap owns depends on its slabs and its large allocations.
proof fn lemma_owns(old: HeapView, new: HeapView, b: int)
    requires
        new.caches == old.caches,
    ensures
        !new.large.contains(b) && !old.large.contains(b) ==> new.owns(b) == old.owns(b),
{
    assert forall|i: int| new.has_slab(i, b) == #[trigger] old.has_slab(i, b) by {}
    if old.owns(b) && !old.large.contains(b) {
        let i = choose|i: int| 0 <= i < CLASS_COUNT && #[trigger] old.has_slab(i, b);
        assert(new.has_slab(i, b));
    }
    if new.owns(b) && !new.large.contains(b) {
        let i = choose|i: int| 0 <= i < CLASS_COUNT && #[trigger] new.has_slab(i, b);
        assert(old.has_slab(i, b));
    }
}

/// Freeing an allocation of a heap gives back nothing but what the heap held.
/// What says that it is a large allocation must be one of this heap, or be no
/// block at all.
pub proof fn heap_freeing_stays_even<PA: PageAlloc>(
    old: HeapView,
    new: HeapView,
    old_pages: PA,
    pages: PA,
    heres: Seq<usize>,
    ptr: int,
    result: Result<(), Error>,
)
    requires
        old_pages.inv(),
        old.ok(old_pages.mapping(), old_pages.mem(), old_pages.book()),
        heap_may_free(old, old_pages, heres, ptr),
        heap_free_outcome(old, new, old_pages, pages, heres, ptr, result),
        origin(old, old_pages.mapping(), old_pages.mem(), old_pages.book().max_order, heres, ptr) is Large ==> {
            ||| old.large.contains(ptr - LARGE_TAG_SIZE)
            ||| !old_pages.book().blocks.dom().contains(page_start(old.page_size as int, old_pages.mapping(), ptr))
        },
    ensures
        even_but_for(
            old_pages.book(),
            heap_holds(old, old_pages.mapping()),
            pages.book(),
            heap_holds(new, pages.mapping()),
        ),
{
    let map = old_pages.mapping();
    let mem = old_pages.mem();
    old_pages.book_in_order();
    if old.initialized {
        match origin(old, map, mem, old_pages.book().max_order, heres, ptr) {
            Origin::Class(index) => {
                lemma_cache_at(old, heres, header_at(mem, page_around(old.page_size as int, map, ptr)).owner);
                freeing_stays_even(
                    old.caches[index],
                    new.caches[index],
                    old_pages,
                    pages,
                    heres[index],
                    ptr,
                    result,
                );
                lemma_class_even(old, new, map, old_pages.book(), pages.book(), index);
            },
            Origin::Large(_) => {
                let b = ptr - LARGE_TAG_SIZE;
                let before = old_pages.book().blocks.remove_keys(heap_holds(old, map));
                let after = pages.book().blocks.remove_keys(heap_holds(new, map));
                if result is Ok {
                    assert(map.to_phys[b] == page_start(old.page_size as int, map, ptr));
                    assert forall|i: int| 0 <= i < CLASS_COUNT implies !#[trigger] old.has_slab(i, b) by {}
                }
                assert forall|a: int| #[trigger] before.dom().contains(a) implies after.dom().contains(a) && after[a]
                    == before[a] by {
                    lemma_owns(old, new, map.to_virt[a]);
                }
                assert forall|a: int| #[trigger] after.dom().contains(a) implies before.dom().contains(a) by {
                    lemma_owns(old, new, map.to_virt[a]);
                }
                assert(after =~= before);
            },
            Origin::Foreign(_) => {},
        }
    }
}

/// Resizing an allocation of a heap takes and gives back nothing but what the
/// heap holds.
pub proof fn heap_resizing_stays_even<PA: PageAlloc>(
    old: HeapView,
    new: HeapView,
    old_pages: PA,
    pages: PA,
    heres: Seq<usize>,
    ptr: usize,
    size: int,
    stays: bool,
    route: Route,
    result: Result<usize, Error>,
)
    requires
        old_pages.inv(),
        old.ok(old_pages.mapping(), old_pages.mem(), old_pages.book()),
        route_ok(old, size, route),
        may_realloc(old, old_pages, heres, ptr as int, size, stays),
        realloc_outcome(old, new, old_pages, pages, heres, ptr, size, stays, route, result),
    ensures
        even_but_for(
            old_pages.book(),
            heap_holds(old, old_pages.mapping()),
            pages.book(),
            heap_holds(new, pages.mapping()),
        ),
{
    let map = old_pages.mapping();
    let max_order = old_pages.book().max_order;
    let at = ptr as int;
    if old.initialized && size != 0 {
        if let Ok(n) = usable(old, map, old_pages.mem(), max_order, heres, at) {
            if !(size <= n && stays) && !mistaken(old, map, old_pages.mem(), max_order, heres, at) {
                let (mid, mid_pages, full_pages, fresh) = choose|
                    mid: HeapView,
                    mid_pages: PA,
                    full_pages: PA,
                    fresh: Result<usize, Error>,
                |
                    #[trigger] moved_outcome(
                        old,
                        mid,
                        new,
                        old_pages,
                        mid_pages,
                        full_pages,
                        pages,
                        heres,
                        ptr,
                        n,
                        size,
                        route,
                        fresh,
                        result,
                    );
                heap_allocating_stays_even(old, mid, old_pages, mid_pages, heres, size, route, fresh, None);
                if let Ok(to) = fresh {
                    let freed = match result {
                        Ok(_) => Ok::<(), Error>(()),
                        Err(error) => Err::<(), Error>(error),
                    };
                    allocating_keeps_allocations(old, mid, old_pages, mid_pages, heres, size, route, fresh, None, at, n);
                    if origin(mid, map, full_pages.mem(), max_order, heres, at) is Large {
                        lemma_large_in_use(mid, full_pages, at, n);
                    }
                    heap_freeing_stays_even(mid, new, full_pages, pages, heres, at, freed);
                    steps_add_up(
                        old_pages.book(),
                        heap_holds(old, map),
                        full_pages.book(),
                        heap_holds(mid, map),
                        pages.book(),
                        heap_holds(new, map),
                    );
                }
            }
        }
    }
}

/// Shrinking a heap gives back nothing but what the heap held.
pub proof fn heap_shrinking_stays_even<M: PhysMap>(
    old: HeapView,
    new: HeapView,
    old_pages: M,
    pages: M,
    result: Result<(), Error>,
)
    requires
        old.ok(old_pages.mapping(), old_pages.mem(), old_pages.book()),
        heap_shrink_outcome(old, new, old_pages.mapping(), old_pages.book(), result),
        heap_returned(old_pages.mapping(), old_pages.book(), pages.book(), old, new),
        rest_kept(
            old_pages.mapping(),
            old_pages.book(),
            pages.book(),
            old_pages.mem(),
            pages.mem(),
            all_slabs(old),
        ),
    ensures
        even_but_for(
            old_pages.book(),
            heap_holds(old, old_pages.mapping()),
            pages.book(),
            heap_holds(new, old_pages.mapping()),
        ),
{
    let map = old_pages.mapping();
    let book = old_pages.book();
    let before = book.blocks.remove_keys(heap_holds(old, map));
    let after = pages.book().blocks.remove_keys(heap_holds(new, map));
    assert forall|i: int, b: int| 0 <= i < CLASS_COUNT && #[trigger] new.has_slab(i, b) implies old.has_slab(i, b) by {
        if result is Err && old.initialized {
            let (k, mid) = choose|k: int, mid: HeapView| {
                &&& 0 <= k < CLASS_COUNT
                &&& old.active[k]
                &&& #[trigger] shrunk_below(old, mid, k)
                &&& shrink_outcome(old.caches[k], new.caches[k], map, book, result)
                &&& new == mid.with_cache(k, new.caches[k])
            };
            if i == k {
                shrinking_adds_no_slab(old.caches[k], new.caches[k], map, book, result, b);
            }
        }
    }
    assert(new.large == old.large);
    assert forall|a: int| #[trigger] before.dom().contains(a) implies after.dom().contains(a) && after[a] == before[a] by {
        let b = map.to_virt[a];
        assert(book.blocks.dom().contains(a));
        assert forall|i: int| 0 <= i < CLASS_COUNT implies !#[trigger] new.has_slab(i, b) by {}
        assert forall|i: int| 0 <= i < CLASS_COUNT implies !#[trigger] old.has_slab(i, b) by {}
    }
    assert forall|a: int| #[trigger] after.dom().contains(a) implies before.dom().contains(a) by {
        let b = map.to_virt[a];
        assert(pages.book().blocks.dom().contains(a));
        assert forall|i: int| 0 <= i < CLASS_COUNT implies !#[trigger] old.has_slab(i, b) by {
            assert(!new.has_slab(i, b));
        }
    }
    assert(after =~= before);
}

/// Once every allocation is freed, destroying a heap succeeds if the page
/// allocator takes its slabs back, and leaves the same pages free as there
/// were when the heap held nothing.
pub proof fn destroyed_heaps_give_back_every_page<PA: PageAlloc>(
    start: Book,
    h: HeapView,
    old_pages: PA,
    pages: PA,
    result: Result<(), Error>,
)
    requires
        old_pages.inv(),
        h.initialized,
        h.ok(old_pages.mapping(), old_pages.mem(), old_pages.book()),
        classes_idle(h),
        h.large == Set::<int>::empty(),
        forall|b: int| #[trigger] h.owns(b) ==> !old_pages.book().stuck.dom().contains(old_pages.mapping().to_phys[b]),
        even_but_for(start, Set::empty(), old_pages.book(), heap_holds(h, old_pages.mapping())),
        heap_destroy_outcome(h, old_pages, pages, result),
        rest_kept(
            old_pages.mapping(),
            old_pages.book(),
            pages.book(),
            old_pages.mem(),
            pages.mem(),
            all_slabs(h),
        ),
    ensures
        result is Ok,
        pages.book().blocks == start.blocks,
        pages_free(pages.book()) == pages_free(start),
{
    let map = old_pages.mapping();
    let book = old_pages.book();
    let rest = choose|rest: HeapView| {
        &&& #[trigger] heap_shrink_outcome(h, rest, map, book, result)
        &&& heap_returned(map, book, pages.book(), h, rest)
        &&& allocations_kept(h, rest, old_pages, pages)
    };
    if result is Err {
        let (k, mid) = choose|k: int, mid: HeapView| {
            &&& 0 <= k < CLASS_COUNT
            &&& h.active[k]
            &&& #[trigger] shrunk_below(h, mid, k)
            &&& shrink_outcome(h.caches[k], rest.caches[k], map, book, result)
            &&& rest == mid.with_cache(k, rest.caches[k])
        };
        let v = h.caches[k];
        assert forall|b: int| #[trigger] v.slabs.dom().contains(b) implies !book.stuck.dom().contains(map.to_phys[b]) by {
            assert(h.has_slab(k, b));
            assert(h.owns(b));
        }
        shrinking_strands_nothing(v, rest.caches[k], map, book, result);
    }
    heap_shrinking_stays_even(h, rest, old_pages, pages, result);
    shrinking_an_idle_heap_releases_every_slab(h, rest, map, old_pages.mem(), book, pages.book());
    steps_add_up(
        start,
        Set::empty(),
        book,
        heap_holds(h, map),
        pages.book(),
        heap_holds(rest, map),
    );
    assert forall|a: int| !#[trigger] heap_holds(rest, map).contains(a) by {
        assert forall|i: int| 0 <= i < CLASS_COUNT implies !#[trigger] rest.has_slab(i, map.to_virt[a]) by {
            assert(rest.caches[i].slabs == Map::<int, Slab>::empty());
        }
    }
    what_is_even_has_the_same_free_pages(start, Set::empty(), pages.book(), heap_holds(rest, map));
}

} // verus!
