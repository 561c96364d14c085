//! What holds of caches and heaps that share a page allocator.

use vstd::prelude::*;

use crate::error::Error;
use crate::heap::CLASS_COUNT;
use crate::heap::LARGE_TAG_SIZE;
use crate::heap_model::allocated;
use crate::heap_model::heap_alloc_outcome;
use crate::heap_model::heap_free_outcome;
use crate::heap_model::heap_may_free;
use crate::heap_model::large_ok;
use crate::heap_model::lemma_allocation_home;
use crate::heap_model::lemma_cache_untouched;
use crate::heap_model::lemma_large_untouched;
use crate::heap_model::lemma_slabs_have_no_tag;
use crate::heap_model::origin;
use crate::heap_model::route_ok;
use crate::heap_model::HeapView;
use crate::heap_model::Origin;
use crate::heap_model::Route;
use crate::laws::allocating_adds_only_fresh_slabs;
use crate::laws::freeing_adds_no_slab;
use crate::memory::same_bytes;
use crate::memory::word_bytes;
use crate::model::framed;
use crate::model::placed;
use crate::model::rest_kept;
use crate::model::CacheView;
use crate::model::Slab;
use crate::pages::block_bytes;
use crate::pages::Book;
use crate::pages::Mapping;
use crate::pages::PageAlloc;
use crate::pages::PhysMap;

verus! {

/// No slab belongs to both caches.
pub open spec fn caches_apart(v: CacheView, w: CacheView) -> bool {
    forall|b: int| #[trigger] w.slabs.dom().contains(b) ==> !v.slabs.dom().contains(b)
}

/// No block belongs to both the heap and the cache.
pub open spec fn heap_apart(h: HeapView, v: CacheView) -> bool {
    forall|b: int| #[trigger] v.slabs.dom().contains(b) ==> !h.owns(b)
}

/// A cache that goes from the state `old` to the state `new` gains at most
/// slabs in blocks that were not out before.
pub open spec fn gains_fresh_slabs(old: CacheView, new: CacheView, map: Mapping, old_book: Book) -> bool {
    forall|b: int| #[trigger] new.slabs.dom().contains(b) ==> old.slabs.dom().contains(b)
        || !old_book.blocks.dom().contains(map.to_phys[b])
}

/// The slabs of a cache are in blocks that are out.
proof fn lemma_slabs_out(v: CacheView, map: Mapping, mem: Map<int, u8>, book: Book, b: int)
    requires
        v.ok(map, mem, book),
        v.slabs.dom().contains(b),
    ensures
        v.initialized(),
        placed(map, book, v.layout.order, b),
        book.blocks.dom().contains(map.to_phys[b]),
{
}

/// What one cache does leaves every other cache of the same page allocator
/// consistent, with the bytes of its slabs as they were, and the two caches
/// apart.
pub proof fn caches_leave_each_other_alone<M: PhysMap>(
    old: CacheView,
    new: CacheView,
    old_pages: M,
    pages: M,
    except: Option<(int, int)>,
    other: CacheView,
)
    requires
        old_pages.inv(),
        framed(old_pages, pages, old, new, except),
        gains_fresh_slabs(old, new, old_pages.mapping(), old_pages.book()),
        other.ok(old_pages.mapping(), old_pages.mem(), old_pages.book()),
        caches_apart(old, other),
    ensures
        other.ok(pages.mapping(), pages.mem(), pages.book()),
        caches_apart(new, other),
        forall|b: int| #[trigger] other.slabs.dom().contains(b) ==> same_bytes(
            old_pages.mem(),
            pages.mem(),
            b,
            other.layout.slab_bytes as int,
        ),
{
    let map = old_pages.mapping();
    let book = old_pages.book();
    old_pages.book_in_order();
    lemma_cache_untouched(other, map, book, pages.book(), old_pages.mem(), pages.mem(), old.slabs);
    assert forall|b: int| #[trigger] other.slabs.dom().contains(b) implies !new.slabs.dom().contains(b) && same_bytes(
        old_pages.mem(),
        pages.mem(),
        b,
        other.layout.slab_bytes as int,
    ) by {
        lemma_slabs_out(other, map, old_pages.mem(), book, b);
    }
}

/// What a cache does leaves a heap of the same page allocator consistent, with
/// the bytes of its allocations as they were, and the two apart.
pub proof fn caches_leave_heaps_alone<M: PhysMap>(
    old: CacheView,
    new: CacheView,
    old_pages: M,
    pages: M,
    except: Option<(int, int)>,
    h: HeapView,
)
    requires
        old_pages.inv(),
        framed(old_pages, pages, old, new, except),
        gains_fresh_slabs(old, new, old_pages.mapping(), old_pages.book()),
        h.ok(old_pages.mapping(), old_pages.mem(), old_pages.book()),
        heap_apart(h, old),
    ensures
        h.ok(pages.mapping(), pages.mem(), pages.book()),
        heap_apart(h, new),
        forall|q: int, n: int| #[trigger]
            allocated(h, old_pages.mapping(), old_pages.book(), q, n) && h.initialized ==> {
                &&& allocated(h, pages.mapping(), pages.book(), q, n)
                &&& same_bytes(old_pages.mem(), pages.mem(), q, n)
            },
{
    let map = old_pages.mapping();
    let book = old_pages.book();
    let mem = pages.mem();
    old_pages.book_in_order();
    assert forall|q: int, n: int| #[trigger] allocated(h, map, book, q, n) && h.initialized implies {
        &&& allocated(h, map, pages.book(), q, n)
        &&& same_bytes(old_pages.mem(), mem, q, n)
    } by {
        lemma_allocation_home(h, map, old_pages.mem(), book, q, n);
        let b = q - LARGE_TAG_SIZE;
    }
    assert forall|i: int| 0 <= i < CLASS_COUNT implies (#[trigger] h.caches[i]).ok(map, mem, pages.book()) by {
        assert forall|b: int| #[trigger] h.caches[i].slabs.dom().contains(b) implies !old.slabs.dom().contains(b) by {
            assert(h.has_slab(i, b));
        }
        lemma_cache_untouched(h.caches[i], map, book, pages.book(), old_pages.mem(), mem, old.slabs);
    }
    assert forall|b: int| #[trigger] h.large.contains(b) implies large_ok(map, mem, pages.book(), b) by {
        lemma_large_untouched(map, book, pages.book(), old_pages.mem(), mem, old.slabs, b);
    }
    assert forall|b: int| #[trigger] new.slabs.dom().contains(b) implies !h.owns(b) by {
        if h.owns(b) {
            if h.large.contains(b) {
            } else {
                let i = choose|i: int| 0 <= i < CLASS_COUNT && #[trigger] h.has_slab(i, b);
                lemma_slabs_out(h.caches[i], map, old_pages.mem(), book, b);
            }
        }
    }
    assert(h.classes_ok(pages.book()));
}

/// An allocation from a heap leaves a cache of the same page allocator
/// consistent, and the two apart.
pub proof fn heap_allocating_leaves_caches_alone<PA: PageAlloc>(
    old: HeapView,
    new: HeapView,
    old_pages: PA,
    pages: PA,
    heres: Seq<usize>,
    size: int,
    route: Route,
    result: Result<usize, Error>,
    except: Option<(int, int)>,
    other: CacheView,
)
    requires
        old_pages.inv(),
        old.ok(old_pages.mapping(), old_pages.mem(), old_pages.book()),
        route_ok(old, size, route),
        heap_alloc_outcome(old, new, old_pages, pages, heres, size, route, result, except),
        other.ok(old_pages.mapping(), old_pages.mem(), old_pages.book()),
        heap_apart(old, other),
    ensures
        other.ok(pages.mapping(), pages.mem(), pages.book()),
        heap_apart(new, other),
{
    let map = old_pages.mapping();
    let book = old_pages.book();
    old_pages.book_in_order();
    match route {
        Route::Class(index) => {
            let v = old.caches[index];
            let w = new.caches[index];
            allocating_adds_only_fresh_slabs(v, w, old_pages, pages, heres[index], result);
            lemma_class_changed(old, new, old_pages, pages, index, except, other);
        },
        Route::Large => {
            lemma_cache_untouched(
                other,
                map,
                book,
                pages.book(),
                old_pages.mem(),
                pages.mem(),
                Map::<int, Slab>::empty(),
            );
            assert forall|b: int| #[trigger] other.slabs.dom().contains(b) implies !new.owns(b) by {
                lemma_slabs_out(other, map, old_pages.mem(), book, b);
                assert forall|i: int| 0 <= i < CLASS_COUNT implies !#[trigger] new.has_slab(i, b) by {
                    assert(!old.has_slab(i, b));
                }
            }
        },
        Route::Refused(_) => {},
    }
}

/// What one cache of a heap does leaves a cache that is none of the heap's
/// alone.
proof fn lemma_class_changed<M: PhysMap>(
    old: HeapView,
    new: HeapView,
    old_pages: M,
    pages: M,
    index: int,
    except: Option<(int, int)>,
    other: CacheView,
)
    requires
        old_pages.inv(),
        0 <= index < CLASS_COUNT,
        old.caches.len() == CLASS_COUNT,
        framed(old_pages, pages, old.caches[index], new.caches[index], except),
        gains_fresh_slabs(old.caches[index], new.caches[index], old_pages.mapping(), old_pages.book()),
        new == old.with_cache(index, new.caches[index]),
        other.ok(old_pages.mapping(), old_pages.mem(), old_pages.book()),
        heap_apart(old, other),
    ensures
        other.ok(pages.mapping(), pages.mem(), pages.book()),
        heap_apart(new, other),
{
    assert(caches_apart(old.caches[index], other)) by {
        assert forall|b: int| #[trigger] other.slabs.dom().contains(b) implies !old.caches[index].slabs.dom().contains(
            b,
        ) by {
            assert(!old.has_slab(index, b));
        }
    }
    caches_leave_each_other_alone(old.caches[index], new.caches[index], old_pages, pages, except, other);
    assert forall|b: int| #[trigger] other.slabs.dom().contains(b) implies !new.owns(b) by {
        assert forall|i: int| 0 <= i < CLASS_COUNT implies !#[trigger] new.has_slab(i, b) by {
            assert(!old.has_slab(i, b));
        }
    }
}

/// Freeing an allocation of a heap leaves a cache of the same page allocator
/// consistent, and the two apart.
pub proof fn heap_freeing_leaves_caches_alone<PA: PageAlloc>(
    old: HeapView,
    new: HeapView,
    old_pages: PA,
    pages: PA,
    heres: Seq<usize>,
    ptr: int,
    result: Result<(), Error>,
    other: CacheView,
)
    requires
        old_pages.inv(),
        old.ok(old_pages.mapping(), old_pages.mem(), old_pages.book()),
        heap_may_free(old, old_pages, heres, ptr),
        heap_free_outcome(old, new, old_pages, pages, heres, ptr, result),
        other.ok(old_pages.mapping(), old_pages.mem(), old_pages.book()),
        heap_apart(old, other),
    ensures
        other.ok(pages.mapping(), pages.mem(), pages.book()),
        heap_apart(new, other),
{
    let map = old_pages.mapping();
    let book = old_pages.book();
    old_pages.book_in_order();
    if old.initialized {
        match origin(old, map, old_pages.mem(), book.max_order, heres, ptr) {
            Origin::Class(index) => {
                let v = old.caches[index];
                freeing_adds_no_slab(v, new.caches[index], old_pages, pages, heres[index], ptr, result);
                lemma_class_changed(old, new, old_pages, pages, index, Some((ptr, word_bytes())), other);
            },
            Origin::Large(_) => {
                let b = ptr - LARGE_TAG_SIZE;
                let gone = Map::<int, Slab>::empty().insert(b, arbitrary());
                assert forall|c: int| #[trigger] other.slabs.dom().contains(c) implies !gone.dom().contains(c) by {
                    lemma_slabs_have_no_tag(other, old_pages.mem(), c);
                }
                assert(rest_kept(map, book, pages.book(), old_pages.mem(), pages.mem(), gone)) by {
                    assert forall|a: int, p: int| #![trigger book.blocks.dom().contains(a), pages.mem()[p]]
                        book.blocks.dom().contains(a) && !gone.dom().contains(map.to_virt[a]) && map.to_virt[a] <= p
                            < map.to_virt[a] + block_bytes(book.page_size as int, book.blocks[a])
                            implies pages.mem()[p] == old_pages.mem()[p] by {
                        assert(pages.book().blocks.dom().contains(a));
                    }
                }
                lemma_cache_untouched(other, map, book, pages.book(), old_pages.mem(), pages.mem(), gone);
                assert forall|c: int| #[trigger] other.slabs.dom().contains(c) implies !new.owns(c) by {
                    assert forall|i: int| 0 <= i < CLASS_COUNT implies !#[trigger] new.has_slab(i, c) by {
                        assert(!old.has_slab(i, c));
                    }
                }
            },
            Origin::Foreign(_) => {},
        }
    }
}

} // verus!
