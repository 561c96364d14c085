//! What holds of a cache across calls.

use vstd::arithmetic::div_mod::lemma_fundamental_div_mod;
use vstd::arithmetic::div_mod::lemma_fundamental_div_mod_converse;
use vstd::prelude::*;
use vstd::set_lib::lemma_int_range;
use vstd::set_lib::lemma_len_subset;
use vstd::set_lib::lemma_set_disjoint_lens;
use vstd::set_lib::set_int_range;

use crate::error::Error;
use crate::header::header_at;
use crate::header::header_bytes;
use crate::layout::SlabLayout;
use crate::lists::lemma_linked_header;
use crate::lists::lemma_pushed;
use crate::lists::lemma_pushed_contains;
use crate::lists::lemma_removed;
use crate::memory::same_bytes;
use crate::memory::word_bytes;
use crate::model::before;
use crate::model::framed;
use crate::model::in_memory;
use crate::model::lemma_grid_apart;
use crate::model::lemma_grid_bounds;
use crate::model::lemma_object_on_grid;
use crate::model::lemma_partial_len;
use crate::model::lemma_slab_free_list;
use crate::model::lemma_slab_region;
use crate::model::lemma_slabs_apart;
use crate::model::lemma_total_free_bound;
use crate::model::lemma_total_free_split;
use crate::model::returned;
use crate::model::total_free;
use crate::model::CacheView;
use crate::model::Slab;
use crate::objects::lemma_object_address;
use crate::objects::lemma_used_header;
use crate::outcome::alloc_outcome;
use crate::outcome::destroy_outcome;
use crate::outcome::free_outcome;
use crate::outcome::handed_out_is_live;
use crate::outcome::inspectable;
use crate::outcome::may_free;
use crate::outcome::rejection;
use crate::outcome::rejects;
use crate::outcome::shrink_outcome;
use crate::outcome::slab_around;
use crate::pages::book_ok;
use crate::pages::Book;
use crate::pages::Mapping;
use crate::pages::PageAlloc;
use crate::pages::PhysMap;
use crate::verdict::chain;
use crate::verdict::chain_safe;
use crate::verdict::readable;
use crate::verdict::slab_safe;
use crate::verdict::slab_verdict;
use crate::verdict::verdict;
use crate::verdict::verdict_safe;
use crate::verdict::walk;
use crate::verdict::walk_safe;

verus! {

/// The position of an object in its slab.
pub open spec fn position(l: SlabLayout, b: int, ptr: int) -> int {
    (ptr - b - l.first_offset) / (l.stride as int)
}

/// A slab has no more objects than positions.
pub proof fn lemma_list_fits(l: SlabLayout, b: int, list: Seq<int>)
    requires
        l.ok(header_bytes()),
        list.no_duplicates(),
        forall|i: int| 0 <= i < list.len() ==> l.on_grid(b, #[trigger] list[i]),
    ensures
        list.len() <= l.objects,
{
    let places = Seq::new(list.len(), |i: int| position(l, b, list[i]));
    assert forall|i: int, j: int| 0 <= i < places.len() && 0 <= j < places.len() && i != j implies places[i]
        != places[j] by {
        lemma_grid_bounds(l, b, list[i]);
        lemma_grid_bounds(l, b, list[j]);
    }
    places.unique_seq_to_set();
    lemma_int_range(0, l.objects as int);
    assert(places.to_set().subset_of(set_int_range(0, l.objects as int))) by {
        assert forall|n: int| #[trigger] places.to_set().contains(n) implies set_int_range(0, l.objects as int).contains(
            n,
        ) by {
            let i = places.index_of(n);
            lemma_fundamental_div_mod(list[i] - b - l.first_offset, l.stride as int);
            assert(0 <= n) by (nonlinear_arith)
                requires
                    list[i] - b - l.first_offset == l.stride * n,
                    0 <= list[i] - b - l.first_offset,
                    0 < l.stride,
            ;
        }
    }
    lemma_len_subset(places.to_set(), set_int_range(0, l.objects as int));
}

/// A slab with an object in use counts it.
pub proof fn live_objects_are_counted(v: CacheView, mem: Map<int, u8>, b: int, ptr: int)
    requires
        v.structure_ok(),
        v.memory_ok(mem),
        v.layout.ok(header_bytes()),
        v.lives(b, ptr),
    ensures
        v.inuse(b) > 0,
{
    lemma_slab_free_list(v, mem, b);
    let free = v.slabs[b].free;
    let list = free.push(ptr);
    assert forall|i: int, j: int| 0 <= i < list.len() && 0 <= j < list.len() && i != j implies list[i] != list[j] by {
        if i == free.len() {
        } else if j == free.len() {
        }
    }
    lemma_list_fits(v.layout, b, list);
}

/// Two objects in use have no byte in common, and each lies in its slab,
/// behind the header.
pub proof fn live_objects_are_apart(
    v: CacheView,
    map: Mapping,
    mem: Map<int, u8>,
    book: Book,
    b: int,
    p: int,
    c: int,
    q: int,
)
    requires
        v.initialized(),
        v.ok(map, mem, book),
        book_ok(map, mem, book),
        v.lives(b, p),
        v.lives(c, q),
        p != q,
    ensures
        p + v.layout.stride <= q || q + v.layout.stride <= p,
        b + header_bytes() <= p,
        p + v.layout.object_size <= p + v.layout.stride <= b + v.layout.slab_bytes,
{
    lemma_grid_bounds(v.layout, b, p);
    lemma_grid_bounds(v.layout, c, q);
    if b == c {
        lemma_grid_apart(v.layout, b, p, q);
    } else {
        lemma_slabs_apart(v, map, mem, book, b, c);
    }
}

/// An object that is in use stays in use and keeps its bytes when another one
/// is allocated.
pub proof fn allocating_keeps_objects<PA: PageAlloc>(
    old: CacheView,
    new: CacheView,
    old_pages: PA,
    pages: PA,
    here: usize,
    result: Result<usize, Error>,
    except: Option<(int, int)>,
    b: int,
    q: int,
)
    requires
        old_pages.inv(),
        pages.inv(),
        old.ok(old_pages.mapping(), old_pages.mem(), old_pages.book()),
        new.ok(pages.mapping(), pages.mem(), pages.book()),
        alloc_outcome(old, new, old_pages, pages, here, result),
        framed(old_pages, pages, old, new, except),
        except matches Some((p, n)) ==> result == Ok::<usize, Error>(p as usize) && 0 <= p <= usize::MAX && n
            == old.layout.object_size,
        old.lives(b, q),
    ensures
        new.lives(b, q),
        same_bytes(old_pages.mem(), pages.mem(), q, old.layout.stride as int),
        result matches Ok(ptr) ==> ptr != q,
{
    let map = old_pages.mapping();
    let l = old.layout;
    old_pages.book_in_order();
    pages.book_in_order();
    lemma_grid_bounds(l, b, q);
    match result {
        Ok(ptr) => {
            handed_out_is_live(old, new, map, old_pages.mem(), old_pages.book(), pages.book(), here, ptr as int);
            let c = new.current->0;
            if old.ready() || old.partial.len() > 0 {
                let free = old.slabs[c].free;
                assert forall|p: int| free.drop_first().contains(p) implies free.contains(p) by {}
            }
            if ptr == q {
                if b != c {
                    lemma_slabs_apart(new, map, pages.mem(), pages.book(), b, c);
                    lemma_grid_bounds(l, c, ptr as int);
                }
            }
            live_objects_are_apart(new, map, pages.mem(), pages.book(), b, q, c, ptr as int);
        },
        Err(_) => {},
    }
    assert forall|p: int| q <= p < q + l.stride implies #[trigger] pages.mem()[p] == old_pages.mem()[p] by {}
}

/// An object that is in use stays in use and keeps its bytes when another one
/// is freed.
pub proof fn freeing_keeps_objects<PA: PageAlloc>(
    old: CacheView,
    new: CacheView,
    old_pages: PA,
    pages: PA,
    here: usize,
    ptr: int,
    result: Result<(), Error>,
    b: int,
    q: int,
)
    requires
        old_pages.inv(),
        old.ok(old_pages.mapping(), old_pages.mem(), old_pages.book()),
        may_free(old, old_pages, here, ptr),
        free_outcome(old, new, old_pages, pages, here, ptr, result),
        framed(old_pages, pages, old, new, Some((ptr, word_bytes()))),
        old.lives(b, q),
        q != ptr,
    ensures
        new.lives(b, q),
        same_bytes(old_pages.mem(), pages.mem(), q, old.layout.stride as int),
{
    let map = old_pages.mapping();
    let l = old.layout;
    old_pages.book_in_order();
    lemma_grid_bounds(l, b, q);
    if !rejects(old, old_pages, here, ptr) {
        let slab = slab_around(l, map, ptr);
        live_objects_are_apart(old, map, old_pages.mem(), old_pages.book(), slab, ptr, b, q);
        let given = old.given(slab, ptr);
        let free = old.slabs[slab].free;
        let now = seq![ptr] + free;
        lemma_pushed_contains(free, ptr);
        if slab == b {
            lemma_slab_free_list(old, old_pages.mem(), b);
            let list = now.push(q);
            assert forall|i: int, j: int| 0 <= i < list.len() && 0 <= j < list.len() && i != j implies list[i]
                != list[j] by {
                lemma_pushed(free, ptr);
            }
            assert forall|i: int| 0 <= i < list.len() implies l.on_grid(b, #[trigger] list[i]) by {}
            lemma_list_fits(l, b, list);
        }
        assert forall|p: int| q <= p < q + l.stride implies #[trigger] pages.mem()[p] == old_pages.mem()[p] by {}
    }
}

/// An object in use can be freed, and a cache that is where it grew the slab
/// accepts it.
pub proof fn live_objects_can_be_freed<M: PhysMap>(v: CacheView, pages: M, here: usize, b: int, ptr: int)
    requires
        pages.inv(),
        v.ok(pages.mapping(), pages.mem(), pages.book()),
        v.initialized(),
        v.lives(b, ptr),
    ensures
        slab_around(v.layout, pages.mapping(), ptr) == b,
        may_free(v, pages, here, ptr),
        !rejects(v, pages, here, ptr) <==> here == v.slabs[b].owner,
{
    let l = v.layout;
    let map = pages.mapping();
    let mem = pages.mem();
    pages.book_in_order();
    lemma_object_address(v, map, mem, pages.book(), b, ptr);
    lemma_slab_region(v, map, mem, pages.book(), b);
    lemma_used_header(v, mem, b);
    live_objects_are_counted(v, mem, b, ptr);
    let bytes = l.slab_bytes as int;
    let home = map.to_phys[b];
    let phys = map.to_phys[ptr];
    lemma_fundamental_div_mod(home, bytes);
    lemma_fundamental_div_mod_converse(phys, bytes, home / bytes, ptr - b);
    if v.slabs[b].free.len() > 0 {
        lemma_object_address(v, map, mem, pages.book(), b, v.slabs[b].free[0]);
    }
}

/// The memory around an address in a slab is the slab, whose header can be
/// read, for every cache with slabs of that size.
proof fn lemma_slab_inspectable<M: PhysMap>(l: SlabLayout, w: CacheView, pages: M, b: int, ptr: int)
    requires
        pages.inv(),
        w.ok(pages.mapping(), pages.mem(), pages.book()),
        w.initialized(),
        w.slabs.dom().contains(b),
        b <= ptr < b + w.layout.slab_bytes,
        l.slab_bytes == w.layout.slab_bytes,
    ensures
        slab_around(l, pages.mapping(), ptr) == b,
        inspectable(l, pages.mapping(), pages.mem(), ptr),
{
    let map = pages.mapping();
    pages.book_in_order();
    lemma_slab_region(w, map, pages.mem(), pages.book(), b);
    let bytes = l.slab_bytes as int;
    let home = map.to_phys[b];
    assert(map.to_virt[home + 0] == b);
    lemma_fundamental_div_mod(home, bytes);
    lemma_fundamental_div_mod_converse(map.to_phys[ptr], bytes, home / bytes, ptr - b);
}

/// A pointer into a slab of another cache, with slabs of the same size, that
/// was not grown between the places where a cache grew its own, can be handed
/// to the cache wherever it is, and is rejected as a pointer of another cache
/// wherever the other one was not.
pub proof fn foreign_pointers_are_rejected<M: PhysMap>(
    v: CacheView,
    w: CacheView,
    pages: M,
    here: usize,
    b: int,
    ptr: int,
)
    requires
        pages.inv(),
        v.initialized(),
        w.initialized(),
        w.ok(pages.mapping(), pages.mem(), pages.book()),
        v.layout.slab_bytes == w.layout.slab_bytes,
        w.has(b),
        b <= ptr < b + w.layout.slab_bytes,
        !v.grew_at(w.slabs[b].owner),
    ensures
        may_free(v, pages, here, ptr),
        here != w.slabs[b].owner ==> rejection(v, pages, here, ptr) == Some(Error::CrossCacheFree),
{
    lemma_slab_inspectable(v.layout, w, pages, b, ptr);
    lemma_used_header(w, pages.mem(), b);
}

/// An object in use of another cache, with slabs of the same size, in a slab
/// that was not grown between the places where a cache grew its own, can be
/// handed to the cache wherever it is, and is rejected as a pointer of another
/// cache wherever the other one was not.
pub proof fn foreign_objects_are_rejected<M: PhysMap>(
    v: CacheView,
    w: CacheView,
    pages: M,
    here: usize,
    b: int,
    ptr: int,
)
    requires
        pages.inv(),
        v.initialized(),
        w.initialized(),
        w.ok(pages.mapping(), pages.mem(), pages.book()),
        v.layout.slab_bytes == w.layout.slab_bytes,
        w.lives(b, ptr),
        !v.grew_at(w.slabs[b].owner),
    ensures
        may_free(v, pages, here, ptr),
        here != w.slabs[b].owner ==> rejection(v, pages, here, ptr) == Some(Error::CrossCacheFree),
{
    lemma_grid_bounds(w.layout, b, ptr);
    foreign_pointers_are_rejected(v, w, pages, here, b, ptr);
}

/// A pointer into a slab that the page allocator did not take back is
/// rejected.
pub proof fn stranded_slabs_take_nothing_back<M: PhysMap>(v: CacheView, pages: M, here: usize, b: int, ptr: int)
    requires
        pages.inv(),
        v.initialized(),
        v.ok(pages.mapping(), pages.mem(), pages.book()),
        v.slabs.dom().contains(b),
        v.slabs[b].lost,
        b <= ptr < b + v.layout.slab_bytes,
    ensures
        may_free(v, pages, here, ptr),
        rejection(v, pages, here, ptr) == Some(Error::InvalidPointer),
{
    lemma_slab_inspectable(v.layout, v, pages, b, ptr);
    reveal(in_memory);
}

/// The object that was freed last in the active slab is handed out next, and
/// the two calls leave the state as it was.
pub proof fn allocating_undoes_freeing(v: CacheView, b: int, ptr: int)
    requires
        v.lives(b, ptr),
        v.current == Some(b),
        v.structure_ok(),
    ensures
        ({
            let given = v.given(b, ptr);
            &&& given.reachable(b) == given
            &&& given.ready()
            &&& given.slabs[b].free[0] == ptr
            &&& given.taken(b) == v
        }),
{
    let given = v.given(b, ptr);
    assert((seq![ptr] + v.slabs[b].free).drop_first() =~= v.slabs[b].free);
}

/// Every object of a slab is either free or in use, and the slab counts the
/// ones in use.
pub proof fn slabs_count_their_objects(v: CacheView, mem: Map<int, u8>, b: int)
    requires
        v.structure_ok(),
        v.memory_ok(mem),
        v.layout.ok(header_bytes()),
        v.has(b),
    ensures
        Set::new(|ptr: int| v.lives(b, ptr)).finite(),
        Set::new(|ptr: int| v.lives(b, ptr)).len() == v.inuse(b),
{
    let l = v.layout;
    let free = v.slabs[b].free;
    lemma_slab_free_list(v, mem, b);
    let used = Set::new(|ptr: int| v.lives(b, ptr));
    let all = Seq::new(l.objects as nat, |i: int| l.object_at(b, i));
    assert forall|i: int, j: int| 0 <= i < all.len() && 0 <= j < all.len() && i != j implies all[i] != all[j] by {
        lemma_object_on_grid(l, b, i);
        lemma_object_on_grid(l, b, j);
    }
    all.unique_seq_to_set();
    free.unique_seq_to_set();
    assert forall|p: int| all.to_set().contains(p) <==> l.on_grid(b, p) by {
        if all.to_set().contains(p) {
            let i = all.index_of(p);
            lemma_object_on_grid(l, b, i);
        }
        if l.on_grid(b, p) {
            lemma_grid_bounds(l, b, p);
            let i = position(l, b, p);
            lemma_fundamental_div_mod(p - b - l.first_offset, l.stride as int);
            assert(0 <= i) by (nonlinear_arith)
                requires
                    p - b - l.first_offset == l.stride * i,
                    0 <= p - b - l.first_offset,
                    0 < l.stride,
            ;
            assert(all[i] == p);
        }
    }
    assert forall|p: int| free.to_set().contains(p) implies all.to_set().contains(p) by {
        let i = free.index_of(p);
    }
    assert(used =~= all.to_set().difference(free.to_set()));
    lemma_set_disjoint_lens(used, free.to_set());
    assert(used.union(free.to_set()) =~= all.to_set());
}

/// No slab has been refused by the page allocator.
pub open spec fn settled(v: CacheView) -> bool {
    forall|b: int| #[trigger] v.slabs.dom().contains(b) ==> !v.slabs[b].lost
}

/// No object is in use, and no slab has been refused by the page allocator.
pub open spec fn idle(v: CacheView) -> bool {
    &&& settled(v)
    &&& forall|b: int, ptr: int| !#[trigger] v.lives(b, ptr)
}

/// A cache without objects in use can find all its slabs, and all their
/// objects are free.
proof fn lemma_idle(v: CacheView, map: Mapping, mem: Map<int, u8>, book: Book, b: int)
    requires
        v.ok(map, mem, book),
        idle(v),
        v.slabs.dom().contains(b),
    ensures
        v.initialized(),
        v.inuse(b) == 0,
        v.slabs[b].free.len() == v.layout.objects,
        v.current == Some(b) || v.links(b),
{
    slabs_count_their_objects(v, mem, b);
    assert(Set::new(|ptr: int| v.lives(b, ptr)) =~= Set::empty());
}

/// Once all objects are freed, every object counts as free.
pub proof fn idle_caches_have_all_objects_free(v: CacheView, map: Mapping, mem: Map<int, u8>, book: Book)
    requires
        v.ok(map, mem, book),
        idle(v),
    ensures
        total_free(v.slabs) == v.layout.objects * v.slabs.dom().len(),
{
    assert forall|b: int| #[trigger] v.slabs.dom().contains(b) implies v.slabs[b].free.len() == v.layout.objects by {
        lemma_idle(v, map, mem, book, b);
    }
    lemma_total_free_equal(v.slabs, v.layout.objects as nat);
}

proof fn lemma_total_free_equal(slabs: Map<int, Slab>, each: nat)
    requires
        slabs.dom().finite(),
        forall|b: int| #[trigger] slabs.dom().contains(b) ==> slabs[b].free.len() == each,
    ensures
        total_free(slabs) == each * slabs.dom().len(),
    decreases slabs.dom().len(),
{
    if slabs.dom().len() == 0 {
    } else {
        let b = slabs.dom().choose();
        let rest = slabs.remove(b);
        let n = rest.dom().len() as int;
        lemma_total_free_split(slabs, b);
        lemma_total_free_equal(rest, each);
        assert(each * n + each == each * (n + 1)) by (nonlinear_arith);
    }
}

/// Once all objects are freed, shrinking the cache releases everything.
pub proof fn shrinking_an_idle_cache_releases_everything(
    v: CacheView,
    map: Mapping,
    mem: Map<int, u8>,
    old_book: Book,
    book: Book,
)
    requires
        v.ok(map, mem, old_book),
        idle(v),
        returned(map, old_book, book, v, v.shrunk()),
    ensures
        v.shrunk().slabs == Map::<int, Slab>::empty(),
        v.shrunk().slabs.dom().len() == 0,
        forall|b: int| #[trigger] v.slabs.dom().contains(b) ==> !book.blocks.dom().contains(map.to_phys[b]),
{
    assert forall|b: int| !v.shrunk().slabs.dom().contains(b) by {
        if v.slabs.dom().contains(b) {
            lemma_idle(v, map, mem, old_book, b);
            assert(v.partial.take(v.partial.len() as int) =~= v.partial);
        }
    }
    assert(v.shrunk().slabs =~= Map::<int, Slab>::empty());
    lemma_blocks_gone(v, v.shrunk(), map, mem, old_book, book);
}

/// A cache that has no slab any more holds no block.
proof fn lemma_blocks_gone(v: CacheView, w: CacheView, map: Mapping, mem: Map<int, u8>, old_book: Book, book: Book)
    requires
        v.ok(map, mem, old_book),
        w.slabs == Map::<int, Slab>::empty(),
        returned(map, old_book, book, v, w),
    ensures
        forall|b: int| #[trigger] v.slabs.dom().contains(b) ==> !book.blocks.dom().contains(map.to_phys[b]),
{
    assert forall|b: int| #[trigger] v.slabs.dom().contains(b) implies !book.blocks.dom().contains(map.to_phys[b]) by {}
}

/// Once all objects are freed, destroying the cache releases everything.
pub proof fn destroying_an_idle_cache_releases_everything<M: PhysMap>(v: CacheView, old_pages: M, pages: M)
    requires
        v.ok(old_pages.mapping(), old_pages.mem(), old_pages.book()),
        idle(v),
        destroy_outcome(v, old_pages, pages, Ok(())),
    ensures
        forall|b: int| #[trigger] v.slabs.dom().contains(b) ==> !pages.book().blocks.dom().contains(
            old_pages.mapping().to_phys[b],
        ),
{
    shrinking_an_idle_cache_releases_everything(
        v,
        old_pages.mapping(),
        old_pages.mem(),
        old_pages.book(),
        pages.book(),
    );
}

/// An object that is in use when its cache is destroyed keeps its memory: the
/// block of its slab stays out, and the object keeps its bytes.
pub proof fn destroying_keeps_objects<M: PhysMap>(
    v: CacheView,
    old_pages: M,
    pages: M,
    result: Result<(), Error>,
    b: int,
    q: int,
)
    requires
        v.ok(old_pages.mapping(), old_pages.mem(), old_pages.book()),
        destroy_outcome(v, old_pages, pages, result),
        v.lives(b, q),
    ensures
        pages.book().blocks.dom().contains(old_pages.mapping().to_phys[b]),
        same_bytes(old_pages.mem(), pages.mem(), q, v.layout.stride as int),
{
    let map = old_pages.mapping();
    let rest = choose|rest: CacheView| {
        &&& #[trigger] shrink_outcome(v, rest, map, old_pages.book(), result)
        &&& returned(map, old_pages.book(), pages.book(), v, rest)
        &&& framed(old_pages, pages, v, rest, None)
    };
    shrinking_keeps_objects(v, rest, map, old_pages.mem(), old_pages.book(), result, b, q);
    lemma_grid_bounds(v.layout, b, q);
}

/// An object that has been taken back is not in use any more.
pub proof fn freed_objects_are_not_in_use<M: PhysMap>(
    old: CacheView,
    new: CacheView,
    old_pages: M,
    pages: M,
    here: usize,
    ptr: int,
    result: Result<(), Error>,
    c: int,
)
    requires
        old_pages.inv(),
        old.ok(old_pages.mapping(), old_pages.mem(), old_pages.book()),
        may_free(old, old_pages, here, ptr),
        !rejects(old, old_pages, here, ptr),
        free_outcome(old, new, old_pages, pages, here, ptr, result),
    ensures
        !new.lives(c, ptr),
{
    let map = old_pages.mapping();
    let slab = slab_around(old.layout, map, ptr);
    let free = seq![ptr] + old.slabs[slab].free;
    old_pages.book_in_order();
    assert(free[0] == ptr);
    if new.lives(c, ptr) && c != slab {
        lemma_slabs_apart(old, map, old_pages.mem(), old_pages.book(), slab, c);
        lemma_grid_bounds(old.layout, slab, ptr);
        lemma_grid_bounds(old.layout, c, ptr);
    }
}

/// A slab that an object goes back to is kept without objects in use only
/// while it is the active slab, or in a partial list that is no longer than
/// `min_partial`; otherwise it goes back to the page allocator.
pub proof fn empty_slabs_are_kept_within_min_partial<M: PhysMap>(
    old: CacheView,
    new: CacheView,
    old_pages: M,
    pages: M,
    here: usize,
    ptr: int,
    result: Result<(), Error>,
)
    requires
        old.structure_ok(),
        may_free(old, old_pages, here, ptr),
        !rejects(old, old_pages, here, ptr),
        free_outcome(old, new, old_pages, pages, here, ptr, result),
    ensures
        ({
            let slab = slab_around(old.layout, old_pages.mapping(), ptr);
            &&& new.has(slab) && new.inuse(slab) == 0 ==> {
                ||| new.current == Some(slab)
                ||| new.links(slab) && new.partial.len() <= new.min_partial
            }
            &&& !new.has(slab) && result is Ok ==> !pages.book().blocks.dom().contains(
                old_pages.mapping().to_phys[slab],
            )
        }),
{
    let slab = slab_around(old.layout, old_pages.mapping(), ptr);
    let given = old.given(slab, ptr);
}

/// An allocation strands no slab.
pub proof fn allocating_strands_nothing<PA: PageAlloc>(
    old: CacheView,
    new: CacheView,
    old_pages: PA,
    pages: PA,
    here: usize,
    result: Result<usize, Error>,
)
    requires
        old.structure_ok(),
        settled(old),
        alloc_outcome(old, new, old_pages, pages, here, result),
    ensures
        settled(new),
{
}

/// Freeing an object strands no slab if the page allocator takes back the
/// slabs of the cache, and fails only where the pointer is rejected.
pub proof fn freeing_strands_nothing<M: PhysMap>(
    old: CacheView,
    new: CacheView,
    old_pages: M,
    pages: M,
    here: usize,
    ptr: int,
    result: Result<(), Error>,
)
    requires
        old.structure_ok(),
        settled(old),
        may_free(old, old_pages, here, ptr),
        free_outcome(old, new, old_pages, pages, here, ptr, result),
        forall|b: int| #[trigger] old.slabs.dom().contains(b) ==> !old_pages.book().stuck.dom().contains(
            old_pages.mapping().to_phys[b],
        ),
    ensures
        settled(new),
        result is Err <==> rejects(old, old_pages, here, ptr),
{
}

/// Shrinking a cache strands no slab and succeeds if the page allocator takes
/// back the slabs of the cache.
pub proof fn shrinking_strands_nothing(
    old: CacheView,
    new: CacheView,
    map: Mapping,
    book: Book,
    result: Result<(), Error>,
)
    requires
        old.structure_ok(),
        old.initialized(),
        settled(old),
        shrink_outcome(old, new, map, book, result),
        forall|b: int| #[trigger] old.slabs.dom().contains(b) ==> !book.stuck.dom().contains(map.to_phys[b]),
    ensures
        settled(new),
        result is Ok,
{
    assert forall|i: int| 0 <= i < old.partial.len() implies old.slabs.dom().contains(#[trigger] old.partial[i]) by {}
}

/// What stays in a cache after shrinking has objects in use.
pub proof fn shrinking_keeps_only_used_slabs(v: CacheView, b: int)
    requires
        v.structure_ok(),
        v.balanced(),
        v.initialized(),
        v.layout.objects > 0,
        v.shrunk().has(b),
    ensures
        v.shrunk().inuse(b) > 0,
        v.shrunk().slabs[b] == v.slabs[b],
{
    assert(v.partial.take(v.partial.len() as int) =~= v.partial);
}

/// The free objects of the slabs in `list`.
pub open spec fn sum_free(slabs: Map<int, Slab>, list: Seq<int>) -> int
    decreases list.len(),
{
    if list.len() == 0 {
        0
    } else {
        slabs[list[0]].free.len() + sum_free(slabs, list.drop_first())
    }
}

proof fn lemma_sum_other(slabs: Map<int, Slab>, list: Seq<int>, b: int)
    requires
        !list.contains(b),
    ensures
        sum_free(slabs.remove(b), list) == sum_free(slabs, list),
    decreases list.len(),
{
    if list.len() > 0 {
        let rest = list.drop_first();
        assert(!rest.contains(b));
        lemma_sum_other(slabs, rest, b);
    }
}

/// If no other slab has a free object, the slabs in `list` have them all.
proof fn lemma_total_is_sum(slabs: Map<int, Slab>, list: Seq<int>)
    requires
        slabs.dom().finite(),
        list.no_duplicates(),
        forall|i: int| 0 <= i < list.len() ==> slabs.dom().contains(#[trigger] list[i]),
        forall|b: int| #[trigger] slabs.dom().contains(b) && !list.contains(b) ==> slabs[b].free.len() == 0,
    ensures
        total_free(slabs) == sum_free(slabs, list),
    decreases list.len(),
{
    if list.len() == 0 {
        lemma_total_free_bound(slabs, 0);
    } else {
        let b = list[0];
        let rest = list.drop_first();
        lemma_removed(list, 0);
        lemma_total_free_split(slabs, b);
        let less = slabs.remove(b);
        assert forall|i: int| 0 <= i < rest.len() implies less.dom().contains(#[trigger] rest[i]) by {}
        lemma_total_is_sum(less, rest);
        lemma_sum_other(slabs, rest, b);
    }
}

/// The free list of a consistent slab is sound.
proof fn lemma_chain_ok(v: CacheView, map: Mapping, mem: Map<int, u8>, book: Book, b: int, i: int)
    requires
        v.initialized(),
        v.ok(map, mem, book),
        book_ok(map, mem, book),
        v.has(b),
        0 <= i <= v.slabs[b].free.len(),
    ensures
        ({
            let free = v.slabs[b].free;
            let node = if i < free.len() { Some(free[i] as usize) } else { None };
            &&& chain(v.layout, map, mem, b, node, i) == Ok::<int, Error>(free.len() as int)
            &&& chain_safe(v.layout, map, mem, b, node, i)
        }),
    decreases v.slabs[b].free.len() - i,
{
    let free = v.slabs[b].free;
    lemma_used_header(v, mem, b);
    if i < free.len() {
        let o = free[i];
        lemma_object_address(v, map, mem, book, b, o);
        if i + 1 < free.len() {
            lemma_object_address(v, map, mem, book, b, free[i + 1]);
        }
        lemma_chain_ok(v, map, mem, book, b, i + 1);
    }
}

/// A consistent slab passes validation where its cache grew it, and only there.
proof fn lemma_slab_valid(v: CacheView, map: Mapping, mem: Map<int, u8>, book: Book, here: usize, b: int)
    requires
        v.initialized(),
        v.ok(map, mem, book),
        book_ok(map, mem, book),
        v.has(b),
    ensures
        readable(mem, b),
        slab_safe(v.layout, map, mem, here, b),
        slab_verdict(v.layout, map, mem, here, b) == (if here == v.slabs[b].owner {
            Ok::<int, Error>(v.slabs[b].free.len() as int)
        } else {
            Err(Error::CorruptSlab)
        }),
        header_at(mem, b).on_partial == v.links(b),
        0 < b <= usize::MAX,
{
    lemma_used_header(v, mem, b);
    lemma_slab_region(v, map, mem, book, b);
    lemma_chain_ok(v, map, mem, book, b, 0);
}

/// The slabs in `list` were grown while the cache was at `here`.
pub open spec fn all_grown_at(v: CacheView, list: Seq<int>, here: usize) -> bool {
    forall|i: int| 0 <= i < list.len() ==> v.slabs[#[trigger] list[i]].owner == here
}

/// The partial list of a consistent cache is sound.
proof fn lemma_walk_ok(
    v: CacheView,
    map: Mapping,
    mem: Map<int, u8>,
    book: Book,
    here: usize,
    i: int,
    total: int,
)
    requires
        v.initialized(),
        v.ok(map, mem, book),
        book_ok(map, mem, book),
        0 <= i <= v.partial.len(),
    ensures
        ({
            let list = v.partial;
            let most = v.slabs.dom().len() as int;
            let node = if i < list.len() { Some(list[i] as usize) } else { None };
            let prev = before(list, i);
            &&& walk_safe(v.layout, map, mem, here, most, node, prev, i)
            &&& walk(v.layout, map, mem, here, most, node, prev, i, total) == (if all_grown_at(v, list.skip(i), here) {
                Ok::<(int, int), Error>((list.len() as int, total + sum_free(v.slabs, list.skip(i))))
            } else {
                Err(Error::CorruptSlab)
            })
        }),
    decreases v.partial.len() - i,
{
    let list = v.partial;
    lemma_partial_len(v);
    if i < list.len() {
        let b = list[i];
        lemma_linked_header(v, mem, i);
        lemma_slab_valid(v, map, mem, book, here, b);
        if i > 0 {
            lemma_slab_region(v, map, mem, book, list[i - 1]);
        }
        if i + 1 < list.len() {
            lemma_slab_region(v, map, mem, book, list[i + 1]);
        }
        let free = v.slabs[b].free.len() as int;
        lemma_walk_ok(v, map, mem, book, here, i + 1, total + free);
        assert(list.skip(i).drop_first() =~= list.skip(i + 1));
        assert(list.skip(i)[0] == b);
        assert forall|k: int| 0 <= k < list.skip(i + 1).len() implies #[trigger] list.skip(i + 1)[k] == list.skip(i)[k
            + 1] by {}
        if all_grown_at(v, list.skip(i + 1), here) && v.slabs[b].owner == here {
            assert forall|k: int| 0 <= k < list.skip(i).len() implies v.slabs[#[trigger] list.skip(i)[k]].owner == here by {
                if k > 0 {
                    assert(list.skip(i + 1)[k - 1] == list.skip(i)[k]);
                }
            }
        }
    }
}

/// A consistent cache can be validated wherever it is.
pub proof fn validation_is_safe(v: CacheView, map: Mapping, mem: Map<int, u8>, book: Book, here: usize)
    requires
        v.ok(map, mem, book),
        book_ok(map, mem, book),
    ensures
        verdict_safe(v, map, mem, here),
{
    if v.initialized() {
        if let Some(c) = v.current {
            lemma_slab_valid(v, map, mem, book, here, c);
        }
        lemma_walk_ok(v, map, mem, book, here, 0, 0);
    }
}

/// A consistent cache is valid where it grew the slabs that can be found,
/// unless the page allocator refused to take back a slab with free objects,
/// which the cache cannot find any more. Elsewhere it finds them corrupt.
pub proof fn consistent_caches_are_valid(v: CacheView, map: Mapping, mem: Map<int, u8>, book: Book, here: usize)
    requires
        v.initialized(),
        v.ok(map, mem, book),
        book_ok(map, mem, book),
        forall|b: int| #[trigger] v.slabs.dom().contains(b) && v.slabs[b].lost ==> v.slabs[b].free.len() == 0,
    ensures
        verdict(v, map, mem, here) == (if all_grown_at(v, v.found(), here) {
            Ok::<(), Error>(())
        } else {
            Err::<(), Error>(Error::CorruptSlab)
        }),
{
    let list = v.found();
    lemma_partial_len(v);
    let free = match v.current {
        Some(c) => {
            lemma_slab_valid(v, map, mem, book, here, c);
            v.slabs[c].free.len() as int
        },
        None => 0,
    };
    lemma_walk_ok(v, map, mem, book, here, 0, free);
    assert(v.partial.skip(0) =~= v.partial);
    if let Some(c) = v.current {
        lemma_pushed(v.partial, c);
        assert(list.drop_first() =~= v.partial);
        assert(list[0] == c);
        assert forall|i: int| 0 <= i < v.partial.len() implies list[i + 1] == #[trigger] v.partial[i] by {}
        if v.slabs[c].owner == here && all_grown_at(v, v.partial, here) {
            assert forall|i: int| 0 <= i < list.len() implies v.slabs[#[trigger] list[i]].owner == here by {
                if i > 0 {
                    assert(list[i] == v.partial[i - 1]);
                }
            }
        }
    }
    assert forall|i: int| 0 <= i < list.len() implies v.slabs.dom().contains(#[trigger] list[i]) by {}
    assert forall|b: int| #[trigger] v.slabs.dom().contains(b) && !list.contains(b) implies v.slabs[b].free.len() == 0 by {}
    lemma_total_is_sum(v.slabs, list);
}

/// An object that is in use stays in use when the cache is shrunk.
pub proof fn shrinking_keeps_objects(
    old: CacheView,
    new: CacheView,
    map: Mapping,
    mem: Map<int, u8>,
    book: Book,
    result: Result<(), Error>,
    b: int,
    q: int,
)
    requires
        old.ok(map, mem, book),
        shrink_outcome(old, new, map, book, result),
        old.lives(b, q),
    ensures
        new.lives(b, q),
        new.layout == old.layout,
        new.slabs[b] == old.slabs[b],
{
    if old.initialized() {
        live_objects_are_counted(old, mem, b, q);
    }
}

/// Shrinking adds no slab.
pub proof fn shrinking_adds_no_slab(
    old: CacheView,
    new: CacheView,
    map: Mapping,
    book: Book,
    result: Result<(), Error>,
    b: int,
)
    requires
        shrink_outcome(old, new, map, book, result),
        old.structure_ok(),
        new.slabs.dom().contains(b),
    ensures
        old.slabs.dom().contains(b),
{
    if old.initialized() && result is Err {
        if !(old.current matches Some(c) && new == old.with_current(None).stranded(c)) {
            let k = choose|k: int| {
                &&& 0 <= k < old.partial.len()
                &&& old.inuse(old.partial[k]) == 0
                &&& book.stuck.dom().contains(map.to_phys[old.partial[k]])
                &&& result == Err::<(), Error>(book.stuck[map.to_phys[old.partial[k]]])
                &&& new == #[trigger] old.swept(k).unlinked(old.partial[k]).stranded(old.partial[k])
            };
        }
    }
}

/// The slabs of a cache after an allocation are those it had before, and at
/// most one in a fresh block.
pub proof fn allocating_adds_only_fresh_slabs<PA: PageAlloc>(
    v: CacheView,
    w: CacheView,
    old_pages: PA,
    pages: PA,
    here: usize,
    result: Result<usize, Error>,
)
    requires
        v.structure_ok(),
        v.balanced(),
        alloc_outcome(v, w, old_pages, pages, here, result),
    ensures
        w.layout == v.layout,
        forall|b: int| #[trigger] w.slabs.dom().contains(b) ==> v.slabs.dom().contains(b)
            || !old_pages.book().blocks.dom().contains(old_pages.mapping().to_phys[b]),
{
}

/// A free adds no slab.
pub proof fn freeing_adds_no_slab<PA: PageAlloc>(
    v: CacheView,
    w: CacheView,
    old_pages: PA,
    pages: PA,
    here: usize,
    ptr: int,
    result: Result<(), Error>,
)
    requires
        v.structure_ok(),
        free_outcome(v, w, old_pages, pages, here, ptr, result),
        may_free(v, old_pages, here, ptr),
    ensures
        w.layout == v.layout,
        forall|b: int| #[trigger] w.slabs.dom().contains(b) ==> v.slabs.dom().contains(b),
{
}

} // verus!
