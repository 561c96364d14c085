//! How the steps of an operation of a cache change its state.

use vstd::prelude::*;

use crate::header::header_bytes;
use crate::lists::lemma_pushed;
use crate::lists::lemma_removed;
use crate::memory::lemma_word_fits;
use crate::model::in_memory;
use crate::model::lemma_slab_count;
use crate::model::lemma_slab_region;
use crate::model::returned;
use crate::model::total_free;
use crate::model::CacheView;
use crate::model::Slab;
use crate::outcome::fresh_block;
use crate::pages::block_bytes;
use crate::pages::book_ok;
use crate::pages::Book;
use crate::pages::Mapping;
use crate::pages::PhysMap;

verus! {

/// The objects of `n` slabs are those of `n - 1` slabs and of one more.
pub proof fn lemma_count_split(objects: int, n: int)
    ensures
        objects * n == objects * (n - 1) + objects,
{
    assert(objects * n == objects * (n - 1) + objects) by (nonlinear_arith);
}

/// A balanced state whose active slab is full stays balanced when the first
/// slab of the partial list takes its place.
pub proof fn lemma_promoted_balanced(v: CacheView)
    requires
        v.structure_ok(),
        v.balanced(),
        !v.ready(),
        v.partial.len() > 0,
    ensures
        v.promoted().balanced(),
        v.promoted().ready(),
{
    let new = v.promoted();
    lemma_removed(v.partial, 0);
    assert forall|i: int| 0 <= i < new.partial.len() implies new.slabs[#[trigger] new.partial[i]].free.len() > 0 by {}
    assert forall|b: int| #[trigger] new.slabs.dom().contains(b) && !new.slabs[b].lost && !new.links(b)
        && new.current != Some(b) implies new.slabs[b].free.len() == 0 by {}
}

/// A balanced state stays balanced when an empty slab leaves it.
pub proof fn lemma_detached_balanced(w: CacheView, b: int)
    requires
        w.structure_ok(),
        w.has(b),
        w.current != Some(b),
        forall|i: int| 0 <= i < w.partial.len() ==> w.slabs[#[trigger] w.partial[i]].free.len() > 0,
        forall|c: int| #[trigger] w.slabs.dom().contains(c) && c != b && !w.slabs[c].lost && !w.links(c) && w.current
            != Some(c) ==> w.slabs[c].free.len() == 0,
    ensures
        w.detached(b).released(b).balanced(),
        w.detached(b).stranded(b).balanced(),
{
    let x = w.detached(b);
    if w.links(b) {
        let at = w.partial.index_of(b);
        lemma_removed(w.partial, at);
        assert forall|i: int| 0 <= i < x.partial.len() implies x.slabs[#[trigger] x.partial[i]].free.len() > 0
            && x.partial[i] != b by {
            let j = if i < at { i } else { i + 1 };
        }
    } else {
        assert forall|i: int| 0 <= i < x.partial.len() implies #[trigger] x.partial[i] != b by {}
    }
    assert forall|c: int| #[trigger] w.slabs.dom().contains(c) && c != b && !w.slabs[c].lost && !x.links(c)
        && w.current != Some(c) implies w.slabs[c].free.len() == 0 by {}
}

/// A state whose only unreachable slab with free objects is `b` is balanced
/// once the partial list holds `b`.
pub proof fn lemma_linked_balanced(w: CacheView, b: int)
    requires
        w.structure_ok(),
        w.has(b),
        !w.links(b),
        w.slabs[b].free.len() > 0,
        forall|i: int| 0 <= i < w.partial.len() ==> w.slabs[#[trigger] w.partial[i]].free.len() > 0,
        forall|c: int| #[trigger] w.slabs.dom().contains(c) && c != b && !w.slabs[c].lost && !w.links(c) && w.current
            != Some(c) ==> w.slabs[c].free.len() == 0,
    ensures
        w.linked(b).balanced(),
{
    let x = w.linked(b);
    lemma_pushed(w.partial, b);
    assert forall|i: int| 0 <= i < x.partial.len() implies x.slabs[#[trigger] x.partial[i]].free.len() > 0 by {}
}

/// With the state, the page allocator's blocks stay.
pub proof fn lemma_returned_none(map: Mapping, book: Book, v: CacheView)
    ensures
        returned(map, book, book, v, v),
{
    assert(book.blocks =~= book.blocks.remove_keys(
        Set::new(|a: int| v.slabs.dom().contains(map.to_virt[a]) && !v.slabs.dom().contains(map.to_virt[a])),
    ));
}

/// Looking at the active slab alone.
pub proof fn lemma_swept_none(v: CacheView)
    requires
        v.structure_ok(),
    ensures
        v.swept(0) == (if v.current matches Some(c) && v.inuse(c) == 0 {
            v.with_current(None).released(v.current->0)
        } else {
            v
        }),
        v.partial.skip(0) == v.partial,
{
    reveal(Seq::filter);
}

/// A slab of a cache is at a usable address.
pub proof fn lemma_list_address(v: CacheView, map: Mapping, mem: Map<int, u8>, book: Book, b: int)
    requires
        v.placed_ok(map, book),
        v.initialized(),
        book_ok(map, mem, book),
        v.slabs.dom().contains(b),
    ensures
        0 < b <= usize::MAX,
{
    lemma_slab_region(v, map, mem, book, b);
}

/// A block that was out before is not the fresh one.
pub proof fn lemma_fresh_apart<M: PhysMap>(old_pages: M, pages: M, order: u8, b: int)
    requires
        pages.inv(),
        fresh_block(pages.mapping(), old_pages.book(), pages.book(), order, b),
    ensures
        forall|a: int| #[trigger] old_pages.book().blocks.dom().contains(a) ==> pages.mapping().to_virt[a] != b,
{
    pages.book_in_order();
    assert forall|a: int| #[trigger] old_pages.book().blocks.dom().contains(a) implies pages.mapping().to_virt[a] != b by {
        assert(pages.book().blocks.dom().contains(a));
    }
}

/// More slabs have more objects.
pub proof fn lemma_count_grows(objects: int, low: int, high: int)
    requires
        0 <= objects,
        low <= high,
    ensures
        objects * low <= objects * high,
{
    assert(objects * low <= objects * high) by (nonlinear_arith)
        requires
            0 <= objects,
            low <= high,
    ;
}

/// The free objects of all slabs and of two more can be counted.
pub proof fn lemma_count_room(v: CacheView, map: Mapping, mem: Map<int, u8>, book: Book)
    requires
        v.structure_ok(),
        v.placed_ok(map, book),
        v.initialized(),
        book_ok(map, mem, book),
    ensures
        v.layout.objects * (v.slabs.dom().len() + 2) <= usize::MAX,
{
    lemma_slab_count(v, map, mem, book);
    lemma_word_fits();
    let n = v.slabs.dom().len() as int;
    let objects = v.layout.objects as int;
    let stride = v.layout.stride as int;
    let bytes = v.layout.slab_bytes as int;
    assert(4 * objects <= bytes) by (nonlinear_arith)
        requires
            0 <= objects,
            4 <= stride,
            objects * stride <= bytes,
    ;
    assert(4 * (objects * (n + 2)) <= n * bytes + 2 * bytes) by (nonlinear_arith)
        requires
            4 * objects <= bytes,
            0 <= n,
    ;
}

/// Without slabs there are no objects.
pub proof fn lemma_no_slabs(slabs: Map<int, Slab>, objects: int)
    requires
        slabs == Map::<int, Slab>::empty(),
    ensures
        slabs.dom().finite(),
        slabs.dom().len() == 0,
        total_free(slabs) == 0,
        objects * slabs.dom().len() == 0,
{
}

/// A state without slabs is consistent with every memory.
pub proof fn lemma_fresh_ok(v: CacheView, map: Mapping, mem: Map<int, u8>, book: Book)
    requires
        v.slabs == Map::<int, Slab>::empty(),
        v.current is None,
        v.partial.len() == 0,
        v.initialized() ==> {
            &&& v.layout.ok(header_bytes())
            &&& v.layout.slab_bytes == block_bytes(book.page_size as int, v.layout.order)
        },
    ensures
        v.ok(map, mem, book),
{
    reveal(in_memory);
}

} // verus!
