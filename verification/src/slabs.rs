//! The slabs of a cache in memory: what growing and releasing one does to
//! the state of the cache.

use vstd::prelude::*;

use crate::header::header_at;
use crate::header::header_bytes;
use crate::header::lemma_header_same;
use crate::memory::same_but;
use crate::memory::same_bytes;
use crate::model::after;
use crate::model::before;
use crate::model::in_memory;
use crate::model::lemma_kept_links;
use crate::model::lemma_memory_same;
use crate::model::lemma_slab_region;
use crate::model::lemma_write_in_slab;
use crate::model::objects_kept;
use crate::model::placed;
use crate::model::rest_kept;
use crate::model::slab_ok;
use crate::model::CacheView;
use crate::objects::lemma_slab_untouched;
use crate::pages::block_bytes;
use crate::pages::book_ok;
use crate::pages::kept;
use crate::pages::Book;
use crate::pages::Mapping;

verus! {

/// Each slab but the one at `b` keeps its bytes and its place.
pub open spec fn others_kept(
    v: CacheView,
    map: Mapping,
    book: Book,
    old_mem: Map<int, u8>,
    mem: Map<int, u8>,
    b: int,
) -> bool {
    forall|c: int| #[trigger] v.slabs.dom().contains(c) && c != b ==> {
        &&& same_bytes(old_mem, mem, c, v.layout.slab_bytes as int)
        &&& placed(map, book, v.layout.order, c)
    }
}

/// A cache that loses the slab at `b` stays consistent.
pub proof fn lemma_slab_gone(
    v: CacheView,
    new: CacheView,
    map: Mapping,
    book: Book,
    old_book: Book,
    old_mem: Map<int, u8>,
    mem: Map<int, u8>,
    b: int,
)
    requires
        v.initialized(),
        v.core_ok(map, old_mem, old_book),
        v.has(b),
        !v.links(b),
        v.current != Some(b),
        others_kept(v, map, book, old_mem, mem, b),
        book.page_size == old_book.page_size,
        new == v.released(b) || (new == v.stranded(b) && placed(map, book, v.layout.order, b) && header_at(mem, b).magic
            == 0),
    ensures
        new.core_ok(map, mem, book),
{
    assert forall|c: int| #[trigger] new.slabs.dom().contains(c) && c != b implies v.slabs.dom().contains(c)
        && new.slabs[c] == v.slabs[c] by {}
    assert forall|i: int| 0 <= i < new.partial.len() implies new.has(#[trigger] new.partial[i]) && slab_ok(
        mem,
        new.layout,
        new.partial[i],
        new.slabs[new.partial[i]],
        true,
        after(new.partial, i),
        before(new.partial, i),
    ) by {
        reveal(in_memory);
        let c = v.partial[i];
        lemma_slab_untouched(v, old_mem, mem, c, true, after(v.partial, i), before(v.partial, i));
    }
    assert forall|c: int| #[trigger] new.slabs.dom().contains(c) && !new.slabs[c].lost && !new.links(c) implies slab_ok(
        mem,
        new.layout,
        c,
        new.slabs[c],
        false,
        None,
        None,
    ) by {
        reveal(in_memory);
        lemma_slab_untouched(v, old_mem, mem, c, false, None, None);
    }
    assert forall|c: int| #[trigger] new.slabs.dom().contains(c) && new.slabs[c].lost implies header_at(mem, c).magic
        == 0 by {
        reveal(in_memory);
        if c != b {
            lemma_header_same(old_mem, mem, c);
        }
    }
    assert(new.memory_ok(mem)) by {
        reveal(in_memory);
    }
}

/// What a write to the slab at `b` and a call of the page allocator keep.
pub proof fn lemma_release_frame(
    v: CacheView,
    map: Mapping,
    book: Book,
    old_book: Book,
    mem0: Map<int, u8>,
    mem1: Map<int, u8>,
    mem2: Map<int, u8>,
    b: int,
)
    requires
        v.initialized(),
        v.core_ok(map, mem0, old_book),
        book_ok(map, mem0, old_book),
        v.has(b),
        same_but(mem0, mem1, b, header_bytes()),
        mem2.dom() == mem1.dom(),
        book.page_size == old_book.page_size,
        book.max_order == old_book.max_order,
        book.managed == old_book.managed,
        kept(map, book.page_size as int, book.blocks, mem1, mem2),
        book.blocks == old_book.blocks || book.blocks == old_book.blocks.remove(map.to_phys[b]),
    ensures
        others_kept(v, map, book, mem0, mem2, b),
        rest_kept(map, old_book, book, mem0, mem2, v.slabs),
        objects_kept(v.layout, v.slabs, v.released(b).slabs, mem0, mem2, None),
        book.blocks == old_book.blocks ==> objects_kept(v.layout, v.slabs, v.stranded(b).slabs, mem0, mem2, None),
        placed(map, old_book, v.layout.order, b),
        book.blocks == old_book.blocks ==> placed(map, book, v.layout.order, b),
        book.blocks == old_book.blocks ==> header_at(mem2, b) == header_at(mem1, b),
{
    lemma_slab_region(v, map, mem0, old_book, b);
    lemma_write_in_slab(v, map, old_book, mem0, mem1, b, b, header_bytes());
    assert forall|c: int| #[trigger] v.slabs.dom().contains(c) && (c != b || book.blocks == old_book.blocks)
        implies same_bytes(mem1, mem2, c, v.layout.slab_bytes as int) && placed(map, book, v.layout.order, c) by {
        assert(book.blocks.dom().contains(map.to_phys[c]));
    }
    assert forall|c: int| #[trigger] v.slabs.dom().contains(c) && c != b implies same_bytes(
        mem0,
        mem2,
        c,
        v.layout.slab_bytes as int,
    ) by {
        assert forall|p: int| c <= p < c + v.layout.slab_bytes implies #[trigger] mem2[p] == mem0[p] by {}
    }
    assert forall|a: int, p: int| #![trigger old_book.blocks.dom().contains(a), mem2[p]]
        old_book.blocks.dom().contains(a) && !v.slabs.dom().contains(map.to_virt[a]) && map.to_virt[a] <= p
            < map.to_virt[a] + block_bytes(old_book.page_size as int, old_book.blocks[a]) implies mem2[p] == mem0[p] by {
        assert(book.blocks.dom().contains(a));
    }
    if book.blocks == old_book.blocks {
        lemma_header_same(mem1, mem2, b);
        assert forall|p: int| b + v.layout.first_offset <= p < b + v.layout.slab_bytes implies #[trigger] mem2[p]
            == mem0[p] by {}
    }
}

/// A cache that gains a slab at `b`, in the fresh block at `a`, stays
/// consistent.
pub proof fn lemma_slab_grown(
    v: CacheView,
    map: Mapping,
    book: Book,
    old_book: Book,
    mem0: Map<int, u8>,
    mem1: Map<int, u8>,
    mem2: Map<int, u8>,
    a: int,
    b: int,
    here: usize,
)
    requires
        v.initialized(),
        v.core_ok(map, mem0, old_book),
        book_ok(map, mem0, old_book),
        book_ok(map, mem2, book),
        book.page_size == old_book.page_size,
        book.max_order == old_book.max_order,
        book.managed == old_book.managed,
        !old_book.blocks.dom().contains(a),
        book.blocks == old_book.blocks.insert(a, v.layout.order),
        map.to_virt[a] == b,
        mem1.dom() == mem0.dom(),
        kept(map, book.page_size as int, old_book.blocks, mem0, mem1),
        same_but(mem1, mem2, b, v.layout.slab_bytes as int),
        slab_ok(mem2, v.layout, b, v.grown(b, here).slabs[b], false, None, None),
    ensures
        !v.slabs.dom().contains(b),
        v.grown(b, here).core_ok(map, mem2, book),
        rest_kept(map, old_book, book, mem0, mem2, v.slabs),
        objects_kept(v.layout, v.slabs, v.grown(b, here).slabs, mem0, mem2, None),
        placed(map, book, v.layout.order, b),
{
    let new = v.grown(b, here);
    assert(book.blocks.dom().contains(a));
    assert(!v.slabs.dom().contains(b));
    assert forall|d: int, p: int| #![trigger old_book.blocks.dom().contains(d), mem2[p]]
        old_book.blocks.dom().contains(d) && map.to_virt[d] <= p < map.to_virt[d] + block_bytes(
            old_book.page_size as int,
            old_book.blocks[d],
        ) implies mem2[p] == mem0[p] by {
        assert(book.blocks.dom().contains(d));
    }
    assert forall|c: int| #[trigger] v.slabs.dom().contains(c) implies placed(map, book, v.layout.order, c)
        && same_bytes(mem0, mem2, c, v.layout.slab_bytes as int) by {
        let d = map.to_phys[c];
    }
    assert forall|i: int| 0 <= i < new.partial.len() implies new.has(#[trigger] new.partial[i]) && slab_ok(
        mem2,
        new.layout,
        new.partial[i],
        new.slabs[new.partial[i]],
        true,
        after(new.partial, i),
        before(new.partial, i),
    ) by {
        reveal(in_memory);
        let c = v.partial[i];
        lemma_slab_untouched(v, mem0, mem2, c, true, after(v.partial, i), before(v.partial, i));
    }
    assert forall|c: int| #[trigger] new.slabs.dom().contains(c) && !new.slabs[c].lost && !new.links(c) implies slab_ok(
        mem2,
        new.layout,
        c,
        new.slabs[c],
        false,
        None,
        None,
    ) by {
        reveal(in_memory);
        if c != b {
            lemma_slab_untouched(v, mem0, mem2, c, false, None, None);
        }
    }
    assert forall|c: int| #[trigger] new.slabs.dom().contains(c) && new.slabs[c].lost implies header_at(mem2, c).magic
        == 0 by {
        reveal(in_memory);
        if c != b {
            lemma_header_same(mem0, mem2, c);
        }
    }
    assert(new.memory_ok(mem2)) by {
        reveal(in_memory);
    }
}

/// A cache stays as it is while the page allocator keeps its blocks.
pub proof fn lemma_pages_kept(
    v: CacheView,
    map: Mapping,
    book: Book,
    old_book: Book,
    old_mem: Map<int, u8>,
    mem: Map<int, u8>,
)
    requires
        v.core_ok(map, old_mem, old_book),
        book_ok(map, old_mem, old_book),
        mem.dom() == old_mem.dom(),
        book.page_size == old_book.page_size,
        book.max_order == old_book.max_order,
        book.managed == old_book.managed,
        book.blocks == old_book.blocks,
        kept(map, book.page_size as int, old_book.blocks, old_mem, mem),
    ensures
        v.core_ok(map, mem, book),
        rest_kept(map, old_book, book, old_mem, mem, v.slabs),
        objects_kept(v.layout, v.slabs, v.slabs, old_mem, mem, None),
{
    if v.initialized() {
        assert forall|b: int| #[trigger] v.slabs.dom().contains(b) implies {
            &&& old_book.blocks.dom().contains(map.to_phys[b])
            &&& old_book.blocks[map.to_phys[b]] == v.layout.order
            &&& placed(map, book, v.layout.order, b)
        } by {}
        lemma_kept_links(v, map, old_mem, mem, old_book, old_book.blocks);
        assert forall|b: int, p: int| #![trigger v.slabs.dom().contains(b), mem[p]]
            v.slabs.dom().contains(b) && b + v.layout.first_offset <= p < b + v.layout.slab_bytes
                implies mem[p] == old_mem[p] by {}
    }
    lemma_memory_same(v, old_mem, mem);
}

} // verus!
