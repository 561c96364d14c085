//! The objects of a slab in memory: what taking one and giving one back
//! does to the state of a cache.

use vstd::prelude::*;

use crate::header::header_at;
use crate::header::header_bytes;
use crate::header::lemma_header_same;
use crate::header::SlabHeader;
use crate::lists::lemma_pushed;
use crate::memory::lemma_word_same;
use crate::memory::pointer_at;
use crate::memory::same_but;
use crate::memory::same_bytes;
use crate::memory::word_bytes;
use crate::model::after;
use crate::model::before;
use crate::model::front;
use crate::model::in_memory;
use crate::model::lemma_grid_apart;
use crate::model::lemma_grid_bounds;
use crate::model::lemma_memory_same;
use crate::model::lemma_slab_free_list;
use crate::model::lemma_slab_region;
use crate::model::lemma_slab_same;
use crate::model::lemma_write_in_slab;
use crate::model::slab_ok;
use crate::model::CacheView;
use crate::model::Slab;
use crate::pages::book_ok;
use crate::pages::Book;
use crate::pages::Mapping;

verus! {

/// A slab in use, at a state of its free list, can be read off its header.
pub proof fn lemma_used_header(v: CacheView, mem: Map<int, u8>, b: int)
    requires
        v.structure_ok(),
        v.memory_ok(mem),
        v.has(b),
    ensures
        slab_ok(
            mem,
            v.layout,
            b,
            v.slabs[b],
            header_at(mem, b).on_partial,
            header_at(mem, b).next,
            header_at(mem, b).prev,
        ),
        header_at(mem, b).on_partial == v.links(b),
{
    reveal(in_memory);
    if v.links(b) {
        let i = v.partial.index_of(b);
        assert(slab_ok(
            mem,
            v.layout,
            v.partial[i],
            v.slabs[v.partial[i]],
            true,
            after(v.partial, i),
            before(v.partial, i),
        ));
    }
}

/// A slab that holds all its bytes keeps its state.
pub proof fn lemma_slab_untouched(
    v: CacheView,
    old_mem: Map<int, u8>,
    mem: Map<int, u8>,
    b: int,
    linked: bool,
    next: Option<usize>,
    prev: Option<usize>,
)
    requires
        v.layout.ok(header_bytes()),
        slab_ok(old_mem, v.layout, b, v.slabs[b], linked, next, prev),
        same_bytes(old_mem, mem, b, v.layout.slab_bytes as int),
    ensures
        slab_ok(mem, v.layout, b, v.slabs[b], linked, next, prev),
{
    assert(header_bytes() <= v.layout.slab_bytes);
    assert forall|i: int| 0 <= i < v.slabs[b].free.len() implies same_bytes(
        old_mem,
        mem,
        #[trigger] v.slabs[b].free[i],
        word_bytes(),
    ) by {
        lemma_grid_bounds(v.layout, b, v.slabs[b].free[i]);
    }
    lemma_slab_same(old_mem, mem, v.layout, b, v.slabs[b], linked, next, prev);
}

/// The slab at `b` goes to the state `s`, which its header and its free list
/// describe, and no other slab changes.
pub proof fn lemma_slab_changed(
    v: CacheView,
    map: Mapping,
    book: Book,
    old_mem: Map<int, u8>,
    mem: Map<int, u8>,
    b: int,
    s: Slab,
)
    requires
        v.initialized(),
        v.core_ok(map, old_mem, book),
        v.has(b),
        s.owner == v.slabs[b].owner,
        !s.lost,
        header_at(mem, b) == (SlabHeader {
            inuse: (v.layout.objects - s.free.len()) as usize,
            freelist: front(s.free),
            ..header_at(old_mem, b)
        }),
        s.free.len() <= v.layout.objects,
        s.free.no_duplicates(),
        forall|i: int| 0 <= i < s.free.len() ==> v.layout.on_grid(b, #[trigger] s.free[i]),
        forall|i: int| 0 <= i < s.free.len() ==> pointer_at(mem, #[trigger] s.free[i]) == after(s.free, i),
        forall|c: int| #[trigger] v.slabs.dom().contains(c) && c != b ==> same_bytes(
            old_mem,
            mem,
            c,
            v.layout.slab_bytes as int,
        ),
    ensures
        v.with_slab(b, s).core_ok(map, mem, book),
{
    let new = v.with_slab(b, s);
    lemma_used_header(v, old_mem, b);
    assert forall|i: int| 0 <= i < new.partial.len() implies slab_ok(
        mem,
        new.layout,
        #[trigger] new.partial[i],
        new.slabs[new.partial[i]],
        true,
        after(new.partial, i),
        before(new.partial, i),
    ) by {
        reveal(in_memory);
        let c = v.partial[i];
        if c != b {
            lemma_slab_untouched(v, old_mem, mem, c, true, after(v.partial, i), before(v.partial, i));
        }
    }
    assert forall|c: int| #[trigger] new.slabs.dom().contains(c) && !new.slabs[c].lost && !new.links(c) implies slab_ok(
        mem,
        new.layout,
        c,
        new.slabs[c],
        false,
        None,
        None,
    ) by {
        reveal(in_memory);
        if c != b {
            lemma_slab_untouched(v, old_mem, mem, c, false, None, None);
        }
    }
    assert forall|c: int| #[trigger] new.slabs.dom().contains(c) && new.slabs[c].lost implies header_at(mem, c).magic
        == 0 by {
        reveal(in_memory);
        if c != b {
            lemma_header_same(old_mem, mem, c);
        }
    }
    assert(new.memory_ok(mem)) by {
        reveal(in_memory);
    }
    assert(new.structure_ok()) by {
        assert forall|i: int| 0 <= i < new.partial.len() implies new.has(#[trigger] new.partial[i]) by {}
    }
}

/// An object of a slab in use is a usable address.
pub proof fn lemma_object_address(
    v: CacheView,
    map: Mapping,
    mem: Map<int, u8>,
    book: Book,
    b: int,
    ptr: int,
)
    requires
        v.placed_ok(map, book),
        v.initialized(),
        book_ok(map, mem, book),
        v.slabs.dom().contains(b),
        v.layout.on_grid(b, ptr),
    ensures
        0 < ptr,
        ptr + word_bytes() <= usize::MAX,
        ptr + v.layout.stride <= b + v.layout.slab_bytes,
        b + header_bytes() <= b + v.layout.first_offset <= ptr,
        forall|p: int| ptr <= p < ptr + v.layout.stride ==> #[trigger] mem.dom().contains(p),
        forall|p: int| ptr <= p < ptr + word_bytes() ==> #[trigger] mem.dom().contains(p),
        map.to_phys.dom().contains(ptr),
        map.to_phys[ptr] == map.to_phys[b] + (ptr - b),
{
    lemma_grid_bounds(v.layout, b, ptr);
    lemma_slab_region(v, map, mem, book, b);
}

/// The first free object of the slab at `b` has been taken.
pub proof fn lemma_taken(
    v: CacheView,
    map: Mapping,
    book: Book,
    old_mem: Map<int, u8>,
    mem: Map<int, u8>,
    b: int,
)
    requires
        v.initialized(),
        v.core_ok(map, old_mem, book),
        book_ok(map, old_mem, book),
        v.has(b),
        v.slabs[b].free.len() > 0,
        header_at(mem, b) == (SlabHeader {
            inuse: (header_at(old_mem, b).inuse + 1) as usize,
            freelist: pointer_at(old_mem, v.slabs[b].free[0]),
            ..header_at(old_mem, b)
        }),
        same_bytes(
            old_mem,
            mem,
            b + v.layout.first_offset,
            v.layout.slab_bytes - v.layout.first_offset,
        ),
        forall|c: int| #[trigger] v.slabs.dom().contains(c) && c != b ==> same_bytes(
            old_mem,
            mem,
            c,
            v.layout.slab_bytes as int,
        ),
    ensures
        v.taken(b).core_ok(map, mem, book),
{
    lemma_used_header(v, old_mem, b);
    let old_free = v.slabs[b].free;
    let s = Slab { free: old_free.drop_first(), ..v.slabs[b] };
    assert forall|i: int| 0 <= i < s.free.len() implies v.layout.on_grid(b, #[trigger] s.free[i]) && pointer_at(
        mem,
        s.free[i],
    ) == after(s.free, i) by {
        let o = old_free[i + 1];
        lemma_grid_bounds(v.layout, b, o);
        lemma_word_same(old_mem, mem, o);
    }
    lemma_slab_changed(v, map, book, old_mem, mem, b, s);
}

/// The object at `ptr` has been given back to the slab at `b`.
pub proof fn lemma_given(
    v: CacheView,
    map: Mapping,
    book: Book,
    old_mem: Map<int, u8>,
    mem: Map<int, u8>,
    b: int,
    ptr: int,
)
    requires
        v.initialized(),
        v.core_ok(map, old_mem, book),
        book_ok(map, old_mem, book),
        v.has(b),
        v.layout.on_grid(b, ptr),
        !v.slabs[b].free.contains(ptr),
        v.inuse(b) > 0,
        header_at(mem, b) == (SlabHeader {
            inuse: (header_at(old_mem, b).inuse - 1) as usize,
            freelist: Some(ptr as usize),
            ..header_at(old_mem, b)
        }),
        pointer_at(mem, ptr) == header_at(old_mem, b).freelist,
        forall|p: int| b + v.layout.first_offset <= p < b + v.layout.slab_bytes && !(ptr <= p < ptr + word_bytes())
            ==> #[trigger] mem[p] == old_mem[p],
        forall|c: int| #[trigger] v.slabs.dom().contains(c) && c != b ==> same_bytes(
            old_mem,
            mem,
            c,
            v.layout.slab_bytes as int,
        ),
    ensures
        v.given(b, ptr).core_ok(map, mem, book),
{
    lemma_used_header(v, old_mem, b);
    let old_free = v.slabs[b].free;
    let s = Slab { free: seq![ptr] + old_free, ..v.slabs[b] };
    lemma_pushed(old_free, ptr);
    assert forall|i: int| 0 <= i < s.free.len() implies v.layout.on_grid(b, #[trigger] s.free[i]) && pointer_at(
        mem,
        s.free[i],
    ) == after(s.free, i) by {
        if i > 0 {
            let o = old_free[i - 1];
            lemma_grid_bounds(v.layout, b, o);
            lemma_grid_apart(v.layout, b, ptr, o);
            lemma_word_same(old_mem, mem, o);
        }
    }
    lemma_slab_changed(v, map, book, old_mem, mem, b, s);
}

/// Writing to an object that is in use leaves the cache consistent.
pub proof fn writing_a_live_object(
    v: CacheView,
    map: Mapping,
    old_mem: Map<int, u8>,
    mem: Map<int, u8>,
    book: Book,
    b: int,
    object: int,
    ptr: int,
    n: int,
)
    requires
        v.initialized(),
        v.ok(map, old_mem, book),
        book_ok(map, old_mem, book),
        v.lives(b, object),
        object <= ptr,
        ptr + n <= object + v.layout.stride,
        same_but(old_mem, mem, ptr, n),
    ensures
        v.ok(map, mem, book),
{
    let l = v.layout;
    lemma_grid_bounds(l, b, object);
    lemma_write_in_slab(v, map, book, old_mem, mem, b, ptr, n);
    lemma_used_header(v, old_mem, b);
    assert forall|i: int| 0 <= i < v.slabs[b].free.len() implies same_bytes(
        old_mem,
        mem,
        #[trigger] v.slabs[b].free[i],
        word_bytes(),
    ) by {
        let o = v.slabs[b].free[i];
        lemma_grid_apart(l, b, o, object);
    }
    assert forall|c: int| #[trigger] v.slabs.dom().contains(c) && !v.slabs[c].lost implies {
        &&& same_bytes(old_mem, mem, c, header_bytes())
        &&& forall|i: int| 0 <= i < v.slabs[c].free.len() ==> same_bytes(
            old_mem,
            mem,
            #[trigger] v.slabs[c].free[i],
            word_bytes(),
        )
    } by {
        if c != b {
            lemma_slab_region(v, map, old_mem, book, c);
            lemma_slab_free_list(v, old_mem, c);
            assert forall|i: int| 0 <= i < v.slabs[c].free.len() implies same_bytes(
                old_mem,
                mem,
                #[trigger] v.slabs[c].free[i],
                word_bytes(),
            ) by {
                lemma_grid_bounds(l, c, v.slabs[c].free[i]);
            }
        }
    }
    lemma_memory_same(v, old_mem, mem);
}

} // verus!
