//! The partial list in memory: what changes of slab headers do to it.

use vstd::prelude::*;

use crate::header::header_at;
use crate::header::header_bytes;
use crate::header::lemma_header_same;
use crate::header::SlabHeader;
use crate::memory::same_but;
use crate::model::after;
use crate::model::before;
use crate::model::front;
use crate::model::in_memory;
use crate::model::lemma_relinked;
use crate::model::lemma_rest_kept_trans;
use crate::model::lemma_slab_region;
use crate::model::lemma_write_in_slab;
use crate::model::objects_kept;
use crate::model::rest_kept;
use crate::model::slab_header;
use crate::model::slab_ok;
use crate::model::CacheView;
use crate::pages::book_ok;
use crate::pages::Book;
use crate::pages::Mapping;

verus! {

/// Only the headers of the slabs in `touched` differ between `old_mem` and
/// `mem`.
#[verifier::opaque]
pub open spec fn headers_only(
    v: CacheView,
    map: Mapping,
    book: Book,
    old_mem: Map<int, u8>,
    mem: Map<int, u8>,
    touched: Set<int>,
) -> bool {
    &&& rest_kept(map, book, book, old_mem, mem, v.slabs)
    &&& objects_kept(v.layout, v.slabs, v.slabs, old_mem, mem, None)
    &&& forall|c: int| #[trigger] v.slabs.dom().contains(c) && !touched.contains(c) ==> header_at(mem, c)
        == header_at(old_mem, c)
}

/// Nothing at all has changed.
pub proof fn lemma_no_headers(v: CacheView, map: Mapping, book: Book, mem: Map<int, u8>)
    ensures
        headers_only(v, map, book, mem, mem, Set::empty()),
{
    reveal(headers_only);
}

/// A change to headers only leaves the objects and everything else alone.
pub proof fn lemma_headers_only(
    v: CacheView,
    map: Mapping,
    book: Book,
    old_mem: Map<int, u8>,
    mem: Map<int, u8>,
    touched: Set<int>,
)
    requires
        headers_only(v, map, book, old_mem, mem, touched),
    ensures
        rest_kept(map, book, book, old_mem, mem, v.slabs),
        objects_kept(v.layout, v.slabs, v.slabs, old_mem, mem, None),
        forall|c: int| #[trigger] v.slabs.dom().contains(c) && !touched.contains(c) ==> header_at(mem, c) == header_at(
            old_mem,
            c,
        ),
{
    reveal(headers_only);
}

/// What taking out one element does to a list without duplicates.
pub proof fn lemma_removed(list: Seq<int>, at: int)
    requires
        list.no_duplicates(),
        0 <= at < list.len(),
    ensures
        list.index_of(list[at]) == at,
        list.remove(at).no_duplicates(),
        forall|c: int| #[trigger] list.remove(at).contains(c) <==> list.contains(c) && c != list[at],
{
    let new = list.remove(at);
    assert forall|c: int| #[trigger] new.contains(c) implies list.contains(c) && c != list[at] by {
        let i = new.index_of(c);
        let j = if i < at { i } else { i + 1 };
    }
    assert forall|c: int| list.contains(c) && c != list[at] implies #[trigger] new.contains(c) by {
        let j = list.index_of(c);
        let i = if j < at { j } else { j - 1 };
        assert(new[i] == c);
    }
}

/// The header of one more slab is written.
pub proof fn lemma_header_step(
    v: CacheView,
    map: Mapping,
    book: Book,
    mem0: Map<int, u8>,
    mem1: Map<int, u8>,
    mem2: Map<int, u8>,
    touched: Set<int>,
    b: int,
)
    requires
        v.initialized(),
        v.placed_ok(map, book),
        book_ok(map, mem1, book),
        v.slabs.dom().contains(b),
        headers_only(v, map, book, mem0, mem1, touched),
        same_but(mem1, mem2, b, header_bytes()),
    ensures
        headers_only(v, map, book, mem0, mem2, touched.insert(b)),
        forall|c: int| #[trigger] v.slabs.dom().contains(c) && c != b ==> header_at(mem2, c) == header_at(mem1, c),
{
    reveal(headers_only);
    lemma_write_in_slab(v, map, book, mem1, mem2, b, b, header_bytes());
    lemma_rest_kept_trans(map, book, book, book, mem0, mem1, mem2, v.slabs, v.slabs);
    assert forall|c: int| #[trigger] v.slabs.dom().contains(c) && c != b implies header_at(mem2, c) == header_at(mem1, c) by {
        lemma_slab_region(v, map, mem1, book, c);
        lemma_header_same(mem1, mem2, c);
    }
    assert forall|c: int, p: int| #![trigger v.slabs.dom().contains(c), mem2[p]]
        v.slabs.dom().contains(c) && c + v.layout.first_offset <= p < c + v.layout.slab_bytes
            implies mem2[p] == mem0[p] by {}
}

/// The header of the slab in the partial list at position `i`.
pub proof fn lemma_linked_header(v: CacheView, mem: Map<int, u8>, i: int)
    requires
        v.structure_ok(),
        v.memory_ok(mem),
        0 <= i < v.partial.len(),
    ensures
        v.has(v.partial[i]),
        header_at(mem, v.partial[i]) == slab_header(
            v.layout,
            v.slabs[v.partial[i]],
            true,
            after(v.partial, i),
            before(v.partial, i),
        ),
{
    reveal(in_memory);
    assert(slab_ok(
        mem,
        v.layout,
        v.partial[i],
        v.slabs[v.partial[i]],
        true,
        after(v.partial, i),
        before(v.partial, i),
    ));
}

/// The header of a slab that is not in the partial list.
pub proof fn lemma_unlinked_header(v: CacheView, mem: Map<int, u8>, b: int)
    requires
        v.memory_ok(mem),
        v.has(b),
        !v.links(b),
    ensures
        header_at(mem, b) == slab_header(v.layout, v.slabs[b], false, None, None),
{
    reveal(in_memory);
}

/// A slab has been put at the front of the partial list.
pub proof fn lemma_linked(
    v: CacheView,
    map: Mapping,
    book: Book,
    old_mem: Map<int, u8>,
    mem: Map<int, u8>,
    touched: Set<int>,
    b: int,
)
    requires
        v.initialized(),
        v.core_ok(map, old_mem, book),
        headers_only(v, map, book, old_mem, mem, touched),
        v.has(b),
        !v.links(b),
        v.current != Some(b),
        0 <= b <= usize::MAX,
        forall|c: int| #[trigger] touched.contains(c) ==> c == b || (v.partial.len() > 0 && c == v.partial[0]),
        header_at(mem, b) == (SlabHeader {
            on_partial: true,
            next: front(v.partial),
            prev: None,
            ..header_at(old_mem, b)
        }),
        v.partial.len() > 0 ==> header_at(mem, v.partial[0]) == (SlabHeader {
            prev: Some(b as usize),
            ..header_at(old_mem, v.partial[0])
        }),
    ensures
        v.linked(b).core_ok(map, mem, book),
{
    let new = v.linked(b);
    lemma_headers_only(v, map, book, old_mem, mem, touched);
    lemma_unlinked_header(v, old_mem, b);
    lemma_pushed(v.partial, b);
    assert forall|i: int| 0 <= i < new.partial.len() implies new.has(#[trigger] new.partial[i]) && header_at(
        mem,
        new.partial[i],
    ) == slab_header(v.layout, v.slabs[new.partial[i]], true, after(new.partial, i), before(new.partial, i)) by {
        if i > 0 {
            lemma_moved_neighbours(v.partial, b, i);
            lemma_linked_header(v, old_mem, i - 1);
        }
    }
    assert forall|c: int| #[trigger] v.slabs.dom().contains(c) && !v.slabs[c].lost && !new.links(c) implies header_at(
        mem,
        c,
    ) == slab_header(v.layout, v.slabs[c], false, None, None) by {
        lemma_unlinked_header(v, old_mem, c);
        assert(!touched.contains(c));
    }
    lemma_relinked(v, new, old_mem, mem);
}

/// What a list holds after an element has been put at the front.
pub proof fn lemma_pushed_contains(list: Seq<int>, b: int)
    ensures
        forall|c: int| #[trigger] (seq![b] + list).contains(c) <==> list.contains(c) || c == b,
{
    let new = seq![b] + list;
    assert forall|c: int| #[trigger] new.contains(c) implies list.contains(c) || c == b by {}
    assert forall|c: int| list.contains(c) || c == b implies #[trigger] new.contains(c) by {
        if c == b {
            assert(new[0] == b);
        } else {
            assert(new[list.index_of(c) + 1] == c);
        }
    }
}

/// What putting an element at the front does to a list without duplicates.
pub proof fn lemma_pushed(list: Seq<int>, b: int)
    requires
        list.no_duplicates(),
        !list.contains(b),
    ensures
        (seq![b] + list).no_duplicates(),
        forall|c: int| #[trigger] (seq![b] + list).contains(c) <==> list.contains(c) || c == b,
{
    lemma_pushed_contains(list, b);
}

/// The neighbours of an element after another one has been put in front.
proof fn lemma_moved_neighbours(list: Seq<int>, b: int, i: int)
    requires
        0 < i <= list.len(),
        0 <= b <= usize::MAX,
    ensures
        ({
            let new = seq![b] + list;
            &&& new[i] == list[i - 1]
            &&& after(new, i) == after(list, i - 1)
            &&& before(new, i) == (if i == 1 { Some(b as usize) } else { before(list, i - 1) })
        }),
{
}

/// A slab has been taken out of the partial list.
pub proof fn lemma_unlinked(
    v: CacheView,
    map: Mapping,
    book: Book,
    old_mem: Map<int, u8>,
    mem: Map<int, u8>,
    touched: Set<int>,
    at: int,
)
    requires
        v.initialized(),
        v.core_ok(map, old_mem, book),
        headers_only(v, map, book, old_mem, mem, touched),
        0 <= at < v.partial.len(),
        forall|c: int| #[trigger] touched.contains(c) ==> {
            ||| c == v.partial[at]
            ||| at > 0 && c == v.partial[at - 1]
            ||| at + 1 < v.partial.len() && c == v.partial[at + 1]
        },
        header_at(mem, v.partial[at]) == (SlabHeader {
            on_partial: false,
            next: None,
            prev: None,
            ..header_at(old_mem, v.partial[at])
        }),
        at > 0 ==> header_at(mem, v.partial[at - 1]) == (SlabHeader {
            next: after(v.partial, at),
            ..header_at(old_mem, v.partial[at - 1])
        }),
        at + 1 < v.partial.len() ==> header_at(mem, v.partial[at + 1]) == (SlabHeader {
            prev: before(v.partial, at),
            ..header_at(old_mem, v.partial[at + 1])
        }),
    ensures
        v.unlinked(v.partial[at]).core_ok(map, mem, book),
        v.unlinked(v.partial[at]).partial == v.partial.remove(at),
        !v.unlinked(v.partial[at]).links(v.partial[at]),
{
    let b = v.partial[at];
    let new = v.unlinked(b);
    lemma_removed(v.partial, at);
    lemma_headers_only(v, map, book, old_mem, mem, touched);
    lemma_linked_header(v, old_mem, at);
    assert forall|i: int| 0 <= i < new.partial.len() implies new.has(#[trigger] new.partial[i]) && header_at(
        mem,
        new.partial[i],
    ) == slab_header(v.layout, v.slabs[new.partial[i]], true, after(new.partial, i), before(new.partial, i)) by {
        let j = if i < at { i } else { i + 1 };
        lemma_kept_neighbours(v.partial, at, i);
        lemma_linked_header(v, old_mem, j);
    }
    assert forall|c: int| #[trigger] v.slabs.dom().contains(c) && !v.slabs[c].lost && !new.links(c) implies header_at(
        mem,
        c,
    ) == slab_header(v.layout, v.slabs[c], false, None, None) by {
        if c != b {
            lemma_unlinked_header(v, old_mem, c);
            assert(!touched.contains(c));
        }
    }
    lemma_relinked(v, new, old_mem, mem);
}

/// The neighbours of an element after another one has been taken out.
proof fn lemma_kept_neighbours(list: Seq<int>, at: int, i: int)
    requires
        0 <= at < list.len(),
        0 <= i < list.len() - 1,
    ensures
        ({
            let new = list.remove(at);
            let j = if i < at { i } else { i + 1 };
            &&& new[i] == list[j]
            &&& after(new, i) == (if j == at - 1 { after(list, at) } else { after(list, j) })
            &&& before(new, i) == (if j == at + 1 { before(list, at) } else { before(list, j) })
        }),
{
}

} // verus!
