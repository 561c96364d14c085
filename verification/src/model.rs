//! The mathematical model of a slab cache, and how it lies in memory.

use vstd::arithmetic::div_mod::lemma_fundamental_div_mod;
use vstd::prelude::*;
use vstd::set_lib::lemma_int_range;
use vstd::set_lib::lemma_len_subset;
use vstd::set_lib::lemma_map_size;
use vstd::set_lib::set_int_range;

use crate::header::header_at;
use crate::header::header_bytes;
use crate::header::lemma_header_same;
use crate::header::SLAB_MAGIC;
use crate::header::SlabHeader;
use crate::layout::SlabLayout;
use crate::memory::accessible;
use crate::memory::lemma_word_same;
use crate::memory::pointer_at;
use crate::memory::same_but;
use crate::memory::same_bytes;
use crate::memory::word_bytes;
use crate::pages::block_bytes;
use crate::pages::book_ok;
use crate::pages::kept;
use crate::pages::Book;
use crate::pages::Mapping;
use crate::pages::PhysMap;

verus! {

/// One slab of a cache.
#[verifier::ext_equal]
pub ghost struct Slab {
    /// Where the cache grew the slab, as the header holds it.
    pub owner: usize,
    /// The free objects, in the order in which they will be handed out.
    pub free: Seq<int>,
    /// The page allocator refused to take the slab's block back: the cache
    /// still counts the slab and never uses it again.
    pub lost: bool,
}

/// The state of a slab cache.
#[verifier::ext_equal]
pub ghost struct CacheView {
    /// The name of the cache.
    pub name: Seq<char>,
    /// The layout of its slabs.
    pub layout: SlabLayout,
    /// The number of partial slabs kept before empty ones are returned.
    pub min_partial: usize,
    /// The lowest place where the cache grew a slab since it last had none.
    pub low: usize,
    /// The highest place where the cache grew a slab since it last had none.
    pub high: usize,
    /// The slabs, by virtual address.
    pub slabs: Map<int, Slab>,
    /// The slab that receives allocations.
    pub current: Option<int>,
    /// The partial list, front first.
    pub partial: Seq<int>,
}

/// The first element of a list of addresses.
pub open spec fn front(list: Seq<int>) -> Option<usize> {
    if list.len() == 0 {
        None
    } else {
        Some(list[0] as usize)
    }
}

/// The element after element `i`.
pub open spec fn after(list: Seq<int>, i: int) -> Option<usize> {
    if i + 1 < list.len() {
        Some(list[i + 1] as usize)
    } else {
        None
    }
}

/// The element before element `i`.
pub open spec fn before(list: Seq<int>, i: int) -> Option<usize> {
    if 0 < i {
        Some(list[i - 1] as usize)
    } else {
        None
    }
}

/// The number of free objects in all slabs together.
pub open spec fn total_free(slabs: Map<int, Slab>) -> nat
    decreases slabs.dom().len(),
    when slabs.dom().finite()
{
    if slabs.dom().len() == 0 {
        0
    } else {
        let slab = slabs.dom().choose();
        slabs[slab].free.len() + total_free(slabs.remove(slab))
    }
}

/// The free objects are those of one slab and those of the others.
pub proof fn lemma_total_free_split(slabs: Map<int, Slab>, slab: int)
    requires
        slabs.dom().finite(),
        slabs.dom().contains(slab),
    ensures
        total_free(slabs) == slabs[slab].free.len() + total_free(slabs.remove(slab)),
    decreases slabs.dom().len(),
{
    let first = slabs.dom().choose();
    if first != slab {
        let rest = slabs.remove(first);
        lemma_total_free_split(rest, slab);
        lemma_total_free_split(slabs.remove(slab), first);
        assert(rest.remove(slab) =~= slabs.remove(slab).remove(first));
    }
}

/// How the number of free objects changes with one slab.
pub proof fn lemma_total_free_insert(slabs: Map<int, Slab>, slab: int, s: Slab)
    requires
        slabs.dom().finite(),
    ensures
        slabs.insert(slab, s).dom().finite(),
        slabs.dom().contains(slab) ==> total_free(slabs.insert(slab, s)) == total_free(slabs)
            - slabs[slab].free.len() + s.free.len(),
        !slabs.dom().contains(slab) ==> total_free(slabs.insert(slab, s)) == total_free(slabs) + s.free.len(),
{
    let new = slabs.insert(slab, s);
    lemma_total_free_split(new, slab);
    if slabs.dom().contains(slab) {
        lemma_total_free_split(slabs, slab);
        assert(new.remove(slab) =~= slabs.remove(slab));
    } else {
        assert(new.remove(slab) =~= slabs);
    }
}

/// There are at most as many free objects as objects.
pub proof fn lemma_total_free_bound(slabs: Map<int, Slab>, most: nat)
    requires
        slabs.dom().finite(),
        forall|b: int| #[trigger] slabs.dom().contains(b) ==> slabs[b].free.len() <= most,
    ensures
        total_free(slabs) <= most * slabs.dom().len(),
    decreases slabs.dom().len(),
{
    if slabs.dom().len() > 0 {
        let first = slabs.dom().choose();
        let rest = slabs.remove(first);
        assert forall|b: int| #[trigger] rest.dom().contains(b) implies rest[b].free.len() <= most by {}
        lemma_total_free_bound(rest, most);
        assert(most * slabs.dom().len() == most + most * rest.dom().len()) by (nonlinear_arith)
            requires
                slabs.dom().len() == rest.dom().len() + 1,
        ;
    } else {
        assert(most * slabs.dom().len() == 0) by (nonlinear_arith)
            requires
                slabs.dom().len() == 0,
        ;
    }
}

/// The kind of objects in slabs with the layout `l`.
pub open spec fn kind_of(l: SlabLayout) -> u16 {
    (l.object_size % 0x1_0000) as u16
}

/// The header of a slab in state `s`.
pub open spec fn slab_header(
    l: SlabLayout,
    s: Slab,
    linked: bool,
    next: Option<usize>,
    prev: Option<usize>,
) -> SlabHeader {
    SlabHeader {
        magic: SLAB_MAGIC,
        order: l.order,
        on_partial: linked,
        kind: kind_of(l),
        owner: s.owner,
        inuse: (l.objects - s.free.len()) as usize,
        objects: l.objects,
        freelist: front(s.free),
        next,
        prev,
    }
}

/// The memory at `b` holds a slab in state `s`: its header, and its free
/// list, which runs through free objects of the slab.
pub open spec fn slab_ok(
    mem: Map<int, u8>,
    l: SlabLayout,
    b: int,
    s: Slab,
    linked: bool,
    next: Option<usize>,
    prev: Option<usize>,
) -> bool {
    &&& header_at(mem, b) == slab_header(l, s, linked, next, prev)
    &&& s.free.len() <= l.objects
    &&& s.free.no_duplicates()
    &&& forall|i: int| 0 <= i < s.free.len() ==> l.on_grid(b, #[trigger] s.free[i])
    &&& forall|i: int| 0 <= i < s.free.len() ==> pointer_at(mem, #[trigger] s.free[i]) == after(s.free, i)
}

/// A slab at `b` whose objects are all free, in the order of their addresses.
pub open spec fn whole_slab(l: SlabLayout, b: int, owner: usize) -> Slab {
    Slab { owner, free: Seq::new(l.objects as nat, |i: int| l.object_at(b, i)), lost: false }
}

/// Each slab in use lies in memory: those in the partial list, which their
/// headers link, and the others. A slab that was given up has no magic number
/// any more.
#[verifier::opaque]
pub open spec fn in_memory(l: SlabLayout, slabs: Map<int, Slab>, partial: Seq<int>, mem: Map<int, u8>) -> bool {
    &&& forall|i: int| 0 <= i < partial.len() ==> slab_ok(
        mem,
        l,
        #[trigger] partial[i],
        slabs[partial[i]],
        true,
        after(partial, i),
        before(partial, i),
    )
    &&& forall|b: int| #[trigger] slabs.dom().contains(b) && !slabs[b].lost && !partial.contains(b)
        ==> slab_ok(mem, l, b, slabs[b], false, None, None)
    &&& forall|b: int| #[trigger] slabs.dom().contains(b) && slabs[b].lost ==> header_at(mem, b).magic == 0
}

/// The block behind the slab at `b` is out, with the order of the layout.
pub open spec fn placed(map: Mapping, book: Book, order: u8, b: int) -> bool {
    let a = map.to_phys[b];
    &&& book.blocks.dom().contains(a)
    &&& book.blocks[a] == order
    &&& map.to_virt[a] == b
}

impl CacheView {
    /// The cache has a layout.
    pub open spec fn initialized(self) -> bool {
        self.layout.slab_bytes != 0
    }

    /// `b` is a slab that is in use.
    pub open spec fn has(self, b: int) -> bool {
        self.slabs.dom().contains(b) && !self.slabs[b].lost
    }

    /// The slab at `b` is in the partial list.
    pub open spec fn links(self, b: int) -> bool {
        self.partial.contains(b)
    }

    /// The number of objects of the slab at `b` that are handed out.
    pub open spec fn inuse(self, b: int) -> int {
        self.layout.objects - self.slabs[b].free.len()
    }

    /// The partial list and the active slab are distinct slabs in use.
    pub open spec fn structure_ok(self) -> bool {
        &&& self.slabs.dom().finite()
        &&& self.partial.no_duplicates()
        &&& forall|i: int| 0 <= i < self.partial.len() ==> self.has(#[trigger] self.partial[i])
        &&& match self.current {
            Some(c) => self.has(c) && !self.links(c),
            None => true,
        }
        &&& forall|b: int| #[trigger] self.slabs.dom().contains(b) ==> self.slabs[b].free.len() <= self.layout.objects
        &&& forall|b: int| #[trigger] self.slabs.dom().contains(b) ==> self.low <= self.slabs[b].owner <= self.high
        &&& !self.initialized() ==> self.slabs.dom().len() == 0
    }

    /// Each slab in use lies in memory.
    pub open spec fn memory_ok(self, mem: Map<int, u8>) -> bool {
        in_memory(self.layout, self.slabs, self.partial, mem)
    }

    /// Each slab is a block of the page allocator.
    pub open spec fn placed_ok(self, map: Mapping, book: Book) -> bool {
        self.initialized() ==> {
            &&& self.layout.ok(header_bytes())
            &&& self.layout.slab_bytes == block_bytes(book.page_size as int, self.layout.order)
            &&& forall|b: int| #[trigger] self.slabs.dom().contains(b)
                ==> placed(map, book, self.layout.order, b)
        }
    }

    /// Every slab with free objects can be found: a slab in the partial list
    /// has some, and a slab that is neither there nor active has none.
    pub open spec fn balanced(self) -> bool {
        &&& forall|i: int| 0 <= i < self.partial.len() ==> self.slabs[#[trigger] self.partial[i]].free.len() > 0
        &&& forall|b: int| #[trigger] self.slabs.dom().contains(b) && !self.slabs[b].lost && !self.links(b)
            && self.current != Some(b) ==> self.slabs[b].free.len() == 0
    }

    /// The state is consistent, except that a slab with free objects may be
    /// out of reach.
    pub open spec fn core_ok(self, map: Mapping, mem: Map<int, u8>, book: Book) -> bool {
        &&& self.structure_ok()
        &&& self.memory_ok(mem)
        &&& self.placed_ok(map, book)
    }

    /// The state is consistent.
    pub open spec fn ok(self, map: Mapping, mem: Map<int, u8>, book: Book) -> bool {
        &&& self.core_ok(map, mem, book)
        &&& self.balanced()
    }

    /// The state of the slab at `b` is `s`.
    pub open spec fn with_slab(self, b: int, s: Slab) -> CacheView {
        CacheView { slabs: self.slabs.insert(b, s), ..self }
    }

    /// The first free object of the slab at `b` is handed out.
    pub open spec fn taken(self, b: int) -> CacheView {
        self.with_slab(b, Slab { free: self.slabs[b].free.drop_first(), ..self.slabs[b] })
    }

    /// The object at `ptr` is back in the slab at `b`.
    pub open spec fn given(self, b: int, ptr: int) -> CacheView {
        self.with_slab(b, Slab { free: seq![ptr] + self.slabs[b].free, ..self.slabs[b] })
    }

    /// The slab at `b` is at the front of the partial list.
    pub open spec fn linked(self, b: int) -> CacheView {
        CacheView { partial: seq![b] + self.partial, ..self }
    }

    /// The slab at `b` is out of the partial list.
    pub open spec fn unlinked(self, b: int) -> CacheView {
        CacheView { partial: self.partial.remove(self.partial.index_of(b)), ..self }
    }

    /// The slab at `b` is back with the page allocator.
    pub open spec fn released(self, b: int) -> CacheView {
        CacheView { slabs: self.slabs.remove(b), ..self }
    }

    /// The page allocator refused the slab at `b`.
    pub open spec fn stranded(self, b: int) -> CacheView {
        self.with_slab(b, Slab { lost: true, ..self.slabs[b] })
    }

    /// `place` lies between the places where the cache grew its slabs.
    pub open spec fn grew_at(self, place: usize) -> bool {
        self.slabs.dom().len() > 0 && self.low <= place <= self.high
    }

    /// Every slab was grown while the cache was at `here`.
    pub open spec fn stayed_at(self, here: usize) -> bool {
        forall|b: int| #[trigger] self.slabs.dom().contains(b) ==> self.slabs[b].owner == here
    }

    /// The block at `b` is a slab whose objects are all free, grown while the
    /// cache was at `here`.
    pub open spec fn grown(self, b: int, here: usize) -> CacheView {
        CacheView {
            low: if self.slabs.dom().len() == 0 || here < self.low {
                here
            } else {
                self.low
            },
            high: if self.slabs.dom().len() == 0 || self.high < here {
                here
            } else {
                self.high
            },
            slabs: self.slabs.insert(b, whole_slab(self.layout, b, here)),
            ..self
        }
    }

    /// `ptr` is an object of the slab at `b` that is handed out.
    pub open spec fn lives(self, b: int, ptr: int) -> bool {
        &&& self.has(b)
        &&& self.layout.on_grid(b, ptr)
        &&& !self.slabs[b].free.contains(ptr)
    }

    /// The slab at `b` goes back to the page allocator if it is empty: it is
    /// not active, and either the partial list does not hold it or the list
    /// is longer than `min_partial`.
    pub open spec fn spare(self, b: int) -> bool {
        &&& self.current != Some(b)
        &&& self.links(b) ==> self.partial.len() > self.min_partial
    }

    /// The slab at `b` is neither active nor in the partial list.
    pub open spec fn detached(self, b: int) -> CacheView {
        if self.links(b) {
            self.unlinked(b)
        } else {
            self
        }
    }

    /// The slab at `b`, which has objects in use and free ones, can be found.
    pub open spec fn reachable(self, b: int) -> CacheView {
        if self.links(b) || self.current == Some(b) {
            self
        } else {
            self.linked(b)
        }
    }

    /// The active slab and the first `k` slabs of the partial list have been
    /// looked at, and those without objects in use are gone.
    pub open spec fn swept(self, k: int) -> CacheView {
        let seen = self.partial.take(k);
        CacheView {
            current: if self.current matches Some(c) && self.inuse(c) == 0 {
                None
            } else {
                self.current
            },
            partial: seen.filter(|b: int| self.inuse(b) > 0) + self.partial.skip(k),
            slabs: self.slabs.remove_keys(
                Set::new(|b: int| self.inuse(b) == 0 && (self.current == Some(b) || seen.contains(b))),
            ),
            ..self
        }
    }

    /// Every empty slab that can be found is gone.
    pub open spec fn shrunk(self) -> CacheView {
        self.swept(self.partial.len() as int)
    }

    /// The active slab, if there is one, and the partial list.
    pub open spec fn found(self) -> Seq<int> {
        match self.current {
            Some(c) => seq![c] + self.partial,
            None => self.partial,
        }
    }

    /// The active slab has a free object.
    pub open spec fn ready(self) -> bool {
        self.current matches Some(c) && self.slabs[c].free.len() > 0
    }

    /// The first slab of the partial list is the active slab.
    pub open spec fn promoted(self) -> CacheView {
        CacheView { current: Some(self.partial[0]), partial: self.partial.drop_first(), ..self }
    }

    /// The active slab is `current`.
    pub open spec fn with_current(self, current: Option<int>) -> CacheView {
        CacheView { current, ..self }
    }
}

/// An object lies in its slab, behind the header.
pub proof fn lemma_grid_bounds(l: SlabLayout, b: int, p: int)
    requires
        l.ok(header_bytes()),
        l.on_grid(b, p),
    ensures
        b + header_bytes() <= b + l.first_offset <= p,
        p + l.stride <= b + l.slab_bytes,
        word_bytes() <= l.stride,
        p + word_bytes() <= b + l.slab_bytes,
        l.object_at(b, (p - b - l.first_offset) / (l.stride as int)) == p,
{
    let offset = p - b - l.first_offset;
    let index = offset / (l.stride as int);
    lemma_fundamental_div_mod(offset, l.stride as int);
    assert(index * l.stride + l.stride <= l.objects * l.stride) by (nonlinear_arith)
        requires
            index + 1 <= l.objects,
            0 < l.stride,
    ;
}

/// Two objects of a slab do not overlap.
pub proof fn lemma_grid_apart(l: SlabLayout, b: int, p: int, q: int)
    requires
        l.ok(header_bytes()),
        l.on_grid(b, p),
        l.on_grid(b, q),
        p != q,
    ensures
        p + l.stride <= q || q + l.stride <= p,
{
    let stride = l.stride as int;
    let i = (p - b - l.first_offset) / stride;
    let j = (q - b - l.first_offset) / stride;
    lemma_grid_bounds(l, b, p);
    lemma_grid_bounds(l, b, q);
    if i < j {
        assert(i * stride + stride <= j * stride) by (nonlinear_arith)
            requires
                i + 1 <= j,
                0 < stride,
        ;
    } else if j < i {
        assert(j * stride + stride <= i * stride) by (nonlinear_arith)
            requires
                j + 1 <= i,
                0 < stride,
        ;
    }
}

/// Every object lies on the grid.
pub proof fn lemma_object_on_grid(l: SlabLayout, b: int, i: int)
    requires
        l.ok(header_bytes()),
        0 <= i < l.objects,
    ensures
        l.on_grid(b, l.object_at(b, i)),
        (l.object_at(b, i) - b - l.first_offset) / (l.stride as int) == i,
{
    let stride = l.stride as int;
    assert(0 <= i * stride) by (nonlinear_arith)
        requires
            0 <= i,
            0 < stride,
    ;
    assert((i * stride) % stride == 0) by (nonlinear_arith)
        requires
            0 < stride,
    ;
    assert((i * stride) / stride == i) by (nonlinear_arith)
        requires
            0 < stride,
    ;
}

/// The memory of a slab can be translated and accessed.
pub proof fn lemma_slab_region(v: CacheView, map: Mapping, mem: Map<int, u8>, book: Book, b: int)
    requires
        v.placed_ok(map, book),
        v.initialized(),
        book_ok(map, mem, book),
        v.slabs.dom().contains(b),
    ensures
        accessible(mem, b, v.layout.slab_bytes as int),
        0 < b,
        b + v.layout.slab_bytes <= usize::MAX,
        header_bytes() <= v.layout.slab_bytes,
        forall|p: int| b <= p < b + v.layout.slab_bytes ==> #[trigger] map.to_phys[p] == map.to_phys[b] + (p - b),
        forall|p: int| b <= p < b + v.layout.slab_bytes ==> #[trigger] map.to_phys.dom().contains(p),
        0 <= map.to_phys[b],
        map.to_phys[b] + v.layout.slab_bytes <= usize::MAX,
        map.to_phys[b] % (v.layout.slab_bytes as int) == 0,
        map.to_virt.dom().contains(map.to_phys[b]),
{
}

/// Two slabs do not overlap.
pub proof fn lemma_slabs_apart(v: CacheView, map: Mapping, mem: Map<int, u8>, book: Book, b: int, c: int)
    requires
        v.placed_ok(map, book),
        v.initialized(),
        book_ok(map, mem, book),
        v.slabs.dom().contains(b),
        v.slabs.dom().contains(c),
        b != c,
    ensures
        b + v.layout.slab_bytes <= c || c + v.layout.slab_bytes <= b,
{
}

/// A slab keeps its state when its header and the links in its free objects
/// stay as they are.
pub proof fn lemma_slab_same(
    old_mem: Map<int, u8>,
    mem: Map<int, u8>,
    l: SlabLayout,
    b: int,
    s: Slab,
    linked: bool,
    next: Option<usize>,
    prev: Option<usize>,
)
    requires
        slab_ok(old_mem, l, b, s, linked, next, prev),
        same_bytes(old_mem, mem, b, header_bytes()),
        forall|i: int| 0 <= i < s.free.len() ==> same_bytes(old_mem, mem, #[trigger] s.free[i], word_bytes()),
    ensures
        slab_ok(mem, l, b, s, linked, next, prev),
{
    lemma_header_same(old_mem, mem, b);
    assert forall|i: int| 0 <= i < s.free.len() implies pointer_at(mem, #[trigger] s.free[i]) == after(s.free, i) by {
        lemma_word_same(old_mem, mem, s.free[i]);
    }
}

/// The bytes of a memory that the slabs of a cache depend on are unchanged:
/// the headers, and the links in the free objects.
pub open spec fn links_kept(v: CacheView, old_mem: Map<int, u8>, mem: Map<int, u8>) -> bool {
    forall|b: int| #[trigger] v.slabs.dom().contains(b) ==> {
        &&& same_bytes(old_mem, mem, b, header_bytes())
        &&& !v.slabs[b].lost ==> forall|i: int| 0 <= i < v.slabs[b].free.len() ==> same_bytes(
            old_mem,
            mem,
            #[trigger] v.slabs[b].free[i],
            word_bytes(),
        )
    }
}

/// Slabs stay in memory while their bytes stay the same.
pub proof fn lemma_memory_same(v: CacheView, old_mem: Map<int, u8>, mem: Map<int, u8>)
    requires
        v.structure_ok(),
        v.memory_ok(old_mem),
        links_kept(v, old_mem, mem),
    ensures
        v.memory_ok(mem),
{
    reveal(in_memory);
    assert forall|i: int| 0 <= i < v.partial.len() implies slab_ok(
        mem,
        v.layout,
        #[trigger] v.partial[i],
        v.slabs[v.partial[i]],
        true,
        after(v.partial, i),
        before(v.partial, i),
    ) by {
        lemma_slab_same(
            old_mem,
            mem,
            v.layout,
            v.partial[i],
            v.slabs[v.partial[i]],
            true,
            after(v.partial, i),
            before(v.partial, i),
        );
    }
    assert forall|b: int| #[trigger] v.slabs.dom().contains(b) && !v.slabs[b].lost && !v.links(b) implies slab_ok(
        mem,
        v.layout,
        b,
        v.slabs[b],
        false,
        None,
        None,
    ) by {
        lemma_slab_same(old_mem, mem, v.layout, b, v.slabs[b], false, None, None);
    }
    assert forall|b: int| #[trigger] v.slabs.dom().contains(b) && v.slabs[b].lost implies header_at(mem, b).magic == 0 by {
        lemma_header_same(old_mem, mem, b);
    }
}

/// A slab in use, whether linked or not, holds a free list inside the slab.
pub proof fn lemma_slab_free_list(v: CacheView, mem: Map<int, u8>, b: int)
    requires
        v.structure_ok(),
        v.memory_ok(mem),
        v.has(b),
    ensures
        exists|linked: bool, next: Option<usize>, prev: Option<usize>|
            slab_ok(mem, v.layout, b, v.slabs[b], linked, next, prev),
        v.slabs[b].free.no_duplicates(),
        v.slabs[b].free.len() <= v.layout.objects,
        forall|i: int| 0 <= i < v.slabs[b].free.len() ==> v.layout.on_grid(b, #[trigger] v.slabs[b].free[i]),
{
    reveal(in_memory);
    if v.links(b) {
        let i = v.partial.index_of(b);
    }
}

/// The slabs of a cache are untouched when the page allocator keeps the
/// bytes of their blocks.
pub proof fn lemma_kept_links(
    v: CacheView,
    map: Mapping,
    old_mem: Map<int, u8>,
    mem: Map<int, u8>,
    book: Book,
    blocks: Map<int, u8>,
)
    requires
        v.structure_ok(),
        v.memory_ok(old_mem),
        v.placed_ok(map, book),
        book_ok(map, old_mem, book),
        kept(map, book.page_size as int, blocks, old_mem, mem),
        forall|b: int| #[trigger] v.slabs.dom().contains(b) ==> {
            &&& blocks.dom().contains(map.to_phys[b])
            &&& blocks[map.to_phys[b]] == v.layout.order
        },
    ensures
        links_kept(v, old_mem, mem),
{
    assert forall|b: int| #[trigger] v.slabs.dom().contains(b) && !v.slabs[b].lost implies {
        &&& same_bytes(old_mem, mem, b, header_bytes())
        &&& forall|i: int| 0 <= i < v.slabs[b].free.len() ==> same_bytes(
            old_mem,
            mem,
            #[trigger] v.slabs[b].free[i],
            word_bytes(),
        )
    } by {
        lemma_slab_region(v, map, old_mem, book, b);
        lemma_slab_free_list(v, old_mem, b);
        assert forall|p: int| b <= p < b + v.layout.slab_bytes implies #[trigger] mem[p] == old_mem[p] by {}
        assert forall|i: int| 0 <= i < v.slabs[b].free.len() implies same_bytes(
            old_mem,
            mem,
            #[trigger] v.slabs[b].free[i],
            word_bytes(),
        ) by {
            lemma_grid_bounds(v.layout, b, v.slabs[b].free[i]);
        }
    }
}

/// The slabs of a cache fit in the address space side by side.
pub proof fn lemma_slab_count(v: CacheView, map: Mapping, mem: Map<int, u8>, book: Book)
    requires
        v.structure_ok(),
        v.placed_ok(map, book),
        v.initialized(),
        book_ok(map, mem, book),
    ensures
        v.slabs.dom().len() * v.layout.slab_bytes <= usize::MAX,
        v.layout.objects * v.slabs.dom().len() <= usize::MAX,
        v.slabs.dom().len() <= usize::MAX,
{
    let size = v.layout.slab_bytes as int;
    let slots = usize::MAX as int / size;
    let slot = |b: int| map.to_phys[b] / size;
    let dom = v.slabs.dom();
    assert forall|b: int, c: int| dom.contains(b) && dom.contains(c) && #[trigger] slot(b) == #[trigger] slot(c) implies b == c by {
        lemma_slab_region(v, map, mem, book, b);
        lemma_slab_region(v, map, mem, book, c);
        lemma_fundamental_div_mod(map.to_phys[b], size);
        lemma_fundamental_div_mod(map.to_phys[c], size);
    }
    let image = dom.map(slot);
    lemma_map_size(dom, image, slot);
    assert(image.subset_of(set_int_range(0, slots))) by {
        assert forall|n: int| #[trigger] image.contains(n) implies set_int_range(0, slots).contains(n) by {
            let b = choose|b: int| dom.contains(b) && slot(b) == n;
            lemma_slab_region(v, map, mem, book, b);
            let a = map.to_phys[b];
            lemma_fundamental_div_mod(a, size);
            lemma_fundamental_div_mod(usize::MAX as int, size);
            assert(n < slots) by (nonlinear_arith)
                requires
                    a == size * n,
                    a + size <= usize::MAX,
                    usize::MAX == size * slots + usize::MAX as int % size,
                    0 <= usize::MAX as int % size < size,
                    size > 0,
            ;
            assert(0 <= n) by (nonlinear_arith)
                requires
                    a == size * n,
                    0 <= a,
                    size > 0,
            ;
        }
    }
    assert(0 <= slots) by (nonlinear_arith)
        requires
            slots == usize::MAX as int / size,
            size > 0,
    ;
    lemma_int_range(0, slots);
    lemma_len_subset(image, set_int_range(0, slots));
    let n = dom.len() as int;
    lemma_fundamental_div_mod(usize::MAX as int, size);
    assert(n * size <= usize::MAX) by (nonlinear_arith)
        requires
            0 <= n <= slots,
            usize::MAX == size * slots + usize::MAX as int % size,
            0 <= usize::MAX as int % size,
            size > 0,
    ;
    assert(v.layout.objects <= size) by (nonlinear_arith)
        requires
            v.layout.first_offset + v.layout.objects * v.layout.stride <= size,
            v.layout.stride >= 1,
            v.layout.first_offset >= 0,
    ;
    assert(v.layout.objects * n <= n * size) by (nonlinear_arith)
        requires
            0 <= v.layout.objects <= size,
            0 <= n,
    ;
    assert(n <= n * size) by (nonlinear_arith)
        requires
            1 <= size,
            0 <= n,
    ;
}

/// What belongs to others stays as it is: the blocks of the page allocator
/// that are not slabs of the cache stay out, with their bytes.
pub open spec fn rest_kept(
    map: Mapping,
    old_book: Book,
    book: Book,
    old_mem: Map<int, u8>,
    mem: Map<int, u8>,
    slabs: Map<int, Slab>,
) -> bool {
    &&& mem.dom() == old_mem.dom()
    &&& book.page_size == old_book.page_size
    &&& book.max_order == old_book.max_order
    &&& book.managed == old_book.managed
    &&& forall|a: int| #[trigger] old_book.blocks.dom().contains(a) && !slabs.dom().contains(map.to_virt[a]) ==> {
        &&& book.blocks.dom().contains(a)
        &&& book.blocks[a] == old_book.blocks[a]
    }
    &&& forall|a: int, p: int| #![trigger old_book.blocks.dom().contains(a), mem[p]]
        old_book.blocks.dom().contains(a) && !slabs.dom().contains(map.to_virt[a])
            && map.to_virt[a] <= p < map.to_virt[a] + block_bytes(old_book.page_size as int, old_book.blocks[a])
            ==> mem[p] == old_mem[p]
}

/// The objects of the slabs in both `old_slabs` and `slabs` keep their
/// bytes, but for those at `except`, given by address and number.
pub open spec fn objects_kept(
    l: SlabLayout,
    old_slabs: Map<int, Slab>,
    slabs: Map<int, Slab>,
    old_mem: Map<int, u8>,
    mem: Map<int, u8>,
    except: Option<(int, int)>,
) -> bool {
    forall|b: int, p: int| #![trigger old_slabs.dom().contains(b), mem[p]]
        old_slabs.dom().contains(b) && slabs.dom().contains(b) && b + l.first_offset <= p < b + l.slab_bytes
            && !(except matches Some((o, n)) && o <= p < o + n)
            ==> mem[p] == old_mem[p]
}

/// The page allocator has back the blocks of exactly those slabs that the
/// cache had in the state `old` and has no more in the state `new`.
pub open spec fn returned(map: Mapping, old_book: Book, book: Book, old: CacheView, new: CacheView) -> bool {
    book.blocks == old_book.blocks.remove_keys(
        Set::new(|a: int| old.slabs.dom().contains(map.to_virt[a]) && !new.slabs.dom().contains(map.to_virt[a])),
    )
}

/// One more block has been given back.
pub proof fn lemma_returned_step(
    map: Mapping,
    mem: Map<int, u8>,
    book0: Book,
    book1: Book,
    book2: Book,
    v0: CacheView,
    v1: CacheView,
    b: int,
)
    requires
        returned(map, book0, book1, v0, v1),
        book_ok(map, mem, book1),
        placed(map, book1, v1.layout.order, b),
        v0.slabs.dom().contains(b),
        v1.slabs.dom().contains(b),
        book2.blocks == book1.blocks.remove(map.to_phys[b]),
    ensures
        returned(map, book0, book2, v0, v1.released(b)),
{
    let home = map.to_phys[b];
    assert forall|a: int| #[trigger] book1.blocks.dom().contains(a) && map.to_virt[a] == b implies a == home by {}
    let gone = Set::new(
        |a: int| v0.slabs.dom().contains(map.to_virt[a]) && !v1.released(b).slabs.dom().contains(map.to_virt[a]),
    );
    assert forall|a: int| book2.blocks.dom().contains(a) == book0.blocks.remove_keys(gone).dom().contains(a) by {}
    assert(book2.blocks =~= book0.blocks.remove_keys(gone));
}

/// A cache goes from the state `old` to the state `new` and leaves alone what
/// belongs to others: the address translation, the other blocks of the page
/// allocator, and the objects of its own slabs, but for the bytes at `except`.
pub open spec fn framed<M: PhysMap>(
    old_pages: M,
    pages: M,
    old: CacheView,
    new: CacheView,
    except: Option<(int, int)>,
) -> bool {
    &&& pages.mapping() == old_pages.mapping()
    &&& rest_kept(old_pages.mapping(), old_pages.book(), pages.book(), old_pages.mem(), pages.mem(), old.slabs)
    &&& objects_kept(old.layout, old.slabs, new.slabs, old_pages.mem(), pages.mem(), except)
}

/// A write inside the slab at `b` leaves every other slab and every other
/// block alone.
pub proof fn lemma_write_in_slab(
    v: CacheView,
    map: Mapping,
    book: Book,
    old_mem: Map<int, u8>,
    mem: Map<int, u8>,
    b: int,
    ptr: int,
    n: int,
)
    requires
        v.initialized(),
        v.placed_ok(map, book),
        book_ok(map, old_mem, book),
        v.slabs.dom().contains(b),
        b <= ptr,
        ptr + n <= b + v.layout.slab_bytes,
        same_but(old_mem, mem, ptr, n),
    ensures
        rest_kept(map, book, book, old_mem, mem, v.slabs),
        forall|c: int| #[trigger] v.slabs.dom().contains(c) && c != b ==> same_bytes(
            old_mem,
            mem,
            c,
            v.layout.slab_bytes as int,
        ),
        ptr + n <= b + v.layout.first_offset ==> objects_kept(
            v.layout,
            v.slabs,
            v.slabs,
            old_mem,
            mem,
            None,
        ),
        objects_kept(v.layout, v.slabs, v.slabs, old_mem, mem, Some((ptr, n))),
{
    assert forall|c: int| #[trigger] v.slabs.dom().contains(c) && c != b implies same_bytes(
        old_mem,
        mem,
        c,
        v.layout.slab_bytes as int,
    ) by {
        lemma_slabs_apart(v, map, old_mem, book, b, c);
    }
    assert forall|a: int, p: int| #![trigger book.blocks.dom().contains(a), mem[p]]
        book.blocks.dom().contains(a) && !v.slabs.dom().contains(map.to_virt[a]) && map.to_virt[a] <= p
            < map.to_virt[a] + block_bytes(book.page_size as int, book.blocks[a]) implies mem[p] == old_mem[p] by {}
    assert forall|c: int, p: int| #![trigger v.slabs.dom().contains(c), mem[p]]
        v.slabs.dom().contains(c) && c + v.layout.first_offset <= p < c + v.layout.slab_bytes && !(ptr <= p < ptr + n)
            implies mem[p] == old_mem[p] by {}
    if ptr + n <= b + v.layout.first_offset {
        assert forall|c: int, p: int| #![trigger v.slabs.dom().contains(c), mem[p]]
            v.slabs.dom().contains(c) && c + v.layout.first_offset <= p < c + v.layout.slab_bytes
                implies mem[p] == old_mem[p] by {
            if c != b {
                lemma_slabs_apart(v, map, old_mem, book, b, c);
            }
        }
    }
}

/// Two steps that leave the rest alone add up.
pub proof fn lemma_rest_kept_trans(
    map: Mapping,
    book1: Book,
    book2: Book,
    book3: Book,
    mem1: Map<int, u8>,
    mem2: Map<int, u8>,
    mem3: Map<int, u8>,
    slabs1: Map<int, Slab>,
    slabs2: Map<int, Slab>,
)
    requires
        rest_kept(map, book1, book2, mem1, mem2, slabs1),
        rest_kept(map, book2, book3, mem2, mem3, slabs2),
        forall|a: int| #[trigger] book1.blocks.dom().contains(a) && slabs2.dom().contains(map.to_virt[a])
            ==> slabs1.dom().contains(map.to_virt[a]),
    ensures
        rest_kept(map, book1, book3, mem1, mem3, slabs1),
{
    assert forall|a: int| #[trigger] book1.blocks.dom().contains(a) && !slabs1.dom().contains(map.to_virt[a]) implies {
        &&& book3.blocks.dom().contains(a)
        &&& book3.blocks[a] == book1.blocks[a]
    } by {}
    assert forall|a: int, p: int| #![trigger book1.blocks.dom().contains(a), mem3[p]]
        book1.blocks.dom().contains(a) && !slabs1.dom().contains(map.to_virt[a]) && map.to_virt[a] <= p
            < map.to_virt[a] + block_bytes(book1.page_size as int, book1.blocks[a]) implies mem3[p] == mem1[p] by {}
}

/// The links in the free objects of a slab are kept where the objects are.
pub proof fn lemma_objects_kept_links(
    v: CacheView,
    old_mem: Map<int, u8>,
    mem: Map<int, u8>,
    b: int,
    i: int,
)
    requires
        v.structure_ok(),
        v.memory_ok(old_mem),
        v.layout.ok(header_bytes()),
        v.has(b),
        objects_kept(v.layout, v.slabs, v.slabs, old_mem, mem, None),
        0 <= i < v.slabs[b].free.len(),
    ensures
        pointer_at(mem, v.slabs[b].free[i]) == pointer_at(old_mem, v.slabs[b].free[i]),
{
    lemma_slab_free_list(v, old_mem, b);
    let o = v.slabs[b].free[i];
    lemma_grid_bounds(v.layout, b, o);
    assert forall|p: int| o <= p < o + word_bytes() implies #[trigger] mem[p] == old_mem[p] by {}
    lemma_word_same(old_mem, mem, o);
}

/// A change of headers alone moves a cache to the state `new` that the
/// headers describe.
pub proof fn lemma_relinked(v: CacheView, new: CacheView, old_mem: Map<int, u8>, mem: Map<int, u8>)
    requires
        v.structure_ok(),
        v.memory_ok(old_mem),
        v.layout.ok(header_bytes()),
        new.layout == v.layout,
        new.slabs == v.slabs,
        objects_kept(v.layout, v.slabs, v.slabs, old_mem, mem, None),
        forall|i: int| 0 <= i < new.partial.len() ==> new.has(#[trigger] new.partial[i]) && header_at(mem, new.partial[i])
            == slab_header(
            v.layout,
            v.slabs[new.partial[i]],
            true,
            after(new.partial, i),
            before(new.partial, i),
        ),
        forall|b: int| #[trigger] v.slabs.dom().contains(b) && !v.slabs[b].lost && !new.links(b) ==> header_at(mem, b)
            == slab_header(v.layout, v.slabs[b], false, None, None),
        forall|b: int| #[trigger] v.slabs.dom().contains(b) && v.slabs[b].lost ==> header_at(mem, b) == header_at(
            old_mem,
            b,
        ),
    ensures
        new.memory_ok(mem),
{
    reveal(in_memory);
    assert forall|i: int| 0 <= i < new.partial.len() implies slab_ok(
        mem,
        new.layout,
        #[trigger] new.partial[i],
        new.slabs[new.partial[i]],
        true,
        after(new.partial, i),
        before(new.partial, i),
    ) by {
        let b = new.partial[i];
        lemma_slab_free_list(v, old_mem, b);
        assert forall|j: int| 0 <= j < v.slabs[b].free.len() implies pointer_at(mem, #[trigger] v.slabs[b].free[j])
            == after(v.slabs[b].free, j) by {
            lemma_objects_kept_links(v, old_mem, mem, b, j);
        }
    }
    assert forall|b: int| #[trigger] new.slabs.dom().contains(b) && !new.slabs[b].lost && !new.links(b) implies slab_ok(
        mem,
        new.layout,
        b,
        new.slabs[b],
        false,
        None,
        None,
    ) by {
        lemma_slab_free_list(v, old_mem, b);
        assert forall|j: int| 0 <= j < v.slabs[b].free.len() implies pointer_at(mem, #[trigger] v.slabs[b].free[j])
            == after(v.slabs[b].free, j) by {
            lemma_objects_kept_links(v, old_mem, mem, b, j);
        }
    }
}

/// The partial list is no longer than the number of slabs.
pub proof fn lemma_partial_len(v: CacheView)
    requires
        v.structure_ok(),
    ensures
        v.partial.len() <= v.slabs.dom().len(),
{
    v.partial.unique_seq_to_set();
    assert(v.partial.to_set().subset_of(v.slabs.dom())) by {
        assert forall|b: int| #[trigger] v.partial.to_set().contains(b) implies v.slabs.dom().contains(b) by {}
    }
    lemma_len_subset(v.partial.to_set(), v.slabs.dom());
}

/// Two steps of a cache add up.
pub proof fn lemma_framed_trans<M: PhysMap>(
    pages1: M,
    pages2: M,
    pages3: M,
    v1: CacheView,
    v2: CacheView,
    v3: CacheView,
    except: Option<(int, int)>,
)
    requires
        framed(pages1, pages2, v1, v2, None) && framed(pages2, pages3, v2, v3, except) || framed(
            pages1,
            pages2,
            v1,
            v2,
            except,
        ) && framed(pages2, pages3, v2, v3, None),
        v1.layout == v2.layout,
        forall|b: int| #[trigger] v1.slabs.dom().contains(b) && v3.slabs.dom().contains(b) ==> v2.slabs.dom().contains(b),
        forall|a: int| #[trigger] pages1.book().blocks.dom().contains(a) && v2.slabs.dom().contains(
            pages1.mapping().to_virt[a],
        ) ==> v1.slabs.dom().contains(pages1.mapping().to_virt[a]),
    ensures
        framed(pages1, pages3, v1, v3, except),
{
    lemma_rest_kept_trans(
        pages1.mapping(),
        pages1.book(),
        pages2.book(),
        pages3.book(),
        pages1.mem(),
        pages2.mem(),
        pages3.mem(),
        v1.slabs,
        v2.slabs,
    );
    let mem1 = pages1.mem();
    let mem3 = pages3.mem();
    assert forall|b: int, p: int| #![trigger v1.slabs.dom().contains(b), mem3[p]]
        v1.slabs.dom().contains(b) && v3.slabs.dom().contains(b) && b + v1.layout.first_offset <= p < b
            + v1.layout.slab_bytes && !(except matches Some((o, n)) && o <= p < o + n)
            implies mem3[p] == mem1[p] by {}
}

/// The next slab of the partial list is looked at.
pub proof fn lemma_swept_step(v: CacheView, k: int)
    requires
        v.structure_ok(),
        0 <= k < v.partial.len(),
    ensures
        v.inuse(v.partial[k]) > 0 ==> v.swept(k + 1) == v.swept(k),
        v.inuse(v.partial[k]) == 0 ==> v.swept(k + 1) == v.swept(k).unlinked(v.partial[k]).released(v.partial[k]),
        v.swept(k).has(v.partial[k]),
        v.swept(k).links(v.partial[k]),
        v.swept(k).inuse(v.partial[k]) == v.inuse(v.partial[k]),
        v.swept(k).current != Some(v.partial[k]),
        exists|at: int|
            0 <= at < v.swept(k).partial.len() && v.swept(k).partial[at] == v.partial[k] && #[trigger] after(
                v.swept(k).partial,
                at,
            ) == front(v.partial.skip(k + 1)),
{
    reveal(Seq::filter);
    let busy = |b: int| v.inuse(b) > 0;
    let b = v.partial[k];
    let x = v.swept(k);
    let seen = v.partial.take(k);
    let more = v.partial.take(k + 1);
    assert(more.drop_last() =~= seen);
    let kept = seen.filter(busy);
    let at = kept.len() as int;
    assert(x.partial[at] == b);
    assert(after(x.partial, at) == front(v.partial.skip(k + 1)));
    assert(!seen.contains(b)) by {
        if seen.contains(b) {
            let i = seen.index_of(b);
        }
    }
    assert forall|c: int| more.contains(c) <==> seen.contains(c) || c == b by {
        if more.contains(c) {
            let i = more.index_of(c);
        }
    }
    if v.inuse(b) == 0 {
        assert(kept.no_duplicates() && !kept.contains(b)) by {
            lemma_filter_keeps(seen, busy);
        }
        assert(x.partial.no_duplicates()) by {
            lemma_filter_keeps(seen, busy);
            assert forall|i: int, j: int| 0 <= i < x.partial.len() && 0 <= j < x.partial.len() && i != j
                implies x.partial[i] != x.partial[j] by {
                if i < at && at <= j {
                    assert(kept.contains(kept[i]));
                }
                if j < at && at <= i {
                    assert(kept.contains(kept[j]));
                }
            }
        }
    }
}

/// What a filter keeps comes from the list, and once only.
pub proof fn lemma_filter_keeps(list: Seq<int>, pred: spec_fn(int) -> bool)
    requires
        list.no_duplicates(),
    ensures
        list.filter(pred).no_duplicates(),
        forall|c: int| #[trigger] list.filter(pred).contains(c) <==> list.contains(c) && pred(c),
    decreases list.len(),
{
    reveal(Seq::filter);
    if list.len() > 0 {
        let rest = list.drop_last();
        lemma_filter_keeps(rest, pred);
        let sub = rest.filter(pred);
        let out = list.filter(pred);
        assert forall|c: int| #[trigger] out.contains(c) <==> list.contains(c) && pred(c) by {
            if out.contains(c) {
                let i = out.index_of(c);
                if i < sub.len() {
                    assert(sub[i] == c);
                    assert(sub.contains(c));
                    assert(list[rest.index_of(c)] == c);
                } else {
                    assert(list[list.len() - 1] == c);
                }
            }
            if list.contains(c) && pred(c) {
                let i = list.index_of(c);
                if i < list.len() - 1 {
                    assert(rest[i] == c);
                    assert(sub.contains(c));
                    assert(out[sub.index_of(c)] == c);
                } else {
                    assert(out[out.len() - 1] == c);
                }
            }
        }
        if sub.contains(list.last()) {
            assert(rest.contains(list.last()));
            assert(list[rest.index_of(list.last())] == list.last());
        }
    }
}

} // verus!
