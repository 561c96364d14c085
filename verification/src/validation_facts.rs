//! What validation finds, said of the lists that lie in memory.
//!
//! A list in memory is given here as the sequence of its entries.

use vstd::arithmetic::div_mod::lemma_fundamental_div_mod;
use vstd::arithmetic::div_mod::lemma_mod_multiples_basic;
use vstd::prelude::*;

use crate::error::Error;
use crate::header::header_at;
use crate::header::SLAB_MAGIC;
use crate::heap::CLASS_COUNT;
use crate::heap_model::heap_verdict;
use crate::heap_model::verdict_from;
use crate::heap_model::HeapView;
use crate::layout::SlabLayout;
use crate::memory::word_at;
use crate::model::total_free;
use crate::model::CacheView;
use crate::pages::Mapping;
use crate::verdict::chain;
use crate::verdict::object_fits;
use crate::verdict::slab_verdict;
use crate::verdict::verdict;
use crate::verdict::walk;

verus! {

/// The first entry of a list in memory.
pub open spec fn head_of(list: Seq<usize>) -> Option<usize> {
    if list.len() == 0 {
        None
    } else {
        Some(list[0])
    }
}

/// What a word in memory points to.
pub open spec fn link_at(mem: Map<int, u8>, ptr: int) -> Option<usize> {
    if word_at(mem, ptr) == 0 {
        None
    } else {
        Some(word_at(mem, ptr))
    }
}

/// The pointers in memory run through `list`, up to its last entry.
pub open spec fn runs_through(mem: Map<int, u8>, head: Option<usize>, list: Seq<usize>) -> bool {
    &&& list.len() > 0 ==> head == Some(list[0])
    &&& forall|i: int| 0 <= i && i + 1 < list.len() ==> #[trigger] link_at(mem, list[i] as int) == Some(list[i + 1])
}

/// The pointer behind the last entry of `list`, or the head of an empty one.
pub open spec fn leads_to(mem: Map<int, u8>, head: Option<usize>, list: Seq<usize>) -> Option<usize> {
    if list.len() == 0 {
        head
    } else {
        link_at(mem, list.last() as int)
    }
}

/// `object` can be an object of the slab at `slab`: it is a multiple of the
/// stride behind the first one, and ends inside the block.
pub open spec fn belongs(layout: SlabLayout, map: Mapping, slab: int, object: usize) -> bool {
    exists|k: int| {
        &&& 0 <= k
        &&& map.to_phys[object as int] == map.to_phys[slab] + layout.first_offset + #[trigger] (k * layout.stride)
        &&& layout.first_offset + k * layout.stride + layout.object_size <= layout.slab_bytes
    }
}

/// Every entry of `list` belongs to the slab at `slab`.
pub open spec fn all_belong(layout: SlabLayout, map: Mapping, slab: int, list: Seq<usize>) -> bool {
    forall|i: int| 0 <= i < list.len() ==> belongs(layout, map, slab, #[trigger] list[i])
}

/// An object belongs to a slab where validation accepts it.
proof fn lemma_belongs(layout: SlabLayout, map: Mapping, slab: int, object: usize)
    requires
        0 < layout.stride,
    ensures
        belongs(layout, map, slab, object) == object_fits(layout, map, slab, object as int),
{
    let stride = layout.stride as int;
    let offset = map.to_phys[object as int] - map.to_phys[slab];
    let d = offset - layout.first_offset;
    if object_fits(layout, map, slab, object as int) {
        let k = d / stride;
        lemma_fundamental_div_mod(d, stride);
        assert(stride * k == k * stride) by (nonlinear_arith);
        assert(0 <= k) by (nonlinear_arith)
            requires
                d == stride * k,
                0 <= d,
                0 < stride,
        ;
        assert(map.to_phys[object as int] == map.to_phys[slab] + layout.first_offset + k * layout.stride);
    }
    if belongs(layout, map, slab, object) {
        let k = choose|k: int| {
            &&& 0 <= k
            &&& map.to_phys[object as int] == map.to_phys[slab] + layout.first_offset + #[trigger] (k * layout.stride)
            &&& layout.first_offset + k * layout.stride + layout.object_size <= layout.slab_bytes
        };
        lemma_mod_multiples_basic(k, stride);
        assert(0 <= k * stride) by (nonlinear_arith)
            requires
                0 <= k,
                0 < stride,
        ;
    }
}

/// What belongs to a slab is one of its objects, at most one behind the last
/// where the alignment leaves room for one; and none where it leaves none.
pub proof fn what_belongs_is_an_object(layout: SlabLayout, map: Mapping, slab: int, object: usize) -> (k: int)
    requires
        0 < layout.stride,
        layout.slab_bytes < layout.first_offset + (layout.objects + 1) * layout.stride,
        0 < layout.object_size,
        belongs(layout, map, slab, object),
    ensures
        map.to_phys[object as int] == map.to_phys[slab] + layout.first_offset + k * layout.stride,
        0 <= k <= layout.objects,
        layout.object_size == layout.stride ==> k < layout.objects,
{
    let stride = layout.stride as int;
    let n = layout.objects as int;
    let k = choose|k: int| {
        &&& 0 <= k
        &&& map.to_phys[object as int] == map.to_phys[slab] + layout.first_offset + #[trigger] (k * layout.stride)
        &&& layout.first_offset + k * layout.stride + layout.object_size <= layout.slab_bytes
    };
    assert(k <= n) by (nonlinear_arith)
        requires
            k * stride < (n + 1) * stride,
            0 < stride,
    ;
    if layout.object_size == layout.stride {
        assert(k < n) by (nonlinear_arith)
            requires
                k * stride + stride < (n + 1) * stride,
                0 < stride,
        ;
    }
    k
}

/// The walk through a free list, from entry `from` on.
proof fn lemma_chain_along(
    layout: SlabLayout,
    map: Mapping,
    mem: Map<int, u8>,
    slab: int,
    head: Option<usize>,
    list: Seq<usize>,
    from: int,
)
    requires
        0 < layout.stride,
        runs_through(mem, head, list),
        0 <= from <= list.len() <= layout.objects,
        forall|i: int| 0 <= i < list.len() ==> belongs(layout, map, slab, #[trigger] list[i]),
    ensures
        ({
            let node = if from == 0 {
                head
            } else {
                link_at(mem, list[from - 1] as int)
            };
            chain(layout, map, mem, slab, node, from) == chain(
                layout,
                map,
                mem,
                slab,
                leads_to(mem, head, list),
                list.len() as int,
            )
        }),
    decreases list.len() - from,
{
    if from < list.len() {
        lemma_belongs(layout, map, slab, list[from]);
        if from > 0 {
            assert(link_at(mem, list[from - 1] as int) == Some(list[from - 1 + 1]));
        }
        lemma_chain_along(layout, map, mem, slab, head, list, from + 1);
    }
}

/// Where the walk through a free list succeeds, the list that it went through.
proof fn lemma_chain_list(
    layout: SlabLayout,
    map: Mapping,
    mem: Map<int, u8>,
    slab: int,
    node: Option<usize>,
    count: int,
) -> (list: Seq<usize>)
    requires
        0 < layout.stride,
        0 <= count,
        chain(layout, map, mem, slab, node, count) is Ok,
    ensures
        runs_through(mem, node, list),
        leads_to(mem, node, list) is None,
        list.len() == 0 ==> node is None,
        all_belong(layout, map, slab, list),
        chain(layout, map, mem, slab, node, count) == Ok::<int, Error>(count + list.len()),
    decreases layout.objects - count,
{
    match node {
        None => Seq::empty(),
        Some(object) => {
            lemma_belongs(layout, map, slab, object);
            let rest = lemma_chain_list(layout, map, mem, slab, link_at(mem, object as int), count + 1);
            let list = seq![object] + rest;
            assert forall|i: int| 0 <= i && i + 1 < list.len() implies #[trigger] link_at(mem, list[i] as int) == Some(
                list[i + 1],
            ) by {
                if i > 0 {
                    assert(rest[i - 1] == list[i] && rest[i] == list[i + 1]);
                    assert(link_at(mem, rest[i - 1] as int) == Some(rest[i - 1 + 1]));
                }
            }
            assert forall|i: int| 0 <= i < list.len() implies belongs(layout, map, slab, #[trigger] list[i]) by {
                if i > 0 {
                    assert(list[i] == rest[i - 1]);
                }
            }
            if rest.len() > 0 {
                assert(list.last() == rest.last());
            }
            list
        },
    }
}

/// The memory at `slab` holds a sound slab of a cache at `here`: the header is
/// that of such a slab, and the free list runs through `free`, which are as
/// many objects of the slab as the header says are not in use.
pub open spec fn sound_slab(
    layout: SlabLayout,
    map: Mapping,
    mem: Map<int, u8>,
    here: usize,
    slab: int,
    free: Seq<usize>,
) -> bool {
    let header = header_at(mem, slab);
    &&& header.magic == SLAB_MAGIC
    &&& header.owner == here
    &&& header.order == layout.order
    &&& header.objects == layout.objects
    &&& header.inuse + free.len() == layout.objects
    &&& runs_through(mem, header.freelist, free)
    &&& leads_to(mem, header.freelist, free) is None
    &&& all_belong(layout, map, slab, free)
}

/// A slab passes exactly where it is sound, with as many free objects as its
/// list has.
pub proof fn sound_slabs_pass(
    layout: SlabLayout,
    map: Mapping,
    mem: Map<int, u8>,
    here: usize,
    slab: int,
    free: Seq<usize>,
)
    requires
        0 < layout.stride,
        sound_slab(layout, map, mem, here, slab, free),
    ensures
        slab_verdict(layout, map, mem, here, slab) == Ok::<int, Error>(free.len() as int),
{
    lemma_chain_along(layout, map, mem, slab, header_at(mem, slab).freelist, free, 0);
}

/// A slab that passes is sound; `free` is its free list.
pub proof fn slabs_that_pass_are_sound(
    layout: SlabLayout,
    map: Mapping,
    mem: Map<int, u8>,
    here: usize,
    slab: int,
) -> (free: Seq<usize>)
    requires
        0 < layout.stride,
        slab_verdict(layout, map, mem, here, slab) is Ok,
    ensures
        sound_slab(layout, map, mem, here, slab, free),
        slab_verdict(layout, map, mem, here, slab) == Ok::<int, Error>(free.len() as int),
{
    lemma_chain_list(layout, map, mem, slab, header_at(mem, slab).freelist, 0)
}

/// What is reported for a slab that is not sound. A header of another kind, a
/// free list that leaves the objects of the slab and one that does not end in
/// time are corrupt; a count that does not match is a mismatch.
pub proof fn unsound_slabs_are_reported(
    layout: SlabLayout,
    map: Mapping,
    mem: Map<int, u8>,
    here: usize,
    slab: int,
    free: Seq<usize>,
)
    requires
        0 < layout.stride,
        runs_through(mem, header_at(mem, slab).freelist, free),
        all_belong(layout, map, slab, free),
        free.len() <= layout.objects,
    ensures
        ({
            let header = header_at(mem, slab);
            let strange = header.magic != SLAB_MAGIC || header.owner != here || header.order != layout.order
                || header.objects != layout.objects;
            let over = header.inuse > layout.objects;
            let next = leads_to(mem, header.freelist, free);
            let verdict = slab_verdict(layout, map, mem, here, slab);
            &&& strange ==> verdict == Err::<int, Error>(Error::CorruptSlab)
            &&& !strange && over ==> verdict == Err::<int, Error>(Error::CountMismatch)
            &&& !strange && !over && next is Some && (free.len() == layout.objects || !belongs(
                layout,
                map,
                slab,
                next->0,
            )) ==> verdict == Err::<int, Error>(Error::CorruptSlab)
            &&& !strange && !over && next is None && header.inuse + free.len() != layout.objects ==> verdict == Err::<
                int,
                Error,
            >(Error::CountMismatch)
        }),
{
    let header = header_at(mem, slab);
    lemma_chain_along(layout, map, mem, slab, header.freelist, free, 0);
    if let Some(object) = leads_to(mem, header.freelist, free) {
        lemma_belongs(layout, map, slab, object);
    }
}

/// The sum of the lengths of `lists`.
pub open spec fn total_len(lists: Seq<Seq<usize>>) -> int
    decreases lists.len(),
{
    if lists.len() == 0 {
        0
    } else {
        lists[0].len() + total_len(lists.drop_first())
    }
}

/// Entry `i` of the list is a sound slab that is in the list: it names the
/// entry in front of it, which is `prev` for the first one, and, where there
/// is one, the entry behind it.
pub open spec fn sound_entry(
    layout: SlabLayout,
    map: Mapping,
    mem: Map<int, u8>,
    here: usize,
    prev: Option<usize>,
    list: Seq<usize>,
    free: Seq<Seq<usize>>,
    i: int,
) -> bool {
    let header = header_at(mem, list[i] as int);
    &&& header.on_partial
    &&& header.prev == (if i == 0 {
        prev
    } else {
        Some(list[i - 1])
    })
    &&& i + 1 < list.len() ==> header.next == Some(list[i + 1])
    &&& sound_slab(layout, map, mem, here, list[i] as int, free[i])
}

/// The entries of `list` are sound slabs with the free lists `free` and follow
/// each other, behind `prev`.
pub open spec fn sound_front(
    layout: SlabLayout,
    map: Mapping,
    mem: Map<int, u8>,
    here: usize,
    prev: Option<usize>,
    list: Seq<usize>,
    free: Seq<Seq<usize>>,
) -> bool {
    &&& free.len() == list.len()
    &&& forall|i: int| 0 <= i < list.len() ==> #[trigger] sound_entry(layout, map, mem, here, prev, list, free, i)
}

/// The memory holds a sound partial list: `list`, linked both ways from `head`
/// on, in front of which is `prev`, with slabs whose free lists are `free`.
pub open spec fn sound_list(
    layout: SlabLayout,
    map: Mapping,
    mem: Map<int, u8>,
    here: usize,
    head: Option<usize>,
    prev: Option<usize>,
    list: Seq<usize>,
    free: Seq<Seq<usize>>,
) -> bool {
    &&& sound_front(layout, map, mem, here, prev, list, free)
    &&& head == head_of(list)
    &&& list.len() > 0 ==> header_at(mem, list.last() as int).next is None
}

/// One step of the walk through the partial list.
proof fn lemma_walk_step(
    layout: SlabLayout,
    map: Mapping,
    mem: Map<int, u8>,
    here: usize,
    most: int,
    slab: usize,
    prev: Option<usize>,
    len: int,
    total: int,
    free: Seq<usize>,
)
    requires
        0 < layout.stride,
        header_at(mem, slab as int).on_partial,
        header_at(mem, slab as int).prev == prev,
        sound_slab(layout, map, mem, here, slab as int, free),
        len < most,
    ensures
        walk(layout, map, mem, here, most, Some(slab), prev, len, total) == walk(
            layout,
            map,
            mem,
            here,
            most,
            header_at(mem, slab as int).next,
            Some(slab),
            len + 1,
            total + free.len(),
        ),
{
    sound_slabs_pass(layout, map, mem, here, slab as int, free);
}

/// What follows the first of some sound entries are sound entries.
proof fn lemma_front_rest(
    layout: SlabLayout,
    map: Mapping,
    mem: Map<int, u8>,
    here: usize,
    prev: Option<usize>,
    list: Seq<usize>,
    free: Seq<Seq<usize>>,
)
    requires
        sound_front(layout, map, mem, here, prev, list, free),
        list.len() > 0,
    ensures
        sound_front(layout, map, mem, here, Some(list[0]), list.drop_first(), free.drop_first()),
{
    let rest = list.drop_first();
    let frees = free.drop_first();
    assert forall|i: int| 0 <= i < rest.len() implies #[trigger] sound_entry(
        layout,
        map,
        mem,
        here,
        Some(list[0]),
        rest,
        frees,
        i,
    ) by {
        assert(sound_entry(layout, map, mem, here, prev, list, free, i + 1));
    }
}

/// A sound entry in front of sound ones makes them longer.
proof fn lemma_front_longer(
    layout: SlabLayout,
    map: Mapping,
    mem: Map<int, u8>,
    here: usize,
    prev: Option<usize>,
    slab: usize,
    free: Seq<usize>,
    rest: Seq<usize>,
    frees: Seq<Seq<usize>>,
)
    requires
        sound_front(layout, map, mem, here, Some(slab), rest, frees),
        header_at(mem, slab as int).on_partial,
        header_at(mem, slab as int).prev == prev,
        rest.len() > 0 ==> header_at(mem, slab as int).next == Some(rest[0]),
        sound_slab(layout, map, mem, here, slab as int, free),
    ensures
        sound_front(layout, map, mem, here, prev, seq![slab] + rest, seq![free] + frees),
{
    let list = seq![slab] + rest;
    let all = seq![free] + frees;
    assert forall|i: int| 0 <= i < list.len() implies #[trigger] sound_entry(
        layout,
        map,
        mem,
        here,
        prev,
        list,
        all,
        i,
    ) by {
        if i > 0 {
            assert(sound_entry(layout, map, mem, here, Some(slab), rest, frees, i - 1));
        }
    }
}

/// Where the walk through the partial list succeeds, the list that it went
/// through.
proof fn lemma_walk_list(
    layout: SlabLayout,
    map: Mapping,
    mem: Map<int, u8>,
    here: usize,
    most: int,
    node: Option<usize>,
    prev: Option<usize>,
    len: int,
    total: int,
) -> (found: (Seq<usize>, Seq<Seq<usize>>))
    requires
        0 < layout.stride,
        walk(layout, map, mem, here, most, node, prev, len, total) is Ok,
    ensures
        sound_list(layout, map, mem, here, node, prev, found.0, found.1),
        walk(layout, map, mem, here, most, node, prev, len, total) == Ok::<(int, int), Error>(
            (len + found.0.len(), total + total_len(found.1)),
        ),
    decreases most - len,
{
    match node {
        None => (Seq::empty(), Seq::empty()),
        Some(slab) => {
            let header = header_at(mem, slab as int);
            let free = slabs_that_pass_are_sound(layout, map, mem, here, slab as int);
            let (rest, frees) = lemma_walk_list(
                layout,
                map,
                mem,
                here,
                most,
                header.next,
                node,
                len + 1,
                total + free.len(),
            );
            let list = seq![slab] + rest;
            let all = seq![free] + frees;
            lemma_front_longer(layout, map, mem, here, prev, slab, free, rest, frees);
            assert(all.drop_first() =~= frees);
            if rest.len() > 0 {
                assert(list.last() == rest.last());
            }
            (list, all)
        },
    }
}

/// The walk through the partial list goes on behind its sound entries.
proof fn lemma_walk_front(
    layout: SlabLayout,
    map: Mapping,
    mem: Map<int, u8>,
    here: usize,
    most: int,
    node: Option<usize>,
    prev: Option<usize>,
    len: int,
    total: int,
    list: Seq<usize>,
    free: Seq<Seq<usize>>,
)
    requires
        0 < layout.stride,
        sound_front(layout, map, mem, here, prev, list, free),
        list.len() > 0 ==> node == Some(list[0]),
        len + list.len() <= most,
    ensures
        walk(layout, map, mem, here, most, node, prev, len, total) == walk(
            layout,
            map,
            mem,
            here,
            most,
            if list.len() == 0 {
                node
            } else {
                header_at(mem, list.last() as int).next
            },
            if list.len() == 0 {
                prev
            } else {
                Some(list.last())
            },
            len + list.len(),
            total + total_len(free),
        ),
    decreases list.len(),
{
    if list.len() > 0 {
        let rest = list.drop_first();
        let frees = free.drop_first();
        assert(sound_entry(layout, map, mem, here, prev, list, free, 0));
        lemma_walk_step(layout, map, mem, here, most, list[0], prev, len, total, free[0]);
        lemma_front_rest(layout, map, mem, here, prev, list, free);
        if rest.len() > 0 {
            assert(rest.last() == list.last());
        }
        lemma_walk_front(
            layout,
            map,
            mem,
            here,
            most,
            header_at(mem, list[0] as int).next,
            node,
            len + 1,
            total + free[0].len(),
            rest,
            frees,
        );
    }
}

/// The memory of a cache at `here` is sound: the active slab, which is in no
/// list and has the free list `first`; and the partial list, `list`, with the
/// free lists `free`, which is as long as the cache counts. Together they have
/// as many free objects as the cache counts.
pub open spec fn sound_cache(
    v: CacheView,
    map: Mapping,
    mem: Map<int, u8>,
    here: usize,
    first: Seq<usize>,
    list: Seq<usize>,
    free: Seq<Seq<usize>>,
) -> bool {
    &&& match v.current {
        None => first.len() == 0,
        Some(slab) => !header_at(mem, slab).on_partial && sound_slab(v.layout, map, mem, here, slab, first),
    }
    &&& sound_list(
        v.layout,
        map,
        mem,
        here,
        if v.partial.len() == 0 {
            None
        } else {
            Some(v.partial[0] as usize)
        },
        None,
        list,
        free,
    )
    &&& list.len() == v.partial.len()
    &&& first.len() + total_len(free) == total_free(v.slabs)
}

/// A cache that passes validation is sound: every slab that can be reached has
/// the header of a slab of this cache, and every pointer on its free list is
/// that of one of its objects.
pub proof fn caches_that_pass_are_sound(v: CacheView, map: Mapping, mem: Map<int, u8>, here: usize) -> (found: (
    Seq<usize>,
    Seq<usize>,
    Seq<Seq<usize>>,
))
    requires
        0 < v.layout.stride,
        verdict(v, map, mem, here) == Ok::<(), Error>(()),
    ensures
        v.layout.slab_bytes != 0,
        sound_cache(v, map, mem, here, found.0, found.1, found.2),
{
    let first = match v.current {
        None => Seq::empty(),
        Some(slab) => slabs_that_pass_are_sound(v.layout, map, mem, here, slab),
    };
    let head = if v.partial.len() == 0 {
        None
    } else {
        Some(v.partial[0] as usize)
    };
    let (list, free) = lemma_walk_list(
        v.layout,
        map,
        mem,
        here,
        v.slabs.dom().len() as int,
        head,
        None,
        0,
        first.len() as int,
    );
    (first, list, free)
}

/// A cache that is sound, and whose partial list is no longer than it has
/// slabs, passes validation.
pub proof fn sound_caches_pass(
    v: CacheView,
    map: Mapping,
    mem: Map<int, u8>,
    here: usize,
    first: Seq<usize>,
    list: Seq<usize>,
    free: Seq<Seq<usize>>,
)
    requires
        0 < v.layout.stride,
        v.layout.slab_bytes != 0,
        v.partial.len() <= v.slabs.dom().len(),
        sound_cache(v, map, mem, here, first, list, free),
    ensures
        verdict(v, map, mem, here) == Ok::<(), Error>(()),
{
    if let Some(slab) = v.current {
        sound_slabs_pass(v.layout, map, mem, here, slab, first);
    }
    lemma_walk_front(
        v.layout,
        map,
        mem,
        here,
        v.slabs.dom().len() as int,
        if v.partial.len() == 0 {
            None
        } else {
            Some(v.partial[0] as usize)
        },
        None,
        0,
        first.len() as int,
        list,
        free,
    );
}

/// What is wrong with the active slab is what validation reports first. A
/// cache without a layout is reported as such.
pub proof fn the_active_slab_is_judged_first(v: CacheView, map: Mapping, mem: Map<int, u8>, here: usize)
    ensures
        v.layout.slab_bytes == 0 ==> verdict(v, map, mem, here) == Err::<(), Error>(Error::Uninitialized),
        v.layout.slab_bytes != 0 && v.current is Some ==> {
            let slab = v.current->0;
            let found = slab_verdict(v.layout, map, mem, here, slab);
            &&& header_at(mem, slab).on_partial ==> verdict(v, map, mem, here) == Err::<(), Error>(Error::CorruptSlab)
            &&& !header_at(mem, slab).on_partial && found is Err ==> verdict(v, map, mem, here) == Err::<(), Error>(
                found->Err_0,
            )
        },
{
}

/// With a sound active slab, what is wrong with the first entry of the partial
/// list that is not sound is what validation reports; a list that is too long
/// is corrupt, and a count that does not match is a mismatch.
pub proof fn the_partial_list_is_judged_in_order(
    v: CacheView,
    map: Mapping,
    mem: Map<int, u8>,
    here: usize,
    first: Seq<usize>,
    list: Seq<usize>,
    free: Seq<Seq<usize>>,
)
    requires
        0 < v.layout.stride,
        v.layout.slab_bytes != 0,
        match v.current {
            None => first.len() == 0,
            Some(slab) => !header_at(mem, slab).on_partial && sound_slab(v.layout, map, mem, here, slab, first),
        },
        good_front(v, map, mem, here, list, free),
    ensures
        ({
            let next = if list.len() == 0 {
                if v.partial.len() == 0 {
                    None
                } else {
                    Some(v.partial[0] as usize)
                }
            } else {
                header_at(mem, list.last() as int).next
            };
            let prev = if list.len() == 0 {
                None
            } else {
                Some(list.last())
            };
            let report = verdict(v, map, mem, here);
            match next {
                Some(slab) => {
                    let header = header_at(mem, slab as int);
                    let found = slab_verdict(v.layout, map, mem, here, slab as int);
                    &&& !header.on_partial || header.prev != prev ==> report == Err::<(), Error>(Error::CorruptSlab)
                    &&& header.on_partial && header.prev == prev && found is Err ==> report == Err::<(), Error>(
                        found->Err_0,
                    )
                    &&& header.on_partial && header.prev == prev && found is Ok && list.len() == v.slabs.dom().len()
                        ==> report == Err::<(), Error>(Error::CorruptSlab)
                },
                None => list.len() != v.partial.len() || first.len() + total_len(free) != total_free(v.slabs)
                    ==> report == Err::<(), Error>(Error::CountMismatch),
            }
        }),
{
    if let Some(slab) = v.current {
        sound_slabs_pass(v.layout, map, mem, here, slab, first);
    }
    let head = if v.partial.len() == 0 {
        None
    } else {
        Some(v.partial[0] as usize)
    };
    lemma_walk_front(
        v.layout,
        map,
        mem,
        here,
        v.slabs.dom().len() as int,
        head,
        None,
        0,
        first.len() as int,
        list,
        free,
    );
}

/// The first entries of the partial list in memory are `list`, and sound.
pub open spec fn good_front(
    v: CacheView,
    map: Mapping,
    mem: Map<int, u8>,
    here: usize,
    list: Seq<usize>,
    free: Seq<Seq<usize>>,
) -> bool {
    &&& list.len() <= v.slabs.dom().len()
    &&& list.len() > 0 ==> v.partial.len() > 0 && list[0] == v.partial[0] as usize
    &&& sound_front(v.layout, map, mem, here, None, list, free)
}

/// A heap passes validation where each of its caches does, and otherwise
/// reports what the first one that does not pass reports.
pub proof fn heaps_pass_where_their_caches_do(h: HeapView, map: Mapping, mem: Map<int, u8>, heres: Seq<usize>, first: int)
    ensures
        !h.initialized ==> heap_verdict(h, map, mem, heres) == Err::<(), Error>(Error::Uninitialized),
        h.initialized && (forall|i: int|
            0 <= i < CLASS_COUNT && h.active[i] ==> verdict(#[trigger] h.caches[i], map, mem, heres[i]) == Ok::<
                (),
                Error,
            >(())) ==> heap_verdict(h, map, mem, heres) == Ok::<(), Error>(()),
        h.initialized && 0 <= first < CLASS_COUNT && h.active[first] && verdict(
            h.caches[first],
            map,
            mem,
            heres[first],
        ) is Err && (forall|i: int|
            0 <= i < first && h.active[i] ==> verdict(#[trigger] h.caches[i], map, mem, heres[i]) == Ok::<(), Error>(
                (),
            )) ==> heap_verdict(h, map, mem, heres) == verdict(h.caches[first], map, mem, heres[first]),
{
    if h.initialized {
        lemma_verdict_behind(h, map, mem, heres, first, 0);
    }
}

/// The same of the caches of the classes from `from` on.
proof fn lemma_verdict_behind(
    h: HeapView,
    map: Mapping,
    mem: Map<int, u8>,
    heres: Seq<usize>,
    first: int,
    from: int,
)
    requires
        0 <= from <= CLASS_COUNT,
    ensures
        (forall|i: int|
            from <= i < CLASS_COUNT && h.active[i] ==> verdict(#[trigger] h.caches[i], map, mem, heres[i]) == Ok::<
                (),
                Error,
            >(())) ==> verdict_from(h, map, mem, heres, from) == Ok::<(), Error>(()),
        from <= first < CLASS_COUNT && h.active[first] && verdict(h.caches[first], map, mem, heres[first]) is Err && (
        forall|i: int|
            from <= i < first && h.active[i] ==> verdict(#[trigger] h.caches[i], map, mem, heres[i]) == Ok::<
                (),
                Error,
            >(())) ==> verdict_from(h, map, mem, heres, from) == verdict(h.caches[first], map, mem, heres[first]),
    decreases CLASS_COUNT - from,
{
    if from < CLASS_COUNT {
        lemma_verdict_behind(h, map, mem, heres, first, from + 1);
    }
}

} // verus!
