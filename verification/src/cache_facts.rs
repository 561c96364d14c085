//! What the operations of a cache come to, said of slabs, objects and lists.

use vstd::arithmetic::div_mod::lemma_div_multiples_vanish;
use vstd::arithmetic::div_mod::lemma_fundamental_div_mod;
use vstd::arithmetic::div_mod::lemma_mod_multiples_basic;
use vstd::arithmetic::power2::pow2;
use vstd::prelude::*;

use crate::cache::DEFAULT_MIN_PARTIAL;
use crate::cache::MIN_OBJECTS;
use crate::error::Error;
use crate::header::header_at;
use crate::header::header_bytes;
use crate::header::SLAB_MAGIC;
use crate::laws::lemma_list_fits;
use crate::laws::live_objects_are_counted;
use crate::laws::live_objects_can_be_freed;
use crate::laws::shrinking_an_idle_cache_releases_everything;
use crate::layout::laid_out;
use crate::layout::layout_error;
use crate::lists::lemma_pushed_contains;
use crate::memory::lemma_word_fits;
use crate::model::framed;
use crate::model::lemma_slab_free_list;
use crate::model::lemma_total_free_insert;
use crate::model::lemma_total_free_split;
use crate::model::returned;
use crate::model::total_free;
use crate::model::CacheView;
use crate::model::Slab;
use crate::objects::lemma_object_address;
use crate::objects::lemma_used_header;
use crate::outcome::alloc_outcome;
use crate::outcome::destroy_outcome;
use crate::outcome::free_outcome;
use crate::outcome::handed_out_is_live;
use crate::outcome::init_outcome;
use crate::outcome::placeholder;
use crate::outcome::shrink_outcome;
use crate::pages::book_ok;
use crate::pages::Book;
use crate::pages::Mapping;
use crate::pages::PageAlloc;
use crate::pages::PhysMap;

verus! {

/// The address of object `k` of the slab at `b`.
pub open spec fn place_of(v: CacheView, b: int, k: int) -> int {
    b + v.layout.first_offset + k * v.layout.stride
}

/// Object `k` of the slab at `b` is in use: the slab has not been given up,
/// and the object is not on its free list.
pub open spec fn in_use(v: CacheView, b: int, k: int) -> bool {
    &&& v.slabs.dom().contains(b)
    &&& !v.slabs[b].lost
    &&& 0 <= k < v.layout.objects
    &&& !v.slabs[b].free.contains(place_of(v, b, k))
}

/// What counts as an object in use: it lies at a multiple of the stride behind
/// the first object, before the last one, and is not on the free list.
pub proof fn objects_in_use_lie_on_the_grid(v: CacheView, b: int, ptr: int) -> (k: int)
    requires
        0 < v.layout.stride,
    ensures
        v.lives(b, ptr) <==> in_use(v, b, k) && ptr == place_of(v, b, k),
        k == (ptr - b - v.layout.first_offset) / (v.layout.stride as int),
{
    let stride = v.layout.stride as int;
    let offset = ptr - b - v.layout.first_offset;
    let k = offset / stride;
    lemma_fundamental_div_mod(offset, stride);
    assert(stride * k == k * stride) by (nonlinear_arith);
    if 0 <= offset {
        assert(0 <= k) by (nonlinear_arith)
            requires
                offset == stride * k + offset % stride,
                0 <= offset,
                0 <= offset % stride < stride,
                0 < stride,
        ;
    }
    if 0 <= k {
        assert(0 <= k * stride) by (nonlinear_arith)
            requires
                0 <= k,
                0 < stride,
        ;
    }
    k
}

/// Every object that a cache has is its own: `k` is all there is to tell the
/// objects of a slab apart.
proof fn lemma_place(v: CacheView, b: int, k: int)
    requires
        0 < v.layout.stride,
    ensures
        (place_of(v, b, k) - b - v.layout.first_offset) / (v.layout.stride as int) == k,
{
    let stride = v.layout.stride as int;
    lemma_div_multiples_vanish(k, stride);
    assert(stride * k == k * stride) by (nonlinear_arith);
}

/// An object in use, said the other way round.
pub proof fn lemma_in_use_lives(v: CacheView, b: int, k: int)
    requires
        0 < v.layout.stride,
    ensures
        0 <= k < v.layout.objects ==> in_use(v, b, k) == v.lives(b, place_of(v, b, k)),
{
    lemma_place(v, b, k);
    objects_in_use_lie_on_the_grid(v, b, place_of(v, b, k));
}

/// What is allocated is an object that was not in use, and it is from then on.
/// No other object changes hands.
pub proof fn allocating_uses_one_more_object<PA: PageAlloc>(
    old: CacheView,
    new: CacheView,
    old_pages: PA,
    pages: PA,
    here: usize,
    ptr: usize,
) -> (place: (int, int))
    requires
        old.ok(old_pages.mapping(), old_pages.mem(), old_pages.book()),
        alloc_outcome(old, new, old_pages, pages, here, Ok(ptr)),
    ensures
        old.initialized(),
        new.layout == old.layout,
        ptr == place_of(new, place.0, place.1),
        in_use(new, place.0, place.1),
        !in_use(old, place.0, place.1),
        forall|c: int, j: int| (c, j) != place && 0 <= j < old.layout.objects ==> #[trigger] in_use(new, c, j) == in_use(
            old,
            c,
            j,
        ),
{
    let l = old.layout;
    handed_out_is_live(
        old,
        new,
        old_pages.mapping(),
        old_pages.mem(),
        old_pages.book(),
        pages.book(),
        here,
        ptr as int,
    );
    lemma_word_fits();
    let b = new.current->0;
    let k = objects_in_use_lie_on_the_grid(new, b, ptr as int);
    assert(!in_use(old, b, k)) by {
        lemma_in_use_lives(old, b, k);
    }
    assert forall|c: int, j: int| (c, j) != (b, k) && 0 <= j < l.objects implies #[trigger] in_use(new, c, j) == in_use(
        old,
        c,
        j,
    ) by {
        lemma_place(old, c, j);
        lemma_place(new, c, j);
        let q = place_of(old, c, j);
        if old.ready() || old.partial.len() > 0 {
            if c == b {
                let free = old.slabs[c].free;
                lemma_slab_free_list(old, old_pages.mem(), c);
                assert(q != ptr) by {
                    lemma_place(old, b, k);
                }
                assert(free.drop_first().contains(q) == free.contains(q)) by {
                    if free.contains(q) {
                        let i = free.index_of(q);
                        assert(free.drop_first()[i - 1] == q);
                    }
                    if free.drop_first().contains(q) {
                        let i = free.drop_first().index_of(q);
                        assert(free[i + 1] == q);
                    }
                }
            }
        } else if c == b {
            let whole = Seq::new(l.objects as nat, |i: int| l.object_at(b, i));
            assert(k == 0) by {
                assert(0 * l.stride == 0);
                lemma_place(new, b, 0);
            }
            assert(whole.drop_first()[j - 1] == q);
        }
    }
    (b, k)
}

/// Which object is allocated: the first free one of the active slab; if that
/// has none, the first free one of the first partial slab, which leaves the
/// list; and only where no slab that can still be used has a free object, the
/// lowest one of a new slab, whose free list runs upwards from there.
pub proof fn allocating_prefers_the_active_slab<PA: PageAlloc>(
    old: CacheView,
    new: CacheView,
    old_pages: PA,
    pages: PA,
    here: usize,
    ptr: usize,
)
    requires
        old.ok(old_pages.mapping(), old_pages.mem(), old_pages.book()),
        alloc_outcome(old, new, old_pages, pages, here, Ok(ptr)),
    ensures
        new.current is Some,
        new.min_partial == old.min_partial,
        new.name == old.name,
        ({
            let b = new.current->0;
            if old.current is Some && old.slabs[old.current->0].free.len() > 0 {
                &&& b == old.current->0
                &&& ptr == old.slabs[b].free[0]
                &&& new.slabs == old.slabs.insert(b, Slab { free: old.slabs[b].free.drop_first(), ..old.slabs[b] })
                &&& new.partial == old.partial
                &&& pages.book() == old_pages.book()
            } else if old.partial.len() > 0 {
                &&& b == old.partial[0]
                &&& ptr == old.slabs[b].free[0]
                &&& new.slabs == old.slabs.insert(b, Slab { free: old.slabs[b].free.drop_first(), ..old.slabs[b] })
                &&& new.partial == old.partial.drop_first()
                &&& pages.book() == old_pages.book()
            } else {
                let block = old_pages.mapping().to_phys[b];
                &&& forall|c: int| #[trigger] old.slabs.dom().contains(c) && !old.slabs[c].lost ==> old.slabs[c].free.len()
                    == 0
                &&& !old.slabs.dom().contains(b)
                &&& ptr == b + old.layout.first_offset
                &&& new.slabs.dom() == old.slabs.dom().insert(b)
                &&& forall|c: int| #[trigger] old.slabs.dom().contains(c) ==> new.slabs[c] == old.slabs[c]
                &&& new.slabs[b].owner == here
                &&& !new.slabs[b].lost
                &&& new.slabs[b].free.len() == old.layout.objects - 1
                &&& forall|k: int|
                    1 <= k < old.layout.objects ==> #[trigger] new.slabs[b].free[k - 1] == place_of(old, b, k)
                &&& new.partial == old.partial
                &&& !old_pages.book().refused.dom().contains(old.layout.order)
                &&& !old_pages.book().blocks.dom().contains(block)
                &&& pages.book().blocks == old_pages.book().blocks.insert(block, old.layout.order)
                &&& old_pages.mapping().to_virt[block] == b
            }
        }),
{
    if !(old.current is Some && old.slabs[old.current->0].free.len() > 0) && old.partial.len() == 0 {
        let b = new.current->0;
        assert forall|k: int| 1 <= k < old.layout.objects implies #[trigger] new.slabs[b].free[k - 1] == place_of(
            old,
            b,
            k,
        ) by {}
        assert(new.slabs.dom() =~= old.slabs.dom().insert(b));
    }
}

/// An allocation fails before initialization, and where no slab that can still
/// be used has a free object and the page allocator has no block for another
/// one, with the error of the page allocator; then all objects stay as they
/// are.
pub proof fn allocating_fails_only_without_room<PA: PageAlloc>(
    old: CacheView,
    new: CacheView,
    old_pages: PA,
    pages: PA,
    here: usize,
    result: Result<usize, Error>,
)
    requires
        old.ok(old_pages.mapping(), old_pages.mem(), old_pages.book()),
        alloc_outcome(old, new, old_pages, pages, here, result),
    ensures
        !old.initialized() ==> result == Err::<usize, Error>(Error::Uninitialized) && new == old && pages == old_pages,
        old.initialized() ==> {
            let full = forall|b: int| #[trigger]
                old.slabs.dom().contains(b) && !old.slabs[b].lost ==> old.slabs[b].free.len() == 0;
            let refused = old_pages.book().refused.dom().contains(old.layout.order);
            &&& result is Err <==> full && refused
            &&& result matches Err(error) ==> {
                &&& error == old_pages.book().refused[old.layout.order]
                &&& new == CacheView { current: None, ..old }
                &&& pages.book().blocks == old_pages.book().blocks
            }
        },
{
    if old.initialized() {
        if let Some(c) = old.current {
            assert(old.slabs.dom().contains(c));
        }
        if old.partial.len() > 0 {
            assert(old.slabs.dom().contains(old.partial[0]));
        }
    }
}

/// The list without the slab at `b`.
pub open spec fn list_without(list: Seq<int>, b: int) -> Seq<int> {
    list.filter(|c: int| c != b)
}

/// What is freed goes to the front of the free list of its slab. No other
/// object changes hands, and no other slab changes.
pub proof fn freeing_uses_one_object_less<PA: PageAlloc>(
    old: CacheView,
    new: CacheView,
    old_pages: PA,
    pages: PA,
    here: usize,
    b: int,
    k: int,
    result: Result<(), Error>,
)
    requires
        old_pages.inv(),
        old.initialized(),
        old.ok(old_pages.mapping(), old_pages.mem(), old_pages.book()),
        in_use(old, b, k),
        here == old.slabs[b].owner,
        free_outcome(old, new, old_pages, pages, here, place_of(old, b, k), result),
    ensures
        new.layout == old.layout,
        new.min_partial == old.min_partial,
        new.current == old.current,
        !in_use(new, b, k),
        forall|c: int, j: int|
            (c, j) != (b, k) && 0 <= j < old.layout.objects && in_use(old, c, j) ==> #[trigger] in_use(new, c, j),
        forall|c: int, j: int| #[trigger] in_use(new, c, j) ==> in_use(old, c, j),
        forall|c: int| c != b && #[trigger] old.slabs.dom().contains(c) ==> new.slabs.dom().contains(c) && new.slabs[c]
            == old.slabs[c],
        forall|c: int| #[trigger] new.slabs.dom().contains(c) ==> old.slabs.dom().contains(c),
        new.slabs.dom().contains(b) ==> {
            &&& new.slabs[b].free == seq![place_of(old, b, k)] + old.slabs[b].free
            &&& new.slabs[b].owner == old.slabs[b].owner
        },
{
    lemma_word_fits();
    let ptr = place_of(old, b, k);
    lemma_in_use_lives(old, b, k);
    live_objects_can_be_freed(old, old_pages, here, b, ptr);
    let free = seq![ptr] + old.slabs[b].free;
    assert(free[0] == ptr);
    live_objects_are_counted(old, old_pages.mem(), b, ptr);
    assert forall|c: int, j: int|
        (c, j) != (b, k) && 0 <= j < old.layout.objects && in_use(old, c, j) implies #[trigger] in_use(new, c, j) by {
        let q = place_of(old, c, j);
        if c == b {
            lemma_place(old, b, j);
            lemma_place(old, b, k);
            assert(q != ptr);
            lemma_pushed_contains(old.slabs[b].free, ptr);
            lemma_in_use_lives(old, b, j);
            lemma_two_live(old, old_pages.mem(), b, ptr, q);
        }
    }
    assert forall|c: int, j: int| #[trigger] in_use(new, c, j) implies in_use(old, c, j) by {
        lemma_pushed_contains(old.slabs[b].free, ptr);
    }
}

/// Two objects in use count as two.
proof fn lemma_two_live(v: CacheView, mem: Map<int, u8>, b: int, p: int, q: int)
    requires
        v.structure_ok(),
        v.memory_ok(mem),
        v.layout.ok(header_bytes()),
        v.lives(b, p),
        v.lives(b, q),
        p != q,
    ensures
        v.inuse(b) >= 2,
{
    lemma_slab_free_list(v, mem, b);
    let list = v.slabs[b].free.push(p).push(q);
    assert forall|i: int, j: int| 0 <= i < list.len() && 0 <= j < list.len() && i != j implies list[i] != list[j] by {
        if i < v.slabs[b].free.len() {
            assert(v.slabs[b].free.contains(list[i]));
        }
        if j < v.slabs[b].free.len() {
            assert(v.slabs[b].free.contains(list[j]));
        }
    }
    lemma_list_fits(v.layout, b, list);
}

/// What becomes of the slab that an object goes back to.
///
/// While other objects of it are in use it stays, in reach: in the partial
/// list, at its front if it was not there, or as the active slab. With none
/// left it stays as the active slab, or in a partial list that is no longer
/// than `min_partial`; it leaves a longer list, and a slab that was in no list
/// does not get there. What leaves goes back to the page allocator, and only
/// if that refuses, with its error, the slab is given up.
pub proof fn slabs_go_back_once_min_partial_is_exceeded<PA: PageAlloc>(
    old: CacheView,
    new: CacheView,
    old_pages: PA,
    pages: PA,
    here: usize,
    b: int,
    k: int,
    result: Result<(), Error>,
)
    requires
        old_pages.inv(),
        old.initialized(),
        old.ok(old_pages.mapping(), old_pages.mem(), old_pages.book()),
        in_use(old, b, k),
        here == old.slabs[b].owner,
        free_outcome(old, new, old_pages, pages, here, place_of(old, b, k), result),
    ensures
        ({
            let block = old_pages.mapping().to_phys[b];
            let listed = old.partial.contains(b);
            let last = old.slabs[b].free.len() + 1 == old.layout.objects;
            let stays = !last || old.current == Some(b) || (listed && old.partial.len() <= old.min_partial);
            if stays {
                &&& result is Ok
                &&& new.slabs.dom() == old.slabs.dom()
                &&& !new.slabs[b].lost
                &&& pages.book() == old_pages.book()
                &&& new.partial == (if last || listed || old.current == Some(b) {
                    old.partial
                } else {
                    seq![b] + old.partial
                })
            } else {
                let stuck = old_pages.book().stuck.dom().contains(block);
                &&& new.partial == list_without(old.partial, b)
                &&& if !stuck {
                    &&& result is Ok
                    &&& new.slabs == old.slabs.remove(b)
                    &&& pages.book().blocks == old_pages.book().blocks.remove(block)
                } else {
                    &&& result == Err::<(), Error>(old_pages.book().stuck[block])
                    &&& new.slabs.dom() == old.slabs.dom()
                    &&& new.slabs[b].lost
                    &&& pages.book().blocks == old_pages.book().blocks
                }
            }
        }),
{
    lemma_word_fits();
    let ptr = place_of(old, b, k);
    lemma_in_use_lives(old, b, k);
    live_objects_can_be_freed(old, old_pages, here, b, ptr);
    live_objects_are_counted(old, old_pages.mem(), b, ptr);
    lemma_list_without(old.partial, b);
    assert(old.given(b, ptr).slabs.dom() =~= old.slabs.dom());
    assert(old.given(b, ptr).slabs.remove(b) =~= old.slabs.remove(b));
    assert(old.given(b, ptr).stranded(b).slabs.dom() =~= old.slabs.dom());
}

/// Taking an entry out of a list without duplicates.
proof fn lemma_list_without(list: Seq<int>, b: int)
    requires
        list.no_duplicates(),
    ensures
        list.contains(b) ==> list.remove(list.index_of(b)) == list_without(list, b),
        !list.contains(b) ==> list == list_without(list, b),
    decreases list.len(),
{
    reveal(Seq::filter);
    if list.len() > 0 {
        let front = list.drop_last();
        assert(front.no_duplicates());
        lemma_list_without(front, b);
        assert(front.push(list.last()) =~= list);
        if list.contains(b) {
            let i = list.index_of(b);
            if i < list.len() - 1 {
                assert(front[i] == b);
                assert(front.index_of(b) == i);
                assert(list.remove(i) =~= front.remove(i).push(list.last()));
            } else {
                assert(!front.contains(b)) by {
                    if front.contains(b) {
                        let j = front.index_of(b);
                        assert(list[j] == b);
                    }
                }
                assert(list.remove(i) =~= front);
            }
        } else {
            assert(!front.contains(b)) by {
                if front.contains(b) {
                    let j = front.index_of(b);
                    assert(list[j] == b);
                }
            }
        }
    }
}

/// Which pointers are rejected, and how. The block-aligned memory around the
/// pointer must start with a slab header that names this place and the order
/// of the cache; the pointer must be that of an object; and it must be neither
/// the first one on the free list nor in a slab with none in use. Nothing
/// changes where a pointer is rejected.
pub proof fn rejected_pointers_change_nothing<PA: PageAlloc>(
    old: CacheView,
    new: CacheView,
    old_pages: PA,
    pages: PA,
    here: usize,
    ptr: int,
    result: Result<(), Error>,
)
    requires
        0 < old.layout.stride,
        free_outcome(old, new, old_pages, pages, here, ptr, result),
    ensures
        ({
            let map = old_pages.mapping();
            let phys = map.to_phys[ptr];
            let offset = phys % (old.layout.slab_bytes as int);
            let header = header_at(old_pages.mem(), map.to_virt[phys - offset]);
            let own = old.slabs.dom().len() > 0 && old.low <= header.owner <= old.high;
            let object = exists|k: int|
                0 <= k < old.layout.objects && offset == #[trigger] place_of(old, 0, k);
            let ready = old.layout.slab_bytes != 0;
            let slab = ready && header.magic == SLAB_MAGIC;
            let here_too = slab && header.owner == here;
            let right = here_too && header.order == old.layout.order && object;
            let free = header.freelist == Some(ptr as usize) || header.inuse == 0;
            &&& !ready ==> result == Err::<(), Error>(Error::Uninitialized)
            &&& ready && !slab ==> result == Err::<(), Error>(Error::InvalidPointer)
            &&& slab && !here_too && !own ==> result == Err::<(), Error>(Error::CrossCacheFree)
            &&& slab && !here_too && own ==> result == Err::<(), Error>(Error::InvalidPointer)
            &&& here_too && !right ==> result == Err::<(), Error>(Error::InvalidPointer)
            &&& right && free ==> result == Err::<(), Error>(Error::DoubleFree)
            &&& !right || free ==> new == old && pages == old_pages
        }),
{
    let offset = old_pages.mapping().to_phys[ptr] % (old.layout.slab_bytes as int);
    let stride = old.layout.stride as int;
    let k = (offset - old.layout.first_offset) / stride;
    lemma_fundamental_div_mod(offset - old.layout.first_offset, stride);
    assert(stride * k == k * stride) by (nonlinear_arith);
    if old.layout.on_grid(0, offset) {
        assert(0 <= k) by (nonlinear_arith)
            requires
                offset - old.layout.first_offset == stride * k,
                0 <= offset - old.layout.first_offset,
                0 < stride,
        ;
        assert(offset == place_of(old, 0, k));
    }
    assert forall|j: int| 0 <= j < old.layout.objects && offset == #[trigger] place_of(old, 0, j) implies old.layout.on_grid(
        0,
        offset,
    ) by {
        lemma_place(old, 0, j);
        assert(0 <= j * stride) by (nonlinear_arith)
            requires
                0 <= j,
                0 < stride,
        ;
        lemma_mod_multiples_basic(j, stride);
    }
}

/// An object that is freed twice in a row is noticed, while its slab is still
/// there.
pub proof fn freeing_twice_is_noticed<PA: PageAlloc>(
    old: CacheView,
    mid: CacheView,
    new: CacheView,
    old_pages: PA,
    mid_pages: PA,
    pages: PA,
    here: usize,
    b: int,
    k: int,
    result: Result<(), Error>,
)
    requires
        old_pages.inv(),
        mid_pages.inv(),
        old.initialized(),
        old.ok(old_pages.mapping(), old_pages.mem(), old_pages.book()),
        mid.ok(mid_pages.mapping(), mid_pages.mem(), mid_pages.book()),
        mid_pages.mapping() == old_pages.mapping(),
        in_use(old, b, k),
        here == old.slabs[b].owner,
        free_outcome(old, mid, old_pages, mid_pages, here, place_of(old, b, k), Ok(())),
        mid.slabs.dom().contains(b),
        free_outcome(mid, new, mid_pages, pages, here, place_of(old, b, k), result),
    ensures
        result == Err::<(), Error>(Error::DoubleFree),
        new == mid,
        pages == mid_pages,
{
    lemma_word_fits();
    let ptr = place_of(old, b, k);
    lemma_in_use_lives(old, b, k);
    live_objects_can_be_freed(old, old_pages, here, b, ptr);
    freeing_uses_one_object_less(old, mid, old_pages, mid_pages, here, b, k, Ok(()));
    slabs_go_back_once_min_partial_is_exceeded(old, mid, old_pages, mid_pages, here, b, k, Ok(()));
    old_pages.book_in_order();
    lemma_object_address(old, old_pages.mapping(), old_pages.mem(), old_pages.book(), b, ptr);
    lemma_used_header(mid, mid_pages.mem(), b);
    assert(mid.slabs[b].free[0] == ptr);
}

/// Shrinking keeps exactly the slabs with objects in use, and those that were
/// given up; the partial list keeps its order.
pub proof fn shrinking_keeps_exactly_the_slabs_in_use(
    old: CacheView,
    new: CacheView,
    map: Mapping,
    mem: Map<int, u8>,
    old_book: Book,
    book: Book,
)
    requires
        old.ok(map, mem, old_book),
        book_ok(map, mem, old_book),
        shrink_outcome(old, new, map, old_book, Ok(())),
        returned(map, old_book, book, old, new),
    ensures
        old.initialized(),
        new.layout == old.layout,
        new.min_partial == old.min_partial,
        forall|b: int| #[trigger] new.slabs.dom().contains(b) <==> old.slabs.dom().contains(b) && (old.slabs[b].lost
            || old.slabs[b].free.len() < old.layout.objects),
        forall|b: int| #[trigger] new.slabs.dom().contains(b) ==> new.slabs[b] == old.slabs[b],
        new.partial == old.partial.filter(|b: int| old.slabs[b].free.len() < old.layout.objects),
        new.current == (if old.current is Some && old.slabs[old.current->0].free.len() == old.layout.objects {
            None
        } else {
            old.current
        }),
        forall|a: int| #[trigger] book.blocks.dom().contains(a) <==> old_book.blocks.dom().contains(a) && (
        old.slabs.dom().contains(map.to_virt[a]) ==> new.slabs.dom().contains(map.to_virt[a])),
        forall|a: int| #[trigger] book.blocks.dom().contains(a) ==> book.blocks[a] == old_book.blocks[a],
{
    let n = old.partial.len() as int;
    assert(old.partial.take(n) =~= old.partial);
    assert(old.partial.skip(n) =~= Seq::<int>::empty());
    let kept = |b: int| old.inuse(b) > 0;
    let used = |b: int| old.slabs[b].free.len() < old.layout.objects;
    assert(kept =~= used);
    assert(old.partial.filter(kept) + Seq::<int>::empty() =~= old.partial.filter(kept));
}

/// Where shrinking fails, the page allocator did not take back a slab without
/// objects in use, and nothing that is in use is touched.
pub proof fn shrinking_fails_only_for_the_page_allocator(
    old: CacheView,
    new: CacheView,
    map: Mapping,
    mem: Map<int, u8>,
    book: Book,
    error: Error,
) -> (b: int)
    requires
        old.ok(map, mem, book),
        shrink_outcome(old, new, map, book, Err(error)),
    ensures
        !old.initialized() ==> error == Error::Uninitialized && new == old,
        old.initialized() ==> {
            &&& old.slabs.dom().contains(b)
            &&& !old.slabs[b].lost
            &&& old.slabs[b].free.len() == old.layout.objects
            &&& book.stuck.dom().contains(map.to_phys[b])
            &&& error == book.stuck[map.to_phys[b]]
            &&& new.slabs.dom().contains(b) && new.slabs[b].lost
            &&& forall|c: int, j: int| #[trigger] in_use(old, c, j) ==> in_use(new, c, j)
        },
{
    if old.initialized() {
        let first = old.current is Some && {
            let c = old.current->0;
            &&& old.inuse(c) == 0
            &&& book.stuck.dom().contains(map.to_phys[c])
            &&& error == book.stuck[map.to_phys[c]]
            &&& new == old.with_current(None).stranded(c)
        };
        let b = if first {
            old.current->0
        } else {
            let k = choose|k: int| {
                &&& 0 <= k < old.partial.len()
                &&& old.inuse(old.partial[k]) == 0
                &&& book.stuck.dom().contains(map.to_phys[old.partial[k]])
                &&& error == book.stuck[map.to_phys[old.partial[k]]]
                &&& new == #[trigger] old.swept(k).unlinked(old.partial[k]).stranded(old.partial[k])
            };
            old.partial[k]
        };
        assert forall|c: int, j: int| #[trigger] in_use(old, c, j) implies in_use(new, c, j) by {
            lemma_word_fits();
            lemma_in_use_lives(old, c, j);
            live_objects_are_counted(old, mem, c, place_of(old, c, j));
        }
        b
    } else {
        0
    }
}

/// Once no object is in use and no slab has been given up, shrinking leaves
/// nothing behind.
pub proof fn shrinking_what_is_unused_leaves_nothing(
    old: CacheView,
    new: CacheView,
    map: Mapping,
    mem: Map<int, u8>,
    old_book: Book,
    book: Book,
)
    requires
        old.ok(map, mem, old_book),
        book_ok(map, mem, old_book),
        shrink_outcome(old, new, map, old_book, Ok(())),
        returned(map, old_book, book, old, new),
        forall|b: int, k: int| !#[trigger] in_use(old, b, k),
        forall|b: int| #[trigger] old.slabs.dom().contains(b) ==> !old.slabs[b].lost,
    ensures
        forall|b: int| !#[trigger] new.slabs.dom().contains(b),
        new.partial.len() == 0,
        new.current is None,
        forall|b: int| #[trigger] old.slabs.dom().contains(b) ==> !book.blocks.dom().contains(map.to_phys[b]),
{
    lemma_word_fits();
    assert forall|b: int, ptr: int| !#[trigger] old.lives(b, ptr) by {
        let k = objects_in_use_lie_on_the_grid(old, b, ptr);
    }
    shrinking_an_idle_cache_releases_everything(old, map, mem, old_book, book);
    shrinking_keeps_exactly_the_slabs_in_use(old, new, map, mem, old_book, book);
    let used = |b: int| old.slabs[b].free.len() < old.layout.objects;
    assert forall|i: int| 0 <= i < old.partial.len() implies !used(#[trigger] old.partial[i]) by {
        assert(old.slabs.dom().contains(old.partial[i]));
        assert(!new.slabs.dom().contains(old.partial[i]));
    }
    lemma_filter_none(old.partial, used);
}

/// Where nothing passes, a filter leaves nothing.
proof fn lemma_filter_none(list: Seq<int>, pass: spec_fn(int) -> bool)
    requires
        forall|i: int| 0 <= i < list.len() ==> !pass(#[trigger] list[i]),
    ensures
        list.filter(pass).len() == 0,
    decreases list.len(),
{
    reveal(Seq::filter);
    if list.len() > 0 {
        assert forall|i: int| 0 <= i < list.drop_last().len() implies !pass(#[trigger] list.drop_last()[i]) by {
            assert(list.drop_last()[i] == list[i]);
        }
        lemma_filter_none(list.drop_last(), pass);
    }
}

/// A cache is initialized once, with the layout for its parameters, and has no
/// slabs then.
pub proof fn caches_are_initialized_once(
    old: CacheView,
    new: CacheView,
    book: Book,
    name: Seq<char>,
    size: int,
    align: int,
    min_objects: int,
    result: Result<(), Error>,
)
    requires
        init_outcome(old, new, book, name, size, align, min_objects, result),
    ensures
        old.layout.slab_bytes != 0 ==> result == Err::<(), Error>(Error::AlreadyInitialized),
        old.layout.slab_bytes == 0 ==> {
            let error = layout_error(header_bytes(), size, align, book.page_size as int, book.max_order);
            &&& result is Ok <==> error is None
            &&& result matches Err(e) ==> error == Some(e)
        },
        result is Ok ==> {
            &&& new.name == name
            &&& new.min_partial == old.min_partial
            &&& new.slabs == Map::<int, Slab>::empty()
            &&& new.current is None
            &&& new.partial.len() == 0
            &&& laid_out(
                new.layout,
                header_bytes(),
                size,
                align,
                book.page_size as int,
                book.max_order,
                min_objects,
            )
        },
        MIN_OBJECTS == 4,
        DEFAULT_MIN_PARTIAL == 5,
        placeholder().min_partial == 5,
        placeholder().layout.slab_bytes == 0,
        placeholder().slabs == Map::<int, Slab>::empty(),
{
}

/// What only looks like an object in use is rejected too: where the cache has
/// no slab or was never here, and where the slab has objects of another size.
pub proof fn lookalikes_are_rejected<PA: PageAlloc>(
    old: CacheView,
    new: CacheView,
    old_pages: PA,
    pages: PA,
    here: usize,
    ptr: int,
    result: Result<(), Error>,
)
    requires
        old.layout.slab_bytes != 0,
        free_outcome(old, new, old_pages, pages, here, ptr, result),
        ({
            let map = old_pages.mapping();
            let phys = map.to_phys[ptr];
            let header = header_at(old_pages.mem(), map.to_virt[phys - phys % (old.layout.slab_bytes as int)]);
            ||| old.slabs.dom().len() == 0
            ||| here < old.low
            ||| old.high < here
            ||| header.kind != old.layout.object_size % 0x1_0000
        }),
    ensures
        result is Err,
        new == old,
        pages == old_pages,
{
}

/// How an allocation changes the counts: there is one free object less; where
/// a slab was grown, there is one slab more, and all its objects but one are
/// free.
pub proof fn allocating_is_counted<PA: PageAlloc>(
    old: CacheView,
    new: CacheView,
    old_pages: PA,
    pages: PA,
    here: usize,
    ptr: usize,
)
    requires
        old.ok(old_pages.mapping(), old_pages.mem(), old_pages.book()),
        alloc_outcome(old, new, old_pages, pages, here, Ok(ptr)),
    ensures
        ({
            let grown = pages.book().blocks != old_pages.book().blocks;
            &&& grown ==> {
                &&& new.slabs.dom().len() == old.slabs.dom().len() + 1
                &&& total_free(new.slabs) == total_free(old.slabs) + old.layout.objects - 1
            }
            &&& !grown ==> {
                &&& new.slabs.dom().len() == old.slabs.dom().len()
                &&& total_free(new.slabs) == total_free(old.slabs) - 1
            }
        }),
{
    allocating_prefers_the_active_slab(old, new, old_pages, pages, here, ptr);
    let b = new.current->0;
    if (old.current is Some && old.slabs[old.current->0].free.len() > 0) || old.partial.len() > 0 {
        assert(old.slabs.dom().contains(b));
        assert(old.slabs[b].free.len() > 0);
        lemma_total_free_insert(old.slabs, b, new.slabs[b]);
        assert(new.slabs.dom() =~= old.slabs.dom());
    } else {
        let block = old_pages.mapping().to_phys[b];
        assert(pages.book().blocks.dom().contains(block));
        assert(new.slabs =~= old.slabs.insert(b, new.slabs[b]));
        lemma_total_free_insert(old.slabs, b, new.slabs[b]);
    }
}

/// How a free that is accepted changes the counts: there is one free object
/// more, unless the slab goes back; then it is not counted any more, nor are
/// its free objects.
pub proof fn freeing_is_counted<PA: PageAlloc>(
    old: CacheView,
    new: CacheView,
    old_pages: PA,
    pages: PA,
    here: usize,
    b: int,
    k: int,
)
    requires
        old_pages.inv(),
        old.initialized(),
        old.ok(old_pages.mapping(), old_pages.mem(), old_pages.book()),
        in_use(old, b, k),
        here == old.slabs[b].owner,
        free_outcome(old, new, old_pages, pages, here, place_of(old, b, k), Ok(())),
    ensures
        new.slabs.dom().contains(b) ==> {
            &&& new.slabs.dom().len() == old.slabs.dom().len()
            &&& total_free(new.slabs) == total_free(old.slabs) + 1
        },
        !new.slabs.dom().contains(b) ==> {
            &&& new.slabs.dom().len() == old.slabs.dom().len() - 1
            &&& total_free(new.slabs) == total_free(old.slabs) - (old.layout.objects - 1)
        },
{
    freeing_uses_one_object_less(old, new, old_pages, pages, here, b, k, Ok(()));
    slabs_go_back_once_min_partial_is_exceeded(old, new, old_pages, pages, here, b, k, Ok(()));
    if new.slabs.dom().contains(b) {
        assert(new.slabs =~= old.slabs.insert(b, new.slabs[b]));
        lemma_total_free_insert(old.slabs, b, new.slabs[b]);
        assert(new.slabs.dom() =~= old.slabs.dom());
    } else {
        lemma_total_free_split(old.slabs, b);
    }
}

/// A cache remembers the lowest and the highest place where it grew the slabs
/// that it has: growing a slab can only widen the range, by the place where
/// the cache is, and a first slab makes that place the whole range.
pub proof fn growing_is_remembered<PA: PageAlloc>(
    old: CacheView,
    new: CacheView,
    old_pages: PA,
    pages: PA,
    here: usize,
    result: Result<usize, Error>,
)
    requires
        old.ok(old_pages.mapping(), old_pages.mem(), old_pages.book()),
        alloc_outcome(old, new, old_pages, pages, here, result),
    ensures
        ({
            let grown = pages.book().blocks != old_pages.book().blocks;
            let first = old.slabs.dom().len() == 0;
            &&& !grown ==> new.low == old.low && new.high == old.high
            &&& grown && first ==> new.low == here && new.high == here
            &&& grown && !first ==> {
                &&& new.low <= old.low && new.low <= here && (new.low == old.low || new.low == here)
                &&& new.high >= old.high && new.high >= here && (new.high == old.high || new.high == here)
            }
        }),
{
    if let Ok(ptr) = result {
        allocating_prefers_the_active_slab(old, new, old_pages, pages, here, ptr);
        let block = old_pages.mapping().to_phys[new.current->0];
        if pages.book().blocks == old_pages.book().blocks {
            assert(pages.book().blocks.dom().contains(block) ==> old_pages.book().blocks.dom().contains(block));
        }
    }
}

/// What an operation leaves alone: every block that is no slab of the cache
/// stays out, with its order and every byte; and so does every byte behind the
/// header of a slab that the cache keeps, but for those at `except`.
pub proof fn what_belongs_to_others_stays<M: PhysMap>(
    old: CacheView,
    new: CacheView,
    old_pages: M,
    pages: M,
    except: Option<(int, int)>,
    b: int,
    p: int,
)
    requires
        framed(old_pages, pages, old, new, except),
    ensures
        pages.mapping() == old_pages.mapping(),
        pages.mem().dom() == old_pages.mem().dom(),
        ({
            let map = old_pages.mapping();
            let book = old_pages.book();
            let block = map.to_phys[b];
            let other = book.blocks.dom().contains(block) && map.to_virt[block] == b && !old.slabs.dom().contains(b);
            let inside = b <= p < b + book.page_size * pow2(book.blocks[block] as nat);
            let own = old.slabs.dom().contains(b) && new.slabs.dom().contains(b) && b + old.layout.first_offset <= p < b
                + old.layout.slab_bytes;
            let spared = except is Some && (except->0).0 <= p < (except->0).0 + (except->0).1;
            &&& other ==> pages.book().blocks.dom().contains(block) && pages.book().blocks[block] == book.blocks[block]
            &&& other && inside ==> pages.mem()[p] == old_pages.mem()[p]
            &&& own && !spared ==> pages.mem()[p] == old_pages.mem()[p]
        }),
{
}

/// Destroying a cache gives back the blocks of exactly those slabs that have
/// no object in use and were not given up.
pub proof fn destroying_gives_back_exactly_the_unused_slabs<M: PhysMap>(
    v: CacheView,
    old_pages: M,
    pages: M,
    a: int,
)
    requires
        v.ok(old_pages.mapping(), old_pages.mem(), old_pages.book()),
        old_pages.inv(),
        destroy_outcome(v, old_pages, pages, Ok(())),
    ensures
        v.initialized(),
        ({
            let b = old_pages.mapping().to_virt[a];
            let unused = v.slabs.dom().contains(b) && !v.slabs[b].lost && v.slabs[b].free.len() == v.layout.objects;
            &&& pages.book().blocks.dom().contains(a) <==> old_pages.book().blocks.dom().contains(a) && !unused
            &&& pages.book().blocks.dom().contains(a) ==> pages.book().blocks[a] == old_pages.book().blocks[a]
        }),
{
    let map = old_pages.mapping();
    let book = old_pages.book();
    old_pages.book_in_order();
    let rest = choose|rest: CacheView| {
        &&& #[trigger] shrink_outcome(v, rest, map, book, Ok(()))
        &&& returned(map, book, pages.book(), v, rest)
        &&& framed(old_pages, pages, v, rest, None)
    };
    shrinking_keeps_exactly_the_slabs_in_use(v, rest, map, old_pages.mem(), book, pages.book());
    let b = map.to_virt[a];
    assert(rest.slabs.dom().contains(b) <==> v.slabs.dom().contains(b) && (v.slabs[b].lost || v.slabs[b].free.len()
        < v.layout.objects));
}

/// Shrinking stops at the first slab that the page allocator does not take
/// back: at the active slab, when nothing else has changed; or at slab `k` of
/// the partial list, when the active slab and those before it have gone where
/// they had no object in use, and those behind it are untouched.
pub proof fn shrinking_stops_at_the_first_refusal(
    old: CacheView,
    new: CacheView,
    map: Mapping,
    mem: Map<int, u8>,
    book: Book,
    error: Error,
) -> (k: int)
    requires
        old.ok(map, mem, book),
        old.initialized(),
        shrink_outcome(old, new, map, book, Err(error)),
    ensures
        -1 <= k < old.partial.len(),
        k == -1 ==> {
            &&& old.current is Some
            &&& new.current is None
            &&& new.partial == old.partial
            &&& new.slabs.dom() == old.slabs.dom()
            &&& forall|c: int| #[trigger] new.slabs.dom().contains(c) && c != old.current->0 ==> new.slabs[c] == old.slabs[c]
        },
        0 <= k ==> {
            &&& forall|j: int|
                0 <= j < k ==> (new.slabs.dom().contains(#[trigger] old.partial[j]) <==> old.slabs[old.partial[j]].free.len()
                    < old.layout.objects)
            &&& forall|j: int|
                k < j < old.partial.len() ==> new.slabs.dom().contains(#[trigger] old.partial[j])
                    && new.slabs[old.partial[j]] == old.slabs[old.partial[j]]
            &&& old.current is Some ==> (new.slabs.dom().contains(old.current->0) <==> old.slabs[old.current->0].free.len()
                < old.layout.objects)
        },
{
    let first = old.current is Some && {
        let c = old.current->0;
        &&& old.inuse(c) == 0
        &&& book.stuck.dom().contains(map.to_phys[c])
        &&& error == book.stuck[map.to_phys[c]]
        &&& new == old.with_current(None).stranded(c)
    };
    if first {
        assert(old.slabs.dom().contains(old.current->0));
        assert(new.slabs.dom() =~= old.slabs.dom());
        -1
    } else {
        let k = choose|k: int| {
            &&& 0 <= k < old.partial.len()
            &&& old.inuse(old.partial[k]) == 0
            &&& book.stuck.dom().contains(map.to_phys[old.partial[k]])
            &&& error == book.stuck[map.to_phys[old.partial[k]]]
            &&& new == #[trigger] old.swept(k).unlinked(old.partial[k]).stranded(old.partial[k])
        };
        assert forall|j: int| 0 <= j < old.partial.len() implies old.slabs.dom().contains(#[trigger] old.partial[j]) by {}
        assert forall|j: int| 0 <= j < k implies (new.slabs.dom().contains(#[trigger] old.partial[j])
            <==> old.slabs[old.partial[j]].free.len() < old.layout.objects) by {
            assert(old.partial.take(k)[j] == old.partial[j]);
        }
        assert forall|j: int| k < j < old.partial.len() implies new.slabs.dom().contains(#[trigger] old.partial[j])
            && new.slabs[old.partial[j]] == old.slabs[old.partial[j]] by {
            assert(!old.partial.take(k).contains(old.partial[j]));
        }
        if old.current is Some {
            assert(!old.partial.take(k).contains(old.current->0));
        }
        k
    }
}

} // verus!
