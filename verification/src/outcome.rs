//! What the operations of a cache result in.

use vstd::prelude::*;

use crate::cache::DEFAULT_MIN_PARTIAL;
use crate::error::Error;
use crate::header::header_at;
use crate::header::header_bytes;
use crate::header::SLAB_MAGIC;
use crate::layout::laid_out;
use crate::layout::layout_error;
use crate::layout::SlabLayout;
use crate::memory::accessible;
use crate::model::framed;
use crate::model::kind_of;
use crate::model::lemma_object_on_grid;
use crate::model::lemma_slab_free_list;
use crate::model::returned;
use crate::model::CacheView;
use crate::pages::no_new_stuck;
use crate::pages::Book;
use crate::pages::Mapping;
use crate::pages::PageAlloc;
use crate::pages::PhysMap;

verus! {

/// The page allocator has handed out one more block of `order`, which is
/// mapped at `virt`.
pub open spec fn fresh_block(map: Mapping, old_book: Book, book: Book, order: u8, virt: int) -> bool {
    let block = map.to_phys[virt];
    &&& map.to_virt[block] == virt
    &&& !old_book.blocks.dom().contains(block)
    &&& book.blocks == old_book.blocks.insert(block, order)
}

/// `ptr` is what a cache in the state `old` hands out, going to the state
/// `new`.
///
/// The object comes from the active slab if that has a free object, else
/// from the first slab of the partial list, else from a slab that is grown
/// in a fresh block. Whichever slab it is becomes the active one.
pub open spec fn handed_out(
    old: CacheView,
    new: CacheView,
    map: Mapping,
    old_book: Book,
    book: Book,
    here: usize,
    ptr: int,
) -> bool {
    if old.ready() {
        &&& ptr == old.slabs[old.current->0].free[0]
        &&& new == old.taken(old.current->0)
        &&& book == old_book
    } else if old.partial.len() > 0 {
        &&& ptr == old.slabs[old.partial[0]].free[0]
        &&& new == old.promoted().taken(old.partial[0])
        &&& book == old_book
    } else {
        let slab = ptr - old.layout.first_offset;
        &&& !old_book.refused.dom().contains(old.layout.order)
        &&& fresh_block(map, old_book, book, old.layout.order, slab)
        &&& !old.slabs.dom().contains(slab)
        &&& new == old.grown(slab, here).with_current(Some(slab)).taken(slab)
    }
}

/// What an allocation from a cache in the state `old` results in: an object,
/// or an error, which an initialized cache reports only where no slab has a
/// free object and the page allocator refuses a block. Blocks that are out can
/// be given back as before.
pub open spec fn alloc_outcome<PA: PageAlloc>(
    old: CacheView,
    new: CacheView,
    old_pages: PA,
    pages: PA,
    here: usize,
    result: Result<usize, Error>,
) -> bool {
    &&& no_new_stuck(old_pages.book(), pages.book())
    &&& match result {
        Ok(ptr) => {
            &&& old.initialized()
            &&& handed_out(old, new, old_pages.mapping(), old_pages.book(), pages.book(), here, ptr as int)
        },
        Err(error) => if !old.initialized() {
            &&& error == Error::Uninitialized
            &&& new == old
            &&& pages == old_pages
        } else {
            &&& !old.ready()
            &&& old.partial.len() == 0
            &&& old_pages.book().refused.dom().contains(old.layout.order)
            &&& error == old_pages.book().refused[old.layout.order]
            &&& new == old.with_current(None)
            &&& pages.book().blocks == old_pages.book().blocks
        },
    }
}

/// An object that is handed out is an object of the active slab, in use from
/// now on, and was not in use before.
pub proof fn handed_out_is_live(
    old: CacheView,
    new: CacheView,
    map: Mapping,
    old_mem: Map<int, u8>,
    old_book: Book,
    book: Book,
    here: usize,
    ptr: int,
)
    requires
        old.ok(map, old_mem, old_book),
        old.initialized(),
        handed_out(old, new, map, old_book, book, here, ptr),
    ensures
        new.current is Some,
        new.lives(new.current->0, ptr),
        !old.lives(new.current->0, ptr),
{
    let l = old.layout;
    if old.ready() || old.partial.len() > 0 {
        let c = if old.ready() { old.current->0 } else { old.partial[0] };
        assert(old.has(c));
        lemma_slab_free_list(old, old_mem, c);
        let free = old.slabs[c].free;
        assert(old.partial.len() > 0 && !old.ready() ==> free.len() > 0);
        assert(free.contains(free[0]));
        assert(!free.drop_first().contains(ptr)) by {
            if free.drop_first().contains(ptr) {
                let i = free.drop_first().index_of(ptr);
                assert(free[i + 1] == ptr);
            }
        }
    } else {
        let slab = ptr - l.first_offset;
        let free = old.grown(slab, here).slabs[slab].free;
        assert(free[0] == ptr) by {
            assert(0 * l.stride == 0);
        }
        lemma_object_on_grid(l, slab, 0);
        assert(!free.drop_first().contains(ptr)) by {
            if free.drop_first().contains(ptr) {
                let i = free.drop_first().index_of(ptr);
                assert(free[i + 1] == ptr);
                lemma_object_on_grid(l, slab, i + 1);
            }
        }
    }
}

/// The virtual address of the block-aligned memory around `ptr`, where the
/// header is if `ptr` is an object of a slab with this layout.
pub open spec fn slab_around(layout: SlabLayout, map: Mapping, ptr: int) -> int {
    let phys = map.to_phys[ptr];
    map.to_virt[phys - phys % (layout.slab_bytes as int)]
}

/// `ptr` and the block-aligned memory around it can be translated, and the
/// header there can be read.
pub open spec fn inspectable(layout: SlabLayout, map: Mapping, mem: Map<int, u8>, ptr: int) -> bool {
    let phys = map.to_phys[ptr];
    let slab = slab_around(layout, map, ptr);
    &&& map.to_phys.dom().contains(ptr)
    &&& map.to_virt.dom().contains(phys - phys % (layout.slab_bytes as int))
    &&& slab + header_bytes() <= usize::MAX
    &&& accessible(mem, slab, header_bytes())
}

/// A cache without a layout.
pub open spec fn placeholder() -> CacheView {
    CacheView {
        name: ""@,
        layout: SlabLayout {
            object_size: 0,
            align: 0,
            stride: 0,
            first_offset: 0,
            objects: 0,
            order: 0,
            slab_bytes: 0,
        },
        min_partial: DEFAULT_MIN_PARTIAL,
        low: 0,
        high: 0,
        slabs: Map::empty(),
        current: None,
        partial: Seq::empty(),
    }
}

/// What initializing a cache in the state `old` results in: an error, or the
/// state `new`, which has a layout and no slabs.
pub open spec fn init_outcome(
    old: CacheView,
    new: CacheView,
    book: Book,
    name: Seq<char>,
    size: int,
    align: int,
    min_objects: int,
    result: Result<(), Error>,
) -> bool {
    match result {
        Ok(()) => {
            &&& !old.initialized()
            &&& laid_out(
                new.layout,
                header_bytes(),
                size,
                align,
                book.page_size as int,
                book.max_order,
                min_objects,
            )
            &&& new == CacheView {
                name,
                layout: new.layout,
                min_partial: old.min_partial,
                low: old.low,
                high: old.high,
                slabs: Map::empty(),
                current: None,
                partial: Seq::empty(),
            }
            &&& new.initialized()
        },
        Err(error) => if old.initialized() {
            error == Error::AlreadyInitialized
        } else {
            layout_error(header_bytes(), size, align, book.page_size as int, book.max_order) == Some(error)
        },
    }
}

/// Why a cache in the state `v`, which is at `here`, does not take `ptr`
/// back; `None` if it does.
///
/// The memory around `ptr` must hold the header of a slab that was grown here,
/// of this order; `ptr` must lie on the grid of objects; and it must be neither
/// the object that was freed last in the slab nor in a slab with nothing
/// allocated. A slab that the cache itself grew elsewhere does not count as
/// that of another cache. What looks like a slab but cannot be one, because
/// the cache grew none here or none with such objects, is not taken either.
pub open spec fn rejection<M: PhysMap>(v: CacheView, pages: M, here: usize, ptr: int) -> Option<Error> {
    let map = pages.mapping();
    let header = header_at(pages.mem(), slab_around(v.layout, map, ptr));
    if !v.initialized() {
        Some(Error::Uninitialized)
    } else if header.magic != SLAB_MAGIC {
        Some(Error::InvalidPointer)
    } else if header.owner != here {
        Some(
            if v.grew_at(header.owner) {
                Error::InvalidPointer
            } else {
                Error::CrossCacheFree
            },
        )
    } else if header.order != v.layout.order {
        Some(Error::InvalidPointer)
    } else if !v.layout.on_grid(0, map.to_phys[ptr] % (v.layout.slab_bytes as int)) {
        Some(Error::InvalidPointer)
    } else if header.freelist == Some(ptr as usize) || header.inuse == 0 {
        Some(Error::DoubleFree)
    } else if !v.grew_at(here) || header.kind != kind_of(v.layout) {
        Some(Error::InvalidPointer)
    } else {
        None
    }
}

/// A cache in the state `v`, which is at `here`, does not take `ptr` back.
pub open spec fn rejects<M: PhysMap>(v: CacheView, pages: M, here: usize, ptr: int) -> bool {
    rejection(v, pages, here, ptr) is Some
}

/// What freeing `ptr` results in for a cache in the state `old`, which is at
/// `here`.
///
/// A pointer that is rejected changes nothing. An object that is taken back
/// is the next one that its slab hands out. If the slab still has objects in
/// use, the cache makes sure that it can be found. If it has none and is to
/// spare, it goes back to the page allocator. The blocks that stay out can be
/// given back as before.
pub open spec fn free_outcome<M: PhysMap>(
    old: CacheView,
    new: CacheView,
    old_pages: M,
    pages: M,
    here: usize,
    ptr: int,
    result: Result<(), Error>,
) -> bool {
    let map = old_pages.mapping();
    let book = old_pages.book();
    let slab = slab_around(old.layout, map, ptr);
    &&& no_new_stuck(book, pages.book())
    &&& if rejects(old, old_pages, here, ptr) {
        &&& result == Err::<(), Error>(rejection(old, old_pages, here, ptr)->0)
        &&& new == old
        &&& pages == old_pages
    } else {
        let given = old.given(slab, ptr);
        if given.inuse(slab) > 0 {
            &&& result is Ok
            &&& new == given.reachable(slab)
            &&& pages.book() == book
        } else if !given.spare(slab) {
            &&& result is Ok
            &&& new == given
            &&& pages.book() == book
        } else {
            match result {
                Ok(()) => {
                    &&& !book.stuck.dom().contains(map.to_phys[slab])
                    &&& new == given.detached(slab).released(slab)
                    &&& pages.book().blocks == book.blocks.remove(map.to_phys[slab])
                },
                Err(error) => {
                    &&& book.stuck.dom().contains(map.to_phys[slab])
                    &&& error == book.stuck[map.to_phys[slab]]
                    &&& new == given.detached(slab).stranded(slab)
                    &&& pages.book().blocks == book.blocks
                },
            }
        }
    }
}

/// `ptr` can be handed to a cache in the state `v`, which is at `here`: the
/// memory around it can be looked at, and if what is there does not make the
/// cache reject `ptr`, then `ptr` is an object in use.
///
/// The cache cannot tell when memory only looks like one of its slabs, nor
/// when an object was freed before, unless that was the last object freed in
/// its slab or nothing in the slab is in use.
pub open spec fn may_free<M: PhysMap>(v: CacheView, pages: M, here: usize, ptr: int) -> bool {
    v.initialized() ==> {
        &&& inspectable(v.layout, pages.mapping(), pages.mem(), ptr)
        &&& rejection(v, pages, here, ptr) is None ==> v.lives(slab_around(v.layout, pages.mapping(), ptr), ptr)
    }
}

/// What shrinking a cache in the state `old` results in: every empty slab that
/// can be found is gone, or those in front of one that the page allocator does
/// not take back.
pub open spec fn shrink_outcome(
    old: CacheView,
    new: CacheView,
    map: Mapping,
    book: Book,
    result: Result<(), Error>,
) -> bool {
    match result {
        Ok(()) => {
            &&& old.initialized()
            &&& new == old.shrunk()
        },
        Err(error) => if !old.initialized() {
            &&& error == Error::Uninitialized
            &&& new == old
        } else {
            ||| old.current matches Some(c) && {
                &&& old.inuse(c) == 0
                &&& book.stuck.dom().contains(map.to_phys[c])
                &&& error == book.stuck[map.to_phys[c]]
                &&& new == old.with_current(None).stranded(c)
            }
            ||| exists|k: int| {
                &&& 0 <= k < old.partial.len()
                &&& old.inuse(old.partial[k]) == 0
                &&& book.stuck.dom().contains(map.to_phys[old.partial[k]])
                &&& error == book.stuck[map.to_phys[old.partial[k]]]
                &&& new == #[trigger] old.swept(k).unlinked(old.partial[k]).stranded(old.partial[k])
            }
        },
    }
}

/// What destroying a cache in the state `v` results in: the cache is shrunk
/// once more before it is gone. Slabs with objects in use keep their blocks,
/// and the objects keep their bytes.
pub open spec fn destroy_outcome<M: PhysMap>(v: CacheView, old_pages: M, pages: M, result: Result<(), Error>) -> bool {
    exists|rest: CacheView| {
        &&& #[trigger] shrink_outcome(v, rest, old_pages.mapping(), old_pages.book(), result)
        &&& returned(old_pages.mapping(), old_pages.book(), pages.book(), v, rest)
        &&& framed(old_pages, pages, v, rest, None)
    }
}

} // verus!
