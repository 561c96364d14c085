//! The slab cache core.

use vstd::prelude::*;

use crate::error::Error;
use crate::frame::align_down;
use crate::frame::from_usize;
use crate::frame::try_to_usize;
use crate::header::get_freepointer;
use crate::header::header_at;
use crate::header::header_bytes;
use crate::header::header_size;
use crate::header::lemma_header_same;
use crate::header::load_header;
use crate::header::set_freepointer;
use crate::header::store_header;
use crate::header::SLAB_MAGIC;
use crate::header::SlabHeader;
use crate::layout::SlabLayout;
use crate::lists::lemma_header_step;
use crate::lists::lemma_headers_only;
use crate::lists::lemma_linked;
use crate::lists::lemma_linked_header;
use crate::lists::lemma_no_headers;
use crate::lists::lemma_unlinked;
use crate::memory::accessible;
use crate::memory::fill;
use crate::memory::lemma_word_same;
use crate::memory::pointer_at;
use crate::memory::same_but;
use crate::memory::same_bytes;
use crate::memory::word_bytes;
use crate::model::after;
use crate::model::before;
use crate::model::framed;
use crate::model::front;
use crate::model::kind_of;
use crate::model::lemma_framed_trans;
use crate::model::lemma_grid_apart;
use crate::model::lemma_grid_bounds;
use crate::model::lemma_object_on_grid;
use crate::model::lemma_partial_len;
use crate::model::lemma_rest_kept_trans;
use crate::model::lemma_returned_step;
use crate::model::lemma_slab_count;
use crate::model::lemma_slab_region;
use crate::model::lemma_swept_step;
use crate::model::lemma_total_free_bound;
use crate::model::lemma_total_free_insert;
use crate::model::lemma_total_free_split;
use crate::model::lemma_write_in_slab;
use crate::model::objects_kept;
use crate::model::returned;
use crate::model::slab_ok;
use crate::model::total_free;
use crate::model::whole_slab;
use crate::model::CacheView;
use crate::model::Slab;
use crate::objects::lemma_given;
use crate::objects::lemma_object_address;
use crate::objects::lemma_taken;
use crate::objects::lemma_used_header;
use crate::objects::writing_a_live_object;
use crate::outcome::alloc_outcome;
use crate::outcome::destroy_outcome;
use crate::outcome::free_outcome;
use crate::outcome::fresh_block;
use crate::outcome::handed_out_is_live;
use crate::outcome::init_outcome;
use crate::outcome::may_free;
use crate::outcome::placeholder;
use crate::outcome::rejects;
use crate::outcome::shrink_outcome;
use crate::pages::block_bytes;
use crate::pages::no_new_stuck;
use crate::pages::PageAlloc;
use crate::pages::PhysMap;
use crate::slabs::lemma_pages_kept;
use crate::slabs::lemma_release_frame;
use crate::slabs::lemma_slab_gone;
use crate::slabs::lemma_slab_grown;
use crate::steps::lemma_count_grows;
use crate::steps::lemma_count_room;
use crate::steps::lemma_count_split;
use crate::steps::lemma_detached_balanced;
use crate::steps::lemma_fresh_apart;
use crate::steps::lemma_fresh_ok;
use crate::steps::lemma_linked_balanced;
use crate::steps::lemma_list_address;
use crate::steps::lemma_no_slabs;
use crate::steps::lemma_promoted_balanced;
use crate::steps::lemma_returned_none;
use crate::steps::lemma_swept_none;
use crate::verdict::chain;
use crate::verdict::chain_safe;
use crate::verdict::slab_safe;
use crate::verdict::slab_verdict;
use crate::verdict::verdict;
use crate::verdict::verdict_safe;
use crate::verdict::walk;
use crate::verdict::walk_safe;

verus! {

/// Number of objects a slab should hold before the order is grown.
pub const MIN_OBJECTS: usize = 4;

/// Number of partial slabs kept before empty ones are returned to the page
/// allocator.
pub const DEFAULT_MIN_PARTIAL: usize = 5;

/// The object with number `i` of the block at `b`, if there are that many.
spec fn object_from(layout: SlabLayout, b: int, i: int) -> Option<usize> {
    if i < layout.objects {
        Some(layout.object_at(b, i) as usize)
    } else {
        None
    }
}

/// Links the objects of the block at `slab` into a free list, in the order
/// of their addresses, and returns its head.
fn link_objects<M: PhysMap>(map: &mut M, layout: &SlabLayout, slab: usize) -> (head: Option<usize>)
    requires
        old(map).inv(),
        layout.ok(header_bytes()),
        0 < slab,
        slab + layout.slab_bytes <= usize::MAX,
        accessible(old(map).mem(), slab as int, layout.slab_bytes as int),
    ensures
        final(map).inv(),
        final(map).mapping() == old(map).mapping(),
        final(map).book() == old(map).book(),
        same_but(
            old(map).mem(),
            final(map).mem(),
            slab + layout.first_offset,
            layout.slab_bytes - layout.first_offset,
        ),
        head == object_from(*layout, slab as int, 0),
        forall|i: int|
            0 <= i < layout.objects ==> pointer_at(
                final(map).mem(),
                #[trigger] layout.object_at(slab as int, i),
            ) == object_from(*layout, slab as int, i + 1),
{
    let ghost m1 = map.mem();
    let ghost b = slab as int;
    let count: usize = layout.objects();
    let first: usize = layout.first_offset();
    let stride: usize = layout.stride();
    let mut head: Option<usize> = None;
    let mut index: usize = count;
    while index > 0
        invariant
            layout.ok(header_bytes()),
            count == layout.objects,
            first == layout.first_offset,
            stride == layout.stride,
            index <= count,
            b == slab,
            0 < b,
            b + layout.slab_bytes <= usize::MAX,
            map.inv(),
            map.mapping() == old(map).mapping(),
            map.book() == old(map).book(),
            m1 == old(map).mem(),
            accessible(m1, b, layout.slab_bytes as int),
            same_but(m1, map.mem(), b + first, layout.slab_bytes - first),
            head == object_from(*layout, b, index as int),
            head != Some(0usize),
            forall|i: int|
                index <= i < count ==> pointer_at(map.mem(), #[trigger] layout.object_at(b, i)) == object_from(
                    *layout,
                    b,
                    i + 1,
                ),
        decreases index,
    {
        let ghost before = map.mem();
        index = index - 1;
        proof {
            lemma_object_on_grid(*layout, b, index as int);
            lemma_grid_bounds(*layout, b, layout.object_at(b, index as int));
        }
        let object: usize = slab + first + index * stride;
        set_freepointer(map, object, head);
        proof {
            assert forall|i: int| index <= i < count implies pointer_at(map.mem(), #[trigger] layout.object_at(b, i))
                == object_from(*layout, b, i + 1) by {
                if i > index {
                    lemma_object_on_grid(*layout, b, i);
                    lemma_grid_bounds(*layout, b, layout.object_at(b, i));
                    lemma_grid_apart(*layout, b, layout.object_at(b, i), object as int);
                    lemma_word_same(before, map.mem(), layout.object_at(b, i));
                }
            }
        }
        head = Some(object);
    }
    head
}

/// Returns the kind of objects in slabs with this layout.
pub(crate) fn kind_for(layout: &SlabLayout) -> (kind: u16)
    ensures
        kind == kind_of(*layout),
{
    (layout.object_size() % 0x1_0000) as u16
}

/// Makes the block at `slab` a slab of the cache with the identity `owner`,
/// with all objects free.
fn format_slab<M: PhysMap>(map: &mut M, layout: &SlabLayout, slab: usize, owner: usize)
    requires
        old(map).inv(),
        layout.ok(header_bytes()),
        0 < slab,
        slab + layout.slab_bytes <= usize::MAX,
        accessible(old(map).mem(), slab as int, layout.slab_bytes as int),
    ensures
        final(map).inv(),
        final(map).mapping() == old(map).mapping(),
        final(map).book() == old(map).book(),
        same_but(old(map).mem(), final(map).mem(), slab as int, layout.slab_bytes as int),
        slab_ok(
            final(map).mem(),
            *layout,
            slab as int,
            whole_slab(*layout, slab as int, owner),
            false,
            None,
            None,
        ),
{
    let ghost l = *layout;
    let ghost b = slab as int;
    let ghost s = whole_slab(l, b, owner);
    let freelist = link_objects(map, layout, slab);
    let ghost linked = map.mem();
    proof {
        lemma_object_on_grid(l, b, 0);
        lemma_grid_bounds(l, b, l.object_at(b, 0));
    }
    store_header(
        map,
        slab,
        SlabHeader {
            magic: SLAB_MAGIC,
            order: layout.order(),
            on_partial: false,
            kind: kind_for(layout),
            owner,
            inuse: 0,
            objects: layout.objects(),
            freelist,
            next: None,
            prev: None,
        },
    );
    proof {
        let mem = map.mem();
        assert forall|i: int| 0 <= i < s.free.len() implies l.on_grid(b, #[trigger] s.free[i]) && pointer_at(
            mem,
            s.free[i],
        ) == after(s.free, i) by {
            lemma_object_on_grid(l, b, i);
            lemma_grid_bounds(l, b, s.free[i]);
            lemma_word_same(linked, mem, s.free[i]);
        }
        assert forall|i: int, j: int| 0 <= i < s.free.len() && 0 <= j < s.free.len() && i != j implies s.free[i]
            != s.free[j] by {
            lemma_object_on_grid(l, b, i);
            lemma_object_on_grid(l, b, j);
        }
    }
}

/// A slab cache.
///
/// The cache is usable without a global allocator: it is defined in place
/// and initialized once with [`KmemCache::init`]. Locking stays with the
/// caller.
///
/// The cache stores its own address in every slab header to reject frees
/// through the wrong cache, so it must not move while its slabs are alive;
/// a moved cache fails safely (frees of what it grew elsewhere are rejected as
/// [`Error::InvalidPointer`]) but those slabs leak until it is back where it
/// was.
pub struct KmemCache {
    name: &'static str,
    layout: SlabLayout,
    /// Slab currently receiving allocations.
    current: Option<usize>,
    /// Head of the doubly linked partial list.
    partial: Option<usize>,
    nr_partial: usize,
    min_partial: usize,
    /// The lowest place where the cache grew a slab since it last had none.
    low: usize,
    /// The highest place where the cache grew a slab since it last had none.
    high: usize,
    nr_slabs: usize,
    nr_objects: usize,
    nr_free_objects: usize,
    /// Every slab, the full ones too, which nothing links to.
    slabs: Ghost<Map<int, Slab>>,
    /// The slabs in the partial list.
    list: Ghost<Seq<int>>,
}

/// The name the rest of the library uses for a slab cache.
pub type ObjectCache = KmemCache;

impl View for KmemCache {
    type V = CacheView;

    closed spec fn view(&self) -> CacheView {
        CacheView {
            name: self.name@,
            layout: self.layout,
            min_partial: self.min_partial,
            low: self.low,
            high: self.high,
            slabs: self.slabs@,
            current: match self.current {
                Some(c) => Some(c as int),
                None => None,
            },
            partial: self.list@,
        }
    }
}

impl KmemCache {
    /// The counters and the head of the partial list agree with the state.
    pub closed spec fn rep(&self) -> bool {
        &&& self.nr_slabs == self.slabs@.dom().len()
        &&& self.nr_objects == self.layout.objects * self.slabs@.dom().len()
        &&& self.nr_free_objects == total_free(self.slabs@)
        &&& self.nr_partial == self.list@.len()
        &&& self.partial == front(self.list@)
    }

    /// The books of the cache are in order, whatever the memory holds.
    pub open spec fn accounted<M: PhysMap>(&self, map: &M) -> bool {
        &&& map.inv()
        &&& self.rep()
        &&& self@.structure_ok()
        &&& self@.placed_ok(map.mapping(), map.book())
    }

    /// The cache is consistent with the memory behind `pages`, except that
    /// a slab with free objects may be out of reach.
    pub open spec fn consistent<M: PhysMap>(&self, pages: &M) -> bool {
        &&& pages.inv()
        &&& self.rep()
        &&& self@.core_ok(pages.mapping(), pages.mem(), pages.book())
    }

    /// The cache is consistent with the memory behind `pages`.
    pub open spec fn wf<M: PhysMap>(&self, pages: &M) -> bool {
        &&& self.consistent(pages)
        &&& self@.balanced()
    }

    /// A placeholder.
    ///
    /// The placeholder has no layout; operations that need one report
    /// [`Error::Uninitialized`] until [`KmemCache::init`] runs.
    pub fn uninit() -> (cache: Self)
        ensures
            cache@ == placeholder(),
            cache.rep(),
    {
        let cache = KmemCache {
            name: "",
            layout: SlabLayout::empty(),
            current: None,
            partial: None,
            nr_partial: 0,
            min_partial: DEFAULT_MIN_PARTIAL,
            low: 0,
            high: 0,
            nr_slabs: 0,
            nr_objects: 0,
            nr_free_objects: 0,
            slabs: Ghost(Map::empty()),
            list: Ghost(Seq::empty()),
        };
        proof {
            lemma_no_slabs(cache.slabs@, cache.layout.objects as int);
        }
        cache
    }

    /// A placeholder fits every memory.
    pub proof fn placeholder_is_wf<M: PhysMap>(&self, pages: &M)
        requires
            self@ == placeholder(),
            self.rep(),
            pages.inv(),
        ensures
            self.wf(pages),
    {
        self.fresh_is_wf(pages);
    }

    /// A cache without slabs whose layout fits the page size fits every
    /// memory.
    pub proof fn fresh_is_wf<M: PhysMap>(&self, pages: &M)
        requires
            self.rep(),
            pages.inv(),
            self@.slabs == Map::<int, Slab>::empty(),
            self@.current is None,
            self@.partial.len() == 0,
            self@.initialized() ==> {
                &&& self@.layout.ok(header_bytes())
                &&& self@.layout.slab_bytes == block_bytes(pages.book().page_size as int, self@.layout.order)
            },
        ensures
            self.wf(pages),
    {
        lemma_fresh_ok(self@, pages.mapping(), pages.mem(), pages.book());
    }

    /// Initializes the cache, computing the slab layout from `pages`.
    ///
    /// `size` is the object size in bytes and `align` the requested object
    /// alignment (raised to pointer alignment when smaller). The page size
    /// and largest order come from the page allocator.
    ///
    /// # Errors
    ///
    /// Returns [`Error::AlreadyInitialized`] when called twice,
    /// [`Error::InvalidObjectSize`] for objects smaller than a free list
    /// pointer, [`Error::InvalidAlign`], [`Error::InvalidPageSize`], or
    /// [`Error::ObjectTooLarge`] when no order up to the allocator's
    /// maximum can hold an object.
    pub fn init<PA: PageAlloc>(
        &mut self,
        pages: &PA,
        name: &'static str,
        size: usize,
        align: usize,
    ) -> (result: Result<(), Error>)
        requires
            old(self).wf(pages),
        ensures
            final(self).wf(pages),
            init_outcome(
                old(self)@,
                final(self)@,
                pages.book(),
                name@,
                size as int,
                align as int,
                MIN_OBJECTS as int,
                result,
            ),
            result is Err ==> *final(self) == *old(self),
    {
        self.init_with_min_objects(pages, name, size, align, MIN_OBJECTS)
    }

    /// Initializes the cache like [`KmemCache::init`], with slabs that hold
    /// at least `min_objects` objects where an order allows it.
    ///
    /// # Errors
    ///
    /// Same as [`KmemCache::init`].
    pub fn init_with_min_objects<PA: PageAlloc>(
        &mut self,
        pages: &PA,
        name: &'static str,
        size: usize,
        align: usize,
        min_objects: usize,
    ) -> (result: Result<(), Error>)
        requires
            old(self).wf(pages),
        ensures
            final(self).wf(pages),
            init_outcome(
                old(self)@,
                final(self)@,
                pages.book(),
                name@,
                size as int,
                align as int,
                min_objects as int,
                result,
            ),
            result is Err ==> *final(self) == *old(self),
    {
        if self.is_initialized() {
            return Err(Error::AlreadyInitialized);
        }
        let layout = match SlabLayout::new(
            header_size(),
            size,
            align,
            pages.page_size(),
            pages.max_order(),
            min_objects,
        ) {
            Ok(layout) => layout,
            Err(error) => {
                return Err(error);
            },
        };

        // The block size must be expressible in the address type used to
        // align objects down to their slab.
        let slab_bytes: usize = from_usize(layout.slab_bytes());
        if try_to_usize(slab_bytes) != Some(layout.slab_bytes()) {
            return Err(Error::ObjectTooLarge);
        }
        self.name = name;
        self.layout = layout;
        self.current = None;
        self.partial = None;
        self.nr_partial = 0;
        self.nr_slabs = 0;
        self.nr_objects = 0;
        self.nr_free_objects = 0;
        proof {
            self.slabs@ = Map::empty();
            self.list@ = Seq::empty();
            lemma_no_slabs(self.slabs@, layout.objects as int);
            lemma_fresh_ok(self@, pages.mapping(), pages.mem(), pages.book());
        }
        Ok(())
    }

    /// Returns the cache name.
    pub fn name(&self) -> (name: &'static str)
        ensures
            name@ == self@.name,
    {
        self.name
    }

    /// Returns the layout the cache was initialized with.
    pub fn layout(&self) -> (layout: &SlabLayout)
        ensures
            *layout == self@.layout,
    {
        &self.layout
    }

    /// Returns the number of slabs handed out by the page allocator.
    pub fn nr_slabs(&self) -> (count: usize)
        ensures
            self.rep() ==> count == self@.slabs.dom().len(),
    {
        self.nr_slabs
    }

    /// Returns the total number of objects managed by the cache.
    ///
    /// This counter covers full slabs too, which cannot be walked, so it is
    /// not cross-checked by [`KmemCache::validate`].
    pub fn nr_objects(&self) -> (count: usize)
        ensures
            self.rep() ==> count == self@.layout.objects * self@.slabs.dom().len(),
    {
        self.nr_objects
    }

    /// Returns the number of free objects.
    pub fn nr_free_objects(&self) -> (count: usize)
        ensures
            self.rep() ==> count == total_free(self@.slabs),
    {
        self.nr_free_objects
    }

    /// Sets the number of partial slabs kept before empty ones are
    /// returned to the page allocator.
    pub fn set_min_partial(&mut self, min_partial: usize)
        ensures
            final(self)@ == (CacheView { min_partial, ..old(self)@ }),
            old(self).rep() ==> final(self).rep(),
    {
        self.min_partial = min_partial;
    }

    /// Returns `true` once [`KmemCache::init`] has computed a layout.
    pub fn is_initialized(&self) -> (initialized: bool)
        ensures
            initialized == self@.initialized(),
    {
        self.layout.slab_bytes() != 0
    }

    /// Returns the address of the cache, which is its identity.
    ///
    /// Calls `core::ptr::from_ref`. Nothing is stated of the address: it is
    /// where the cache happens to be.
    #[verifier::external_body]
    fn address(&self) -> (here: usize) {
        core::ptr::from_ref(self) as usize
    }

    /// `here` is what asking for the address of the cache can result in.
    pub closed spec fn may_be_at(&self, here: usize) -> bool {
        call_ensures(KmemCache::address, (self,), here)
    }

    /// Returns where the cache is.
    pub(crate) fn place(&self) -> (here: usize)
        ensures
            self.may_be_at(here),
    {
        self.address()
    }

    /// Allocates one object, refilling from the page allocator when the
    /// active slab is full.
    ///
    /// # Errors
    ///
    /// [`Error::Uninitialized`] before [`KmemCache::init`], or the page
    /// allocator's error when no slab can be grown.
    pub fn allocate<PA: PageAlloc>(&mut self, pages: &mut PA) -> (result: Result<usize, Error>)
        requires
            old(self).wf(old(pages)),
        ensures
            final(self).wf(final(pages)),
            framed(*old(pages), *final(pages), old(self)@, final(self)@, None),
            exists|here: usize| old(self).may_be_at(here) && #[trigger]
                alloc_outcome(old(self)@, final(self)@, *old(pages), *final(pages), here, result),
    {
        let here: usize = self.place();
        self.alloc_at(pages, here)
    }

    /// Allocates one object with the object bytes zeroed.
    ///
    /// # Errors
    ///
    /// Same as [`KmemCache::allocate`].
    pub fn alloc_zeroed<PA: PageAlloc>(&mut self, pages: &mut PA) -> (result: Result<usize, Error>)
        requires
            old(self).wf(old(pages)),
        ensures
            final(self).wf(final(pages)),
            exists|here: usize| old(self).may_be_at(here) && #[trigger]
                alloc_outcome(old(self)@, final(self)@, *old(pages), *final(pages), here, result),
            match result {
                Ok(ptr) => {
                    &&& framed(
                        *old(pages),
                        *final(pages),
                        old(self)@,
                        final(self)@,
                        Some((ptr as int, old(self)@.layout.object_size as int)),
                    )
                    &&& forall|p: int|
                        ptr <= p < ptr + old(self)@.layout.object_size ==> #[trigger] final(pages).mem()[p] == 0
                },
                Err(_) => framed(*old(pages), *final(pages), old(self)@, final(self)@, None),
            },
    {
        let here: usize = self.place();
        self.alloc_zeroed_at(pages, here)
    }

    /// Frees an object previously returned by [`KmemCache::allocate`].
    ///
    /// The object goes back to its slab's free list and the slab moves
    /// between the full, partial and empty states. An empty, non-active slab
    /// is returned to the page allocator once more than `min_partial` slabs
    /// are partial, or at once if it was full.
    ///
    /// # Errors
    ///
    /// [`Error::Uninitialized`] before [`KmemCache::init`];
    /// [`Error::InvalidPointer`] if the pointer is not an object of this
    /// cache (misaligned, outside the object area, or not a slab), or if the
    /// cache has moved since it grew the slab;
    /// [`Error::CrossCacheFree`] if the slab belongs to another cache;
    /// [`Error::DoubleFree`] if the object is already free;
    /// the page allocator's error if returning an empty slab fails.
    pub fn free<PA: PageAlloc>(&mut self, pages: &mut PA, ptr: usize) -> (result: Result<(), Error>)
        requires
            old(self).wf(old(pages)),
            forall|here: usize| #[trigger] old(self).may_be_at(here) ==> may_free(
                old(self)@,
                *old(pages),
                here,
                ptr as int,
            ),
        ensures
            final(self).wf(final(pages)),
            framed(*old(pages), *final(pages), old(self)@, final(self)@, Some((ptr as int, word_bytes()))),
            exists|here: usize| old(self).may_be_at(here) && #[trigger]
                free_outcome(old(self)@, final(self)@, *old(pages), *final(pages), here, ptr as int, result),
    {
        let here: usize = self.place();
        self.free_at(pages, here, ptr)
    }

    /// Verifies the cache's invariants.
    ///
    /// Checks every walkable slab (the active one and the partial list):
    /// header magic, owner and layout, in-use accounting, the object free
    /// list (bounded, aligned, inside the block) and the partial list links.
    /// Full slabs cannot be enumerated, so only the free object count is
    /// cross-checked against the bookkeeping.
    ///
    /// # Errors
    ///
    /// [`Error::Uninitialized`], [`Error::CorruptSlab`] or
    /// [`Error::CountMismatch`] for the first violated invariant. A cache
    /// that has moved since it grew its slabs finds them corrupt.
    pub fn validate<M: PhysMap>(&self, map: &M) -> (result: Result<(), Error>)
        requires
            self.accounted(map),
            forall|here: usize| #[trigger] self.may_be_at(here) ==> verdict_safe(self@, map.mapping(), map.mem(), here),
        ensures
            exists|here: usize| self.may_be_at(here) && result == #[trigger] verdict(self@, map.mapping(), map.mem(), here),
    {
        let here: usize = self.place();
        self.validate_at(map, here)
    }

    /// Allocates one object, refilling from the page allocator when the
    /// active slab is full.
    ///
    /// `here` is where the cache is: the identity that goes into the header
    /// of every slab that it grows.
    ///
    /// # Errors
    ///
    /// [`Error::Uninitialized`] before [`KmemCache::init`], or the page
    /// allocator's error when no slab can be grown.
    pub fn alloc_at<PA: PageAlloc>(&mut self, pages: &mut PA, here: usize) -> (result: Result<usize, Error>)
        requires
            old(self).wf(old(pages)),
        ensures
            final(self).wf(final(pages)),
            framed(*old(pages), *final(pages), old(self)@, final(self)@, None),
            alloc_outcome(old(self)@, final(self)@, *old(pages), *final(pages), here, result),
    {
        if !self.is_initialized() {
            return Err(Error::Uninitialized);
        }
        let ghost v = self@;
        if let Some(object) = self.try_alloc_cached(pages) {
            return Ok(object);
        }
        self.refill(pages, here)?;
        let ghost pages1 = *pages;
        let ghost w = self@;
        match self.try_alloc_cached(pages) {
            Some(object) => {
                proof {
                    if v.partial.len() == 0 {
                        let b = w.current->0;
                        lemma_fresh_apart(*old(pages), pages1, v.layout.order, b);
                        assert(v.layout.object_at(b, 0) == b + v.layout.first_offset);
                    }
                    lemma_framed_trans(*old(pages), pages1, *pages, v, w, self@, None);
                }
                Ok(object)
            },
            None => Err(Error::InternalError),
        }
    }

    /// Allocates one object with the object bytes zeroed.
    ///
    /// `here` is where the cache is: the identity that goes into the header
    /// of every slab that it grows.
    ///
    /// # Errors
    ///
    /// Same as [`KmemCache::alloc_at`].
    pub fn alloc_zeroed_at<PA: PageAlloc>(&mut self, pages: &mut PA, here: usize) -> (result: Result<usize, Error>)
        requires
            old(self).wf(old(pages)),
        ensures
            final(self).wf(final(pages)),
            alloc_outcome(old(self)@, final(self)@, *old(pages), *final(pages), here, result),
            match result {
                Ok(ptr) => {
                    &&& framed(
                        *old(pages),
                        *final(pages),
                        old(self)@,
                        final(self)@,
                        Some((ptr as int, old(self)@.layout.object_size as int)),
                    )
                    &&& forall|p: int|
                        ptr <= p < ptr + old(self)@.layout.object_size ==> #[trigger] final(pages).mem()[p] == 0
                },
                Err(_) => framed(*old(pages), *final(pages), old(self)@, final(self)@, None),
            },
    {
        let ghost v = self@;
        let object: usize = self.alloc_at(pages, here)?;
        let ghost pages1 = *pages;
        let ghost w = self@;
        let ghost b = w.current->0;
        proof {
            handed_out_is_live(v, w, old(pages).mapping(), old(pages).mem(), old(pages).book(), pages.book(), here, object as int);
            pages.book_in_order();
            lemma_object_address(w, pages.mapping(), pages.mem(), pages.book(), b, object as int);
            if !v.ready() && v.partial.len() == 0 {
                lemma_fresh_apart(*old(pages), pages1, v.layout.order, b);
            }
        }
        fill(pages, object, self.layout.object_size(), 0);
        proof {
            writing_a_live_object(
                w,
                pages.mapping(),
                pages1.mem(),
                pages.mem(),
                pages.book(),
                b,
                object as int,
                object as int,
                w.layout.object_size as int,
            );
            lemma_write_in_slab(
                w,
                pages.mapping(),
                pages.book(),
                pages1.mem(),
                pages.mem(),
                b,
                object as int,
                w.layout.object_size as int,
            );
            lemma_framed_trans(
                *old(pages),
                pages1,
                *pages,
                v,
                w,
                w,
                Some((object as int, w.layout.object_size as int)),
            );
        }
        Ok(object)
    }

    /// Refills the active slab from the partial list or the page allocator.
    fn refill<PA: PageAlloc>(&mut self, pages: &mut PA, here: usize) -> (result: Result<(), Error>)
        requires
            old(self).wf(old(pages)),
            old(self)@.initialized(),
            !old(self)@.ready(),
        ensures
            final(self).wf(final(pages)),
            no_new_stuck(old(pages).book(), final(pages).book()),
            framed(*old(pages), *final(pages), old(self)@, final(self)@, None),
            match result {
                Ok(()) => {
                    &&& final(self)@.ready()
                    &&& if old(self)@.partial.len() > 0 {
                        &&& final(self)@ == old(self)@.promoted()
                        &&& final(pages).book() == old(pages).book()
                    } else {
                        let order = old(self)@.layout.order;
                        &&& final(self)@.current matches Some(slab) && {
                            &&& !old(pages).book().refused.dom().contains(order)
                            &&& fresh_block(old(pages).mapping(), old(pages).book(), final(pages).book(), order, slab)
                            &&& !old(self)@.slabs.dom().contains(slab)
                            &&& final(self)@ == old(self)@.grown(slab, here).with_current(Some(slab))
                        }
                    }
                },
                Err(error) => {
                    &&& old(self)@.partial.len() == 0
                    &&& old(pages).book().refused.dom().contains(old(self)@.layout.order)
                    &&& error == old(pages).book().refused[old(self)@.layout.order]
                    &&& final(self)@ == old(self)@.with_current(None)
                    &&& final(pages).book().blocks == old(pages).book().blocks
                },
            },
    {
        let ghost v = self@;
        self.shelve_current(pages)?;
        let ghost pages1 = *pages;
        let ghost v1 = self@;
        if let Some(slab) = self.pop_partial(pages) {
            let ghost v2 = self@;
            self.current = Some(slab);
            proof {
                lemma_framed_trans(*old(pages), pages1, *pages, v, v1, v2, None);
                lemma_promoted_balanced(v);
            }
            return Ok(());
        }
        let slab: usize = match self.new_slab(pages, here) {
            Ok(slab) => slab,
            Err(error) => {
                proof {
                    lemma_framed_trans(*old(pages), pages1, *pages, v, v1, self@, None);
                }
                return Err(error);
            },
        };
        let ghost v2 = self@;
        self.current = Some(slab);
        proof {
            lemma_fresh_apart(pages1, *pages, v.layout.order, slab as int);
            lemma_framed_trans(*old(pages), pages1, *pages, v, v1, v2, None);
        }
        Ok(())
    }

    /// Moves the active slab aside when it has no free objects.
    fn shelve_current<PA: PageAlloc>(&mut self, pages: &mut PA) -> (result: Result<(), Error>)
        requires
            old(self).consistent(old(pages)),
            old(self)@.initialized(),
        ensures
            final(self).consistent(final(pages)),
            framed(*old(pages), *final(pages), old(self)@, final(self)@, None),
            match old(self)@.current {
                None => {
                    &&& result is Ok
                    &&& *final(self) == *old(self)
                    &&& *final(pages) == *old(pages)
                },
                Some(c) => {
                    let v = old(self)@.with_current(None);
                    let block = old(pages).mapping().to_phys[c];
                    let book = old(pages).book();
                    if v.inuse(c) == 0 && v.partial.len() >= v.min_partial {
                        match result {
                            Ok(()) => {
                                &&& !book.stuck.dom().contains(block)
                                &&& final(self)@ == v.released(c)
                                &&& final(pages).book().blocks == book.blocks.remove(block)
                            },
                            Err(error) => {
                                &&& book.stuck.dom().contains(block)
                                &&& error == book.stuck[block]
                                &&& final(self)@ == v.stranded(c)
                                &&& final(pages).book().blocks == book.blocks
                            },
                        }
                    } else {
                        &&& result is Ok
                        &&& final(self)@ == (if v.inuse(c) < v.layout.objects { v.linked(c) } else { v })
                        &&& final(pages).book() == book
                    }
                },
            },
    {
        let current: usize = match self.current {
            Some(current) => current,
            None => return Ok(()),
        };
        let ghost v = self@;
        proof {
            pages.book_in_order();
            lemma_slab_region(v, pages.mapping(), pages.mem(), pages.book(), current as int);
            lemma_used_header(v, pages.mem(), current as int);
        }
        self.current = None;
        let header = load_header(pages, current);
        if header.inuse == 0 {
            // Empty slabs are kept within `min_partial` and released past it.
            if self.nr_partial >= self.min_partial {
                self.release_slab(pages, current)?;
            } else {
                self.push_partial(pages, current);
            }
        } else if header.inuse < header.objects {
            self.push_partial(pages, current);
        }
        // A full slab is forgotten: `free` finds it through its objects.
        Ok(())
    }

    /// Allocates from the active slab only, without touching the page
    /// allocator.
    ///
    /// This is the fast path a kernel would run without the zone lock;
    /// with an external lock it keeps the lock hold time short. Returns
    /// `None` when the active slab has no free objects.
    pub fn try_alloc_cached<M: PhysMap>(&mut self, map: &mut M) -> (object: Option<usize>)
        requires
            old(self).consistent(old(map)),
        ensures
            final(self).consistent(final(map)),
            old(self).wf(old(map)) ==> final(self).wf(final(map)),
            final(map).book() == old(map).book(),
            match object {
                Some(ptr) => {
                    &&& old(self)@.current matches Some(c) && {
                        &&& old(self)@.slabs[c].free.len() > 0
                        &&& ptr == old(self)@.slabs[c].free[0]
                        &&& final(self)@ == old(self)@.taken(c)
                    }
                    &&& framed(*old(map), *final(map), old(self)@, final(self)@, None)
                },
                None => {
                    &&& old(self)@.current matches Some(c) ==> old(self)@.slabs[c].free.len() == 0
                    &&& *final(self) == *old(self)
                    &&& *final(map) == *old(map)
                },
            },
    {
        let ghost v = self@;
        let ghost m0 = map.mem();
        let current: usize = match self.current {
            Some(current) => current,
            None => return None,
        };
        let ghost b = current as int;
        proof {
            map.book_in_order();
            lemma_slab_region(v, map.mapping(), m0, map.book(), b);
            lemma_used_header(v, m0, b);
        }
        let mut header = load_header(map, current);
        let object: usize = match header.freelist {
            Some(object) => object,
            None => return None,
        };
        proof {
            lemma_object_address(v, map.mapping(), m0, map.book(), b, v.slabs[b].free[0]);
            lemma_total_free_insert(v.slabs, b, v.taken(b).slabs[b]);
        }
        header.freelist = get_freepointer(map, object);
        header.inuse = header.inuse + 1;
        store_header(map, current, header);
        self.nr_free_objects = self.nr_free_objects - 1;
        proof {
            lemma_write_in_slab(v, map.mapping(), map.book(), m0, map.mem(), b, b, header_bytes());
            lemma_taken(v, map.mapping(), map.book(), m0, map.mem(), b);
            self.slabs@ = v.taken(b).slabs;
        }
        Some(object)
    }

    /// Frees an object previously returned by [`KmemCache::allocate`].
    ///
    /// The object goes back to its slab's free list and the slab moves
    /// between the full, partial and empty states. An empty, non-active slab
    /// is returned to the page allocator once more than `min_partial` slabs
    /// are partial, or at once if it was full.
    ///
    /// `here` is where the cache is.
    ///
    /// # Errors
    ///
    /// [`Error::Uninitialized`] before [`KmemCache::init`];
    /// [`Error::InvalidPointer`] if the pointer is not an object of this
    /// cache (misaligned, outside the object area, or not a slab), or if the
    /// cache has moved since it grew the slab;
    /// [`Error::CrossCacheFree`] if the slab belongs to another cache;
    /// [`Error::DoubleFree`] if the object is already free;
    /// the page allocator's error if returning an empty slab fails.
    pub fn free_at<PA: PageAlloc>(&mut self, pages: &mut PA, here: usize, ptr: usize) -> (result: Result<(), Error>)
        requires
            old(self).wf(old(pages)),
            may_free(old(self)@, *old(pages), here, ptr as int),
        ensures
            final(self).wf(final(pages)),
            framed(*old(pages), *final(pages), old(self)@, final(self)@, Some((ptr as int, word_bytes()))),
            free_outcome(old(self)@, final(self)@, *old(pages), *final(pages), here, ptr as int, result),
            rejects(old(self)@, *old(pages), here, ptr as int) ==> *final(self) == *old(self),
    {
        if !self.is_initialized() {
            return Err(Error::Uninitialized);
        }
        let phys: usize = pages.virt_to_phys(ptr);
        let slab_bytes: usize = from_usize(self.layout.slab_bytes());
        let base: usize = align_down(phys, slab_bytes);
        let slab: usize = pages.phys_to_virt(base);
        let header = load_header(pages, slab);
        if header.magic != SLAB_MAGIC {
            return Err(Error::InvalidPointer);
        }
        if header.owner != here {
            return if self.grew_at(header.owner) {
                Err(Error::InvalidPointer)
            } else {
                Err(Error::CrossCacheFree)
            };
        }
        if header.order != self.layout.order() {
            return Err(Error::InvalidPointer);
        }

        // The object must lie on the stride grid of the object area.
        let offset: usize = match try_to_usize(phys - base) {
            Some(offset) => offset,
            None => {
                return Err(Error::InvalidPointer);
            },
        };
        let first: usize = self.layout.first_offset();
        let stride: usize = self.layout.stride();
        if offset < first || (offset - first) % stride != 0 || (offset - first) / stride >= self.layout.objects() {
            return Err(Error::InvalidPointer);
        }

        // Best-effort double free detection: the free list head catches the
        // common free-then-free case, the in-use count catches frees once
        // the slab has nothing allocated.
        if header.freelist == Some(ptr) || header.inuse == 0 {
            return Err(Error::DoubleFree);
        }
        // What only looks like a slab of this cache.
        if !self.grew_at(here) || header.kind != kind_for(&self.layout) {
            return Err(Error::InvalidPointer);
        }
        proof {
            lemma_used_header(self@, pages.mem(), slab as int);
        }
        self.give_back(pages, slab, ptr)
    }

    /// Returns every empty slab to the page allocator.
    ///
    /// Partial slabs with live objects stay cached, empty ones (including the
    /// active slab) are released. All objects must be freed for the cache to
    /// release everything.
    ///
    /// # Errors
    ///
    /// [`Error::Uninitialized`] before [`KmemCache::init`], or the page
    /// allocator's error for the first slab that it does not take back; the
    /// slabs behind that one stay.
    pub fn shrink<PA: PageAlloc>(&mut self, pages: &mut PA) -> (result: Result<(), Error>)
        requires
            old(self).wf(old(pages)),
        ensures
            final(self).wf(final(pages)),
            framed(*old(pages), *final(pages), old(self)@, final(self)@, None),
            returned(old(pages).mapping(), old(pages).book(), final(pages).book(), old(self)@, final(self)@),
            no_new_stuck(old(pages).book(), final(pages).book()),
            shrink_outcome(old(self)@, final(self)@, old(pages).mapping(), old(pages).book(), result),
            !old(self)@.initialized() ==> *final(pages) == *old(pages),
    {
        let ghost v = self@;
        let ghost pages0 = *pages;
        proof {
            lemma_returned_none(pages.mapping(), pages.book(), v);
        }
        if !self.is_initialized() {
            return Err(Error::Uninitialized);
        }
        if let Some(current) = self.current {
            proof {
                pages.book_in_order();
                lemma_slab_region(v, pages.mapping(), pages.mem(), pages.book(), current as int);
                lemma_used_header(v, pages.mem(), current as int);
            }
            let header = load_header(pages, current);
            if header.inuse == 0 {
                self.current = None;
                proof {
                    lemma_detached_balanced(v.with_current(None), current as int);
                }
                if let Err(error) = self.release_slab(pages, current) {
                    assert(v.with_current(None).stranded(current as int).slabs.dom() =~= v.slabs.dom());
                    return Err(error);
                }
                proof {
                    lemma_returned_step(
                        pages.mapping(),
                        pages0.mem(),
                        pages0.book(),
                        pages0.book(),
                        pages.book(),
                        v,
                        v,
                        current as int,
                    );
                }
            }
        }
        proof {
            lemma_swept_none(v);
        }
        let mut node: Option<usize> = self.partial;
        let ghost mut k: int = 0;
        loop
            invariant
                v == old(self)@,
                pages0 == *old(pages),
                v.initialized(),
                v.structure_ok(),
                0 <= k <= v.partial.len(),
                self@ == v.swept(k),
                self.wf(pages),
                framed(pages0, *pages, v, self@, None),
                returned(pages0.mapping(), pages0.book(), pages.book(), v, self@),
                node == front(v.partial.skip(k)),
                no_new_stuck(pages0.book(), pages.book()),
                v.placed_ok(pages0.mapping(), pages0.book()),
            ensures
                k == v.partial.len(),
            decreases v.partial.len() - k,
        {
            let slab: usize = match node {
                Some(slab) => slab,
                None => break,
            };
            let ghost x = self@;
            let ghost b = slab as int;
            let ghost pages1 = *pages;
            proof {
                pages.book_in_order();
                lemma_swept_step(v, k);
                lemma_list_address(x, pages.mapping(), pages.mem(), pages.book(), v.partial[k]);
                let at = choose|at: int|
                    0 <= at < x.partial.len() && x.partial[at] == b && #[trigger] after(x.partial, at) == front(
                        v.partial.skip(k + 1),
                    );
                lemma_linked_header(x, pages.mem(), at);
                lemma_slab_region(x, pages.mapping(), pages.mem(), pages.book(), b);
            }
            let header = load_header(pages, slab);
            node = header.next;
            if header.inuse == 0 {
                proof {
                    lemma_detached_balanced(x, b);
                }
                self.unlink_partial(pages, slab);
                let ghost pages2 = *pages;
                proof {
                    lemma_framed_trans(pages0, pages1, pages2, v, x, self@, None);
                }
                let ghost y = self@;
                if let Err(error) = self.release_slab(pages, slab) {
                    proof {
                        lemma_framed_trans(pages0, pages2, *pages, v, y, self@, None);
                        assert(self@.slabs.dom() =~= x.slabs.dom());
                    }
                    return Err(error);
                }
                proof {
                    lemma_framed_trans(pages0, pages2, *pages, v, y, self@, None);
                    lemma_returned_step(
                        pages.mapping(),
                        pages1.mem(),
                        pages0.book(),
                        pages1.book(),
                        pages.book(),
                        v,
                        x,
                        b,
                    );
                }
            }
            proof {
                k = k + 1;
            }
        }
        Ok(())
    }

    /// Releases every slab and consumes the cache.
    ///
    /// All objects must have been freed first; slabs holding live objects
    /// keep their pages.
    ///
    /// # Errors
    ///
    /// [`Error::Uninitialized`] before [`KmemCache::init`], or the page
    /// allocator's error for the first slab that it does not take back; the
    /// slabs behind that one keep their pages.
    pub fn destroy<PA: PageAlloc>(self, pages: &mut PA) -> (result: Result<(), Error>)
        requires
            self.wf(old(pages)),
        ensures
            final(pages).inv(),
            no_new_stuck(old(pages).book(), final(pages).book()),
            destroy_outcome(self@, *old(pages), *final(pages), result),
            !self@.initialized() ==> *final(pages) == *old(pages),
    {
        let mut rest = self;
        rest.shrink(pages)
    }

    /// Verifies the cache's invariants.
    ///
    /// Checks every walkable slab (the active one and the partial list):
    /// header magic, owner and layout, in-use accounting, the object free
    /// list (bounded, aligned, inside the block) and the partial list links.
    /// Full slabs cannot be enumerated, so only the free object count is
    /// cross-checked against the bookkeeping.
    ///
    /// `here` is where the cache is: the identity that the headers must hold.
    ///
    /// # Errors
    ///
    /// [`Error::Uninitialized`], [`Error::CorruptSlab`] or
    /// [`Error::CountMismatch`] for the first violated invariant.
    pub fn validate_at<M: PhysMap>(&self, map: &M, here: usize) -> (result: Result<(), Error>)
        requires
            self.accounted(map),
            verdict_safe(self@, map.mapping(), map.mem(), here),
        ensures
            result == verdict(self@, map.mapping(), map.mem(), here),
    {
        if !self.is_initialized() {
            return Err(Error::Uninitialized);
        }
        let ghost v = self@;
        let ghost mem = map.mem();
        let ghost tr = map.mapping();
        let ghost most = self.nr_slabs as int;
        proof {
            map.book_in_order();
            lemma_count_room(v, tr, mem, map.book());
        }
        let mut free_total: usize = 0;
        if let Some(current) = self.current {
            let header = load_header(map, current);
            if header.on_partial {
                return Err(Error::CorruptSlab);
            }
            let free: usize = self.validate_slab(map, current, here)?;
            free_total = free;
        }
        let mut node: Option<usize> = self.partial;
        let mut len: usize = 0;
        let mut prev: Option<usize> = None;
        let ghost first = walk(v.layout, tr, mem, here, most, node, None, 0, free_total as int);
        loop
            invariant
                v == self@,
                mem == map.mem(),
                tr == map.mapping(),
                most == self.nr_slabs,
                map.inv(),
                self.accounted(map),
                v.initialized(),
                0 <= len <= most,
                free_total <= v.layout.objects * (len + 1),
                v.layout.objects * (most + 2) <= usize::MAX,
                walk(v.layout, tr, mem, here, most, node, prev, len as int, free_total as int) == first,
                walk_safe(v.layout, tr, mem, here, most, node, prev, len as int),
                verdict(v, tr, mem, here) == (match first {
                    Err(error) => Err::<(), Error>(error),
                    Ok((len, total)) => if len != v.partial.len() || total != total_free(v.slabs) {
                        Err(Error::CountMismatch)
                    } else {
                        Ok(())
                    },
                }),
            ensures
                first == Ok::<(int, int), Error>((len as int, free_total as int)),
            decreases most - len,
        {
            let slab: usize = match node {
                Some(slab) => slab,
                None => break,
            };
            let header = load_header(map, slab);
            if !header.on_partial || header.prev != prev {
                return Err(Error::CorruptSlab);
            }
            let free: usize = self.validate_slab(map, slab, here)?;
            proof {
                lemma_count_split(v.layout.objects as int, len + 2);
                lemma_count_grows(v.layout.objects as int, len + 2, most + 2);
            }
            free_total = free_total + free;
            if len >= self.nr_slabs {
                return Err(Error::CorruptSlab);
            }
            len = len + 1;
            prev = node;
            node = header.next;
        }
        if len != self.nr_partial {
            return Err(Error::CountMismatch);
        }
        if free_total != self.nr_free_objects {
            return Err(Error::CountMismatch);
        }
        Ok(())
    }

    /// Verifies one slab, returning its number of free objects.
    fn validate_slab<M: PhysMap>(&self, map: &M, slab: usize, owner: usize) -> (result: Result<usize, Error>)
        requires
            map.inv(),
            self@.initialized(),
            self@.layout.ok(header_bytes()),
            slab_safe(self@.layout, map.mapping(), map.mem(), owner, slab as int),
        ensures
            match result {
                Ok(free) => {
                    &&& slab_verdict(self@.layout, map.mapping(), map.mem(), owner, slab as int) == Ok::<int, Error>(
                        free as int,
                    )
                    &&& free <= self@.layout.objects
                },
                Err(error) => slab_verdict(self@.layout, map.mapping(), map.mem(), owner, slab as int) == Err::<
                    int,
                    Error,
                >(error),
            },
    {
        let header = load_header(map, slab);
        if header.magic != SLAB_MAGIC || header.owner != owner {
            return Err(Error::CorruptSlab);
        }
        if header.order != self.layout.order() || header.objects != self.layout.objects() {
            return Err(Error::CorruptSlab);
        }
        if header.inuse > header.objects {
            return Err(Error::CountMismatch);
        }
        let ghost l = self@.layout;
        let ghost mem = map.mem();
        let ghost tr = map.mapping();
        let ghost all = chain(l, tr, mem, slab as int, header.freelist, 0);
        let base_phys: usize = map.virt_to_phys(slab);
        let mut node: Option<usize> = header.freelist;
        let mut free: usize = 0;
        loop
            invariant
                l == self@.layout,
                l.ok(header_bytes()),
                mem == map.mem(),
                tr == map.mapping(),
                map.inv(),
                base_phys == tr.to_phys[slab as int],
                header == header_at(mem, slab as int),
                header.objects == l.objects,
                free <= l.objects,
                chain(l, tr, mem, slab as int, node, free as int) == all,
                chain_safe(l, tr, mem, slab as int, node, free as int),
                slab_verdict(l, tr, mem, owner, slab as int) == (match all {
                    Err(error) => Err::<int, Error>(error),
                    Ok(free) => if free != header.objects - header.inuse {
                        Err(Error::CountMismatch)
                    } else {
                        Ok(free)
                    },
                }),
            ensures
                all == Ok::<int, Error>(free as int),
            decreases l.objects - free,
        {
            let object: usize = match node {
                Some(object) => object,
                None => break,
            };
            if free >= header.objects {
                return Err(Error::CorruptSlab);
            }
            let phys: usize = map.virt_to_phys(object);
            if phys < base_phys {
                return Err(Error::CorruptSlab);
            }
            let offset: usize = match try_to_usize(phys - base_phys) {
                Some(offset) => offset,
                None => {
                    return Err(Error::CorruptSlab);
                },
            };
            let first: usize = self.layout.first_offset();
            if offset < first || offset > self.layout.slab_bytes() || self.layout.slab_bytes() - offset
                < self.layout.object_size() || (offset - first) % self.layout.stride() != 0 {
                return Err(Error::CorruptSlab);
            }
            free = free + 1;
            node = get_freepointer(map, object);
        }
        if free != header.objects - header.inuse {
            return Err(Error::CountMismatch);
        }
        Ok(free)
    }

    /// Returns `true` if `place` lies between the places where the cache grew
    /// its slabs.
    fn grew_at(&self, place: usize) -> (grew: bool)
        requires
            self.rep(),
        ensures
            grew == self@.grew_at(place),
    {
        self.nr_slabs > 0 && self.low <= place && place <= self.high
    }

    /// Puts an object back into the slab at `slab`, and the slab where it
    /// belongs.
    fn give_back<PA: PageAlloc>(&mut self, pages: &mut PA, slab: usize, ptr: usize) -> (result: Result<(), Error>)
        requires
            old(self).wf(old(pages)),
            old(self)@.initialized(),
            old(self)@.lives(slab as int, ptr as int),
            old(self)@.inuse(slab as int) > 0,
        ensures
            final(self).wf(final(pages)),
            framed(*old(pages), *final(pages), old(self)@, final(self)@, Some((ptr as int, word_bytes()))),
            ({
                let block = old(pages).mapping().to_phys[slab as int];
                let book = old(pages).book();
                let given = old(self)@.given(slab as int, ptr as int);
                &&& no_new_stuck(book, final(pages).book())
                &&& if given.inuse(slab as int) > 0 {
                    &&& result is Ok
                    &&& final(self)@ == given.reachable(slab as int)
                    &&& final(pages).book() == book
                } else if !given.spare(slab as int) {
                    &&& result is Ok
                    &&& final(self)@ == given
                    &&& final(pages).book() == book
                } else {
                    match result {
                        Ok(()) => {
                            &&& !book.stuck.dom().contains(block)
                            &&& final(self)@ == given.detached(slab as int).released(slab as int)
                            &&& final(pages).book().blocks == book.blocks.remove(block)
                        },
                        Err(error) => {
                            &&& book.stuck.dom().contains(block)
                            &&& error == book.stuck[block]
                            &&& final(self)@ == given.detached(slab as int).stranded(slab as int)
                            &&& final(pages).book().blocks == book.blocks
                        },
                    }
                }
            }),
    {
        let ghost v = self@;
        let ghost b = slab as int;
        let ghost w = v.given(b, ptr as int);
        let header = self.push_object(pages, slab, ptr);
        let ghost pages1 = *pages;
        if header.inuse == 0 {
            if self.current == Some(slab) {
                // Kept as the active slab for fast reuse.
            } else if header.on_partial {
                if self.nr_partial > self.min_partial {
                    self.unlink_partial(pages, slab);
                    let ghost pages2 = *pages;
                    let ghost x = self@;
                    proof {
                        lemma_framed_trans(*old(pages), pages1, pages2, v, w, x, Some((ptr as int, word_bytes())));
                    }
                    let result = self.release_slab(pages, slab);
                    proof {
                        lemma_framed_trans(*old(pages), pages2, *pages, v, x, self@, Some((ptr as int, word_bytes())));
                        lemma_detached_balanced(w, b);
                    }
                    return result;
                }
            } else {
                // The slab was full and is now empty; nothing links to it.
                let result = self.release_slab(pages, slab);
                proof {
                    lemma_framed_trans(*old(pages), pages1, *pages, v, w, self@, Some((ptr as int, word_bytes())));
                    lemma_detached_balanced(w, b);
                }
                return result;
            }
        } else if header.inuse < header.objects && !header.on_partial && self.current != Some(slab) {
            // The slab was full and is now partial.
            self.push_partial(pages, slab);
            proof {
                lemma_framed_trans(*old(pages), pages1, *pages, v, w, self@, Some((ptr as int, word_bytes())));
                lemma_linked_balanced(w, b);
            }
        }
        Ok(())
    }

    /// Puts an object at the front of the free list of the slab at `slab`.
    fn push_object<M: PhysMap>(&mut self, map: &mut M, slab: usize, ptr: usize) -> (header: SlabHeader)
        requires
            old(self).consistent(old(map)),
            old(self)@.initialized(),
            old(self)@.lives(slab as int, ptr as int),
            old(self)@.inuse(slab as int) > 0,
        ensures
            final(self).consistent(final(map)),
            final(self)@ == old(self)@.given(slab as int, ptr as int),
            final(map).book() == old(map).book(),
            framed(*old(map), *final(map), old(self)@, final(self)@, Some((ptr as int, word_bytes()))),
            header.inuse == final(self)@.inuse(slab as int),
            header.objects == final(self)@.layout.objects,
            header.on_partial == final(self)@.links(slab as int),
    {
        let ghost v = self@;
        let ghost b = slab as int;
        let ghost m0 = map.mem();
        proof {
            map.book_in_order();
            lemma_slab_region(v, map.mapping(), m0, map.book(), b);
            lemma_used_header(v, m0, b);
            lemma_object_address(v, map.mapping(), m0, map.book(), b, ptr as int);
        }
        let mut header = load_header(map, slab);
        proof {
            if v.slabs[b].free.len() > 0 {
                lemma_object_address(v, map.mapping(), m0, map.book(), b, v.slabs[b].free[0]);
            }
        }
        set_freepointer(map, ptr, header.freelist);
        let ghost m1 = map.mem();
        proof {
            lemma_write_in_slab(v, map.mapping(), map.book(), m0, m1, b, ptr as int, word_bytes());
            lemma_header_same(m0, m1, b);
            map.book_in_order();
        }
        header.freelist = Some(ptr);
        header.inuse = header.inuse - 1;
        store_header(map, slab, header);
        proof {
            let m2 = map.mem();
            lemma_write_in_slab(v, map.mapping(), map.book(), m1, m2, b, b, header_bytes());
            lemma_word_same(m1, m2, ptr as int);
            assert forall|c: int| #[trigger] v.slabs.dom().contains(c) && c != b implies same_bytes(
                m0,
                m2,
                c,
                v.layout.slab_bytes as int,
            ) by {
                assert forall|p: int| c <= p < c + v.layout.slab_bytes implies #[trigger] m2[p] == m0[p] by {}
            }
            lemma_given(v, map.mapping(), map.book(), m0, m2, b, ptr as int);
            lemma_rest_kept_trans(map.mapping(), map.book(), map.book(), map.book(), m0, m1, m2, v.slabs, v.slabs);
            assert(objects_kept(v.layout, v.slabs, v.given(b, ptr as int).slabs, m0, m2, Some((ptr as int, word_bytes())))) by {
                assert forall|c: int, p: int| #![trigger v.slabs.dom().contains(c), m2[p]]
                    v.slabs.dom().contains(c) && c + v.layout.first_offset <= p < c + v.layout.slab_bytes && !(ptr <= p
                        < ptr + word_bytes()) implies m2[p] == m0[p] by {}
            }
            lemma_total_free_insert(v.slabs, b, v.given(b, ptr as int).slabs[b]);
            lemma_total_free_bound(v.given(b, ptr as int).slabs, v.layout.objects as nat);
            lemma_slab_count(v, map.mapping(), m0, map.book());
            self.slabs@ = v.given(b, ptr as int).slabs;
        }
        self.nr_free_objects = self.nr_free_objects + 1;
        header
    }

    /// Grows a new slab from the page allocator.
    ///
    /// The header is filled in and the object free list is built before the
    /// slab can be reached.
    fn new_slab<PA: PageAlloc>(&mut self, pages: &mut PA, here: usize) -> (result: Result<usize, Error>)
        requires
            old(self).consistent(old(pages)),
            old(self)@.initialized(),
        ensures
            final(self).consistent(final(pages)),
            no_new_stuck(old(pages).book(), final(pages).book()),
            framed(*old(pages), *final(pages), old(self)@, final(self)@, None),
            ({
                let order = old(self)@.layout.order;
                let book = old(pages).book();
                match result {
                    Ok(slab) => {
                        &&& !book.refused.dom().contains(order)
                        &&& fresh_block(old(pages).mapping(), book, final(pages).book(), order, slab as int)
                        &&& !old(self)@.slabs.dom().contains(slab as int)
                        &&& final(self)@ == old(self)@.grown(slab as int, here)
                    },
                    Err(error) => {
                        &&& book.refused.dom().contains(order)
                        &&& error == book.refused[order]
                        &&& final(self)@ == old(self)@
                        &&& final(pages).book().blocks == book.blocks
                    },
                }
            }),
    {
        let ghost v = self@;
        let ghost m0 = pages.mem();
        let ghost book0 = pages.book();
        let ghost tr = pages.mapping();
        proof {
            pages.book_in_order();
        }
        let block: usize = match pages.alloc_pages(self.layout.order()) {
            Ok(block) => block,
            Err(error) => {
                proof {
                    lemma_pages_kept(v, tr, pages.book(), book0, m0, pages.mem());
                }
                return Err(error);
            },
        };
        let ghost m1 = pages.mem();
        let ghost book = pages.book();
        proof {
            pages.book_in_order();
            assert(book.blocks.dom().contains(block as int));
            assert(tr.to_virt.dom().contains(block + 0));
        }
        let slab: usize = pages.phys_to_virt(block);
        if self.nr_slabs == 0 || here < self.low {
            self.low = here;
        }
        if self.nr_slabs == 0 || self.high < here {
            self.high = here;
        }
        let ghost b = slab as int;
        let ghost s = v.grown(b, here).slabs[b];
        let count: usize = self.layout.objects();
        format_slab(pages, &self.layout, slab, here);
        proof {
            let m3 = pages.mem();
            pages.book_in_order();
            lemma_slab_grown(v, tr, book, book0, m0, m1, m3, block as int, b, here);
            lemma_slab_count(v.grown(b, here), tr, m3, book);
            lemma_total_free_insert(v.slabs, b, s);
            lemma_total_free_bound(v.grown(b, here).slabs, count as nat);
            lemma_count_split(count as int, v.slabs.dom().len() as int + 1);
            self.slabs@ = v.grown(b, here).slabs;
        }
        self.nr_slabs = self.nr_slabs + 1;
        self.nr_objects = self.nr_objects + count;
        self.nr_free_objects = self.nr_free_objects + count;
        Ok(slab)
    }

    /// Returns a slab to the page allocator.
    fn release_slab<PA: PageAlloc>(&mut self, pages: &mut PA, slab: usize) -> (result: Result<(), Error>)
        requires
            old(self).consistent(old(pages)),
            old(self)@.initialized(),
            old(self)@.has(slab as int),
            !old(self)@.links(slab as int),
            old(self)@.current != Some(slab as int),
        ensures
            final(self).consistent(final(pages)),
            no_new_stuck(old(pages).book(), final(pages).book()),
            framed(*old(pages), *final(pages), old(self)@, final(self)@, None),
            ({
                let block = old(pages).mapping().to_phys[slab as int];
                let book = old(pages).book();
                match result {
                    Ok(()) => {
                        &&& !book.stuck.dom().contains(block)
                        &&& final(self)@ == old(self)@.released(slab as int)
                        &&& final(pages).book().blocks == book.blocks.remove(block)
                    },
                    Err(error) => {
                        &&& book.stuck.dom().contains(block)
                        &&& error == book.stuck[block]
                        &&& final(self)@ == old(self)@.stranded(slab as int)
                        &&& final(pages).book().blocks == book.blocks
                    },
                }
            }),
    {
        let ghost v = self@;
        let ghost b = slab as int;
        let ghost m0 = pages.mem();
        let ghost book0 = pages.book();
        proof {
            pages.book_in_order();
            lemma_slab_region(v, pages.mapping(), m0, book0, b);
            lemma_used_header(v, m0, b);
        }
        let mut header = load_header(pages, slab);
        header.magic = 0;
        store_header(pages, slab, header);
        let ghost m1 = pages.mem();
        let phys: usize = pages.virt_to_phys(slab);
        let result = pages.free_pages(phys, self.layout.order());
        proof {
            lemma_release_frame(v, pages.mapping(), pages.book(), book0, m0, m1, pages.mem(), b);
        }
        match result {
            Ok(()) => {},
            Err(error) => {
                proof {
                    lemma_slab_gone(v, v.stranded(b), pages.mapping(), pages.book(), book0, m0, pages.mem(), b);
                    lemma_total_free_insert(v.slabs, b, v.stranded(b).slabs[b]);
                    self.slabs@ = v.stranded(b).slabs;
                }
                return Err(error);
            },
        }
        proof {
            lemma_slab_gone(v, v.released(b), pages.mapping(), pages.book(), book0, m0, pages.mem(), b);
            lemma_total_free_split(v.slabs, b);
            lemma_count_split(self.layout.objects as int, v.slabs.dom().len() as int);
            self.slabs@ = v.released(b).slabs;
        }
        self.nr_slabs = self.nr_slabs - 1;
        self.nr_objects = self.nr_objects - header.objects;
        self.nr_free_objects = self.nr_free_objects - (header.objects - header.inuse);
        Ok(())
    }

    /// Pushes a slab at the front of the partial list.
    fn push_partial<M: PhysMap>(&mut self, map: &mut M, slab: usize)
        requires
            old(self).consistent(old(map)),
            old(self)@.initialized(),
            old(self)@.has(slab as int),
            !old(self)@.links(slab as int),
            old(self)@.current != Some(slab as int),
        ensures
            final(self).consistent(final(map)),
            final(self)@ == old(self)@.linked(slab as int),
            final(map).book() == old(map).book(),
            framed(*old(map), *final(map), old(self)@, final(self)@, None),
    {
        let ghost v = self@;
        let ghost b = slab as int;
        let ghost book = map.book();
        let ghost m0 = map.mem();
        proof {
            map.book_in_order();
            lemma_slab_region(v, map.mapping(), m0, book, b);
            lemma_no_headers(v, map.mapping(), book, m0);
        }
        let mut header = load_header(map, slab);
        header.on_partial = true;
        header.prev = None;
        header.next = self.partial;
        store_header(map, slab, header);
        let ghost m1 = map.mem();
        proof {
            lemma_header_step(v, map.mapping(), book, m0, m0, m1, Set::empty(), b);
            map.book_in_order();
        }
        if let Some(head) = self.partial {
            proof {
                lemma_linked_header(v, m0, 0);
                lemma_slab_region(v, map.mapping(), m1, book, head as int);
            }
            let mut next = load_header(map, head);
            next.prev = Some(slab);
            store_header(map, head, next);
            proof {
                lemma_header_step(v, map.mapping(), book, m0, m1, map.mem(), set![b], head as int);
            }
        }
        self.partial = Some(slab);
        proof {
            let touched = if v.partial.len() > 0 { set![b, v.partial[0]] } else { set![b] };
            lemma_linked(v, map.mapping(), book, m0, map.mem(), touched, b);
            lemma_headers_only(v, map.mapping(), book, m0, map.mem(), touched);
            lemma_partial_len(v.linked(b));
            lemma_slab_count(v, map.mapping(), m0, book);
            self.list@ = v.linked(b).partial;
        }
        self.nr_partial = self.nr_partial + 1;
    }

    /// Pops the front slab of the partial list.
    fn pop_partial<M: PhysMap>(&mut self, map: &mut M) -> (popped: Option<usize>)
        requires
            old(self).consistent(old(map)),
            old(self)@.initialized(),
        ensures
            final(self).consistent(final(map)),
            final(map).book() == old(map).book(),
            match popped {
                Some(slab) => {
                    &&& old(self)@.partial.len() > 0
                    &&& slab == old(self)@.partial[0]
                    &&& final(self)@ == old(self)@.unlinked(slab as int)
                    &&& final(self)@.partial == old(self)@.partial.drop_first()
                    &&& !final(self)@.links(slab as int)
                    &&& framed(*old(map), *final(map), old(self)@, final(self)@, None)
                },
                None => {
                    &&& old(self)@.partial.len() == 0
                    &&& *final(self) == *old(self)
                    &&& *final(map) == *old(map)
                },
            },
    {
        let ghost v = self@;
        let ghost book = map.book();
        let ghost m0 = map.mem();
        let slab: usize = match self.partial {
            Some(slab) => slab,
            None => return None,
        };
        let ghost b = slab as int;
        proof {
            map.book_in_order();
            lemma_linked_header(v, m0, 0);
            lemma_slab_region(v, map.mapping(), m0, book, b);
            lemma_no_headers(v, map.mapping(), book, m0);
        }
        let mut header = load_header(map, slab);
        self.partial = header.next;
        header.on_partial = false;
        header.next = None;
        header.prev = None;
        store_header(map, slab, header);
        let ghost m1 = map.mem();
        proof {
            lemma_header_step(v, map.mapping(), book, m0, m0, m1, Set::empty(), b);
            map.book_in_order();
        }
        if let Some(next) = self.partial {
            proof {
                lemma_linked_header(v, m0, 1);
                lemma_slab_region(v, map.mapping(), m1, book, next as int);
            }
            let mut header = load_header(map, next);
            header.prev = None;
            store_header(map, next, header);
            proof {
                lemma_header_step(v, map.mapping(), book, m0, m1, map.mem(), set![b], next as int);
            }
        }
        proof {
            let touched = if v.partial.len() > 1 { set![b, v.partial[1]] } else { set![b] };
            lemma_unlinked(v, map.mapping(), book, m0, map.mem(), touched, 0);
            lemma_headers_only(v, map.mapping(), book, m0, map.mem(), touched);
            self.list@ = v.partial.remove(0);
        }
        self.nr_partial = self.nr_partial - 1;
        Some(slab)
    }

    /// Unlinks a slab from the partial list.
    #[verifier::rlimit(30)]
    fn unlink_partial<M: PhysMap>(&mut self, map: &mut M, slab: usize)
        requires
            old(self).consistent(old(map)),
            old(self)@.initialized(),
            old(self)@.links(slab as int),
        ensures
            final(self).consistent(final(map)),
            final(self)@ == old(self)@.unlinked(slab as int),
            !final(self)@.links(slab as int),
            final(map).book() == old(map).book(),
            framed(*old(map), *final(map), old(self)@, final(self)@, None),
    {
        let ghost v = self@;
        let ghost b = slab as int;
        let ghost at = v.partial.index_of(b);
        let ghost book = map.book();
        let ghost m0 = map.mem();
        let ghost mut touched = Set::<int>::empty();
        proof {
            map.book_in_order();
            lemma_linked_header(v, m0, at);
            lemma_slab_region(v, map.mapping(), m0, book, b);
            lemma_no_headers(v, map.mapping(), book, m0);
        }
        let mut header = load_header(map, slab);
        if let Some(next) = header.next {
            proof {
                lemma_linked_header(v, m0, at + 1);
                lemma_slab_region(v, map.mapping(), m0, book, next as int);
            }
            let mut after = load_header(map, next);
            after.prev = header.prev;
            store_header(map, next, after);
            proof {
                lemma_header_step(v, map.mapping(), book, m0, m0, map.mem(), touched, next as int);
                map.book_in_order();
                touched = touched.insert(next as int);
            }
        }
        let ghost m1 = map.mem();
        match header.prev {
            Some(prev) => {
                proof {
                    lemma_linked_header(v, m0, at - 1);
                    lemma_slab_region(v, map.mapping(), m1, book, prev as int);
                }
                let mut before = load_header(map, prev);
                before.next = header.next;
                store_header(map, prev, before);
                proof {
                    lemma_header_step(v, map.mapping(), book, m0, m1, map.mem(), touched, prev as int);
                    map.book_in_order();
                    touched = touched.insert(prev as int);
                }
            },
            None => {
                self.partial = header.next;
            },
        }
        let ghost m2 = map.mem();
        header.on_partial = false;
        header.next = None;
        header.prev = None;
        proof {
            lemma_slab_region(v, map.mapping(), m2, book, b);
        }
        store_header(map, slab, header);
        proof {
            lemma_header_step(v, map.mapping(), book, m0, m2, map.mem(), touched, b);
            touched = touched.insert(b);
            lemma_unlinked(v, map.mapping(), book, m0, map.mem(), touched, at);
            lemma_headers_only(v, map.mapping(), book, m0, map.mem(), touched);
            self.list@ = v.partial.remove(at);
        }
        self.nr_partial = self.nr_partial - 1;
    }
}

} // verus!
