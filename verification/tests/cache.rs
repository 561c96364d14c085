//! A cache over a page allocator that is easy to look into.

use the_slab::header::load_header;
use the_slab::header::set_freepointer;
use the_slab::header::store_header;
use the_slab::pages::Book;
use the_slab::pages::Bytes;
use the_slab::pages::Mapping;
use the_slab::DirectMap;
use the_slab::Error;
use the_slab::KmemCache;
use the_slab::PageAlloc;
use the_slab::PhysMap;

const PAGE: usize = 4096;
const MAX_ORDER: usize = 3;
const PAGES: usize = 64;
const BASE: usize = 0x100_0000;

/// A page allocator over zeroed memory with an identity mapping; stands in
/// for the buddy allocator.
struct TestAlloc {
    map: DirectMap,
    max_order: u8,
    /// Order of the block starting at each page, `None` when free.
    blocks: Vec<Option<u8>>,
}

impl TestAlloc {
    fn with_max_order(max_order: u8) -> Self {
        Self {
            map: DirectMap::new(BASE, BASE, vec![0; PAGES * PAGE]),
            max_order,
            blocks: vec![None; PAGES],
        }
    }

    fn new() -> Self {
        Self::with_max_order(MAX_ORDER as u8)
    }

    fn ptr_at(&self, page: usize) -> usize {
        assert!(page < PAGES);
        BASE + page * PAGE
    }

    fn page_of(&self, ptr: usize) -> usize {
        (ptr - BASE) / PAGE
    }

    fn allocated_pages(&self) -> usize {
        self.blocks.iter().filter(|block| block.is_some()).count()
    }

    fn find_run(&self, order: u8) -> Option<usize> {
        let run = 1usize << order;
        let mut start = 0;
        while start + run <= self.blocks.len() {
            if self.blocks[start..start + run].iter().all(|b| b.is_none()) {
                return Some(start);
            }
            start += run;
        }
        None
    }
}

impl PhysMap for TestAlloc {
    // What the contracts speak of is not there when the code runs.
    fn mem(&self) -> Bytes {
        unreachable!()
    }

    fn mapping(&self) -> Mapping {
        unreachable!()
    }

    fn book(&self) -> Book {
        unreachable!()
    }

    fn inv(&self) -> bool {
        unreachable!()
    }

    fn book_in_order(&self) {}

    fn phys_to_virt(&self, addr: usize) -> usize {
        self.map.phys_to_virt(addr)
    }

    fn virt_to_phys(&self, ptr: usize) -> usize {
        self.map.virt_to_phys(ptr)
    }

    fn load(&self, ptr: usize) -> u8 {
        self.map.load(ptr)
    }

    fn store(&mut self, ptr: usize, byte: u8) {
        self.map.store(ptr, byte);
    }
}

impl PageAlloc for TestAlloc {
    fn page_size(&self) -> usize {
        PAGE
    }

    fn max_order(&self) -> u8 {
        self.max_order
    }

    fn alloc_pages(&mut self, order: u8) -> Result<usize, Error> {
        let start = self.find_run(order).ok_or(Error::OutOfMemory)?;
        for block in &mut self.blocks[start..start + (1 << order)] {
            *block = Some(order);
        }
        Ok(BASE + start * PAGE)
    }

    fn free_pages(&mut self, addr: usize, order: u8) -> Result<(), Error> {
        let start = (addr - BASE) / PAGE;
        let run = 1usize << order;
        if start + run > self.blocks.len()
            || self.blocks[start..start + run]
                .iter()
                .any(|block| *block != Some(order))
        {
            return Err(Error::PageAlloc);
        }
        for block in &mut self.blocks[start..start + run] {
            *block = None;
        }
        Ok(())
    }
}

fn cache_with(alloc: &TestAlloc, size: usize, align: usize) -> KmemCache {
    let mut cache = KmemCache::uninit();
    cache.init(alloc, "test", size, align).unwrap();
    cache
}

fn alloc_many(cache: &mut KmemCache, alloc: &mut TestAlloc, count: usize) -> Vec<usize> {
    (0..count).map(|_| cache.allocate(alloc).unwrap()).collect()
}

#[test]
fn uninit_is_inert() {
    let mut alloc = TestAlloc::new();
    let mut cache = KmemCache::uninit();
    assert!(!cache.is_initialized());
    assert_eq!(cache.nr_slabs(), 0);

    assert!(matches!(cache.allocate(&mut alloc), Err(Error::Uninitialized)));
    assert!(matches!(
        cache.free(&mut alloc, 1),
        Err(Error::Uninitialized)
    ));
    assert!(matches!(cache.shrink(&mut alloc), Err(Error::Uninitialized)));
    assert!(matches!(cache.validate(&alloc), Err(Error::Uninitialized)));
    assert!(matches!(
        cache.destroy(&mut alloc),
        Err(Error::Uninitialized)
    ));
}

#[test]
fn init_validates_parameters_and_runs_once() {
    let alloc = TestAlloc::new();
    let mut cache = KmemCache::uninit();

    assert!(matches!(
        cache.init(&alloc, "tiny", 4, 8),
        Err(Error::InvalidObjectSize)
    ));
    assert!(matches!(
        cache.init(&alloc, "bad align", 32, 3),
        Err(Error::InvalidAlign)
    ));
    assert!(matches!(
        cache.init(&alloc, "too large", 1 << 20, 8),
        Err(Error::ObjectTooLarge)
    ));
    assert!(!cache.is_initialized());

    cache.init(&alloc, "objects", 24, 8).unwrap();
    assert!(cache.is_initialized());
    assert_eq!(cache.name(), "objects");
    assert_eq!(cache.layout().object_size(), 24);
    assert_eq!(cache.layout().objects(), (PAGE - 56) / 24);
    assert!(matches!(
        cache.init(&alloc, "again", 24, 8),
        Err(Error::AlreadyInitialized)
    ));
}

#[test]
fn objects_fill_a_slab_before_a_new_one_is_grown() {
    let mut alloc = TestAlloc::new();
    let mut cache = cache_with(&alloc, 24, 8);
    let per_slab = cache.layout().objects();

    let objects = alloc_many(&mut cache, &mut alloc, per_slab);
    assert_eq!(cache.nr_slabs(), 1);
    assert_eq!(cache.nr_objects(), per_slab);
    assert_eq!(cache.nr_free_objects(), 0);

    let first_page = alloc.page_of(objects[0]);
    for object in &objects {
        assert_eq!(*object % 8, 0);
        assert_eq!(alloc.page_of(*object), first_page);
    }
    let mut addresses: Vec<usize> = objects.clone();
    addresses.sort_unstable();
    addresses.dedup();
    assert_eq!(addresses.len(), objects.len());

    // One more object spills into a second slab.
    let extra = cache.allocate(&mut alloc).unwrap();
    assert_eq!(cache.nr_slabs(), 2);
    assert_eq!(cache.nr_objects(), 2 * per_slab);
    assert_eq!(alloc.page_of(extra), first_page + 1);
    cache.validate(&alloc).unwrap();

    for object in objects {
        cache.free(&mut alloc, object).unwrap();
    }
    cache.free(&mut alloc, extra).unwrap();
    assert_eq!(cache.nr_free_objects(), 2 * per_slab);
    cache.validate(&alloc).unwrap();
}

#[test]
fn cached_fast_path_drains_and_refills() {
    let mut alloc = TestAlloc::new();
    let mut cache = cache_with(&alloc, 64, 8);

    // Grow the first slab through `alloc`, then drain it through the
    // fast path alone.
    let first = cache.allocate(&mut alloc).unwrap();
    let mut drained = 1;
    while cache.try_alloc_cached(&mut alloc).is_some() {
        drained += 1;
    }
    assert_eq!(drained, cache.layout().objects());
    assert_eq!(cache.nr_free_objects(), 0);

    // The full path grows a second slab.
    let second = cache.allocate(&mut alloc).unwrap();
    assert_eq!(cache.nr_slabs(), 2);
    assert_ne!(alloc.page_of(first), alloc.page_of(second));
    cache.validate(&alloc).unwrap();
}

#[test]
fn cache_free_rejects_bad_pointers() {
    let mut alloc = TestAlloc::new();
    let mut cache = cache_with(&alloc, 24, 8);
    let object = cache.allocate(&mut alloc).unwrap();

    // Misaligned pointer inside the object area.
    let misaligned = object + 1;
    assert!(matches!(
        cache.free(&mut alloc, misaligned),
        Err(Error::InvalidPointer)
    ));

    // Pointer into the header area of a valid slab.
    let header_slot = alloc.ptr_at(alloc.page_of(object)) + 8;
    assert!(matches!(
        cache.free(&mut alloc, header_slot),
        Err(Error::InvalidPointer)
    ));

    // Pointer into memory that is not a slab: zeroed memory fails the
    // magic check.
    let stray = alloc.ptr_at(32);
    assert!(matches!(
        cache.free(&mut alloc, stray),
        Err(Error::InvalidPointer)
    ));

    // A pointer of another cache with an identical layout.
    let mut other = cache_with(&alloc, 24, 8);
    let other_object = other.allocate(&mut alloc).unwrap();
    assert!(matches!(
        cache.free(&mut alloc, other_object),
        Err(Error::CrossCacheFree)
    ));
    other.free(&mut alloc, other_object).unwrap();

    // Immediate double free.
    cache.free(&mut alloc, object).unwrap();
    assert!(matches!(
        cache.free(&mut alloc, object),
        Err(Error::DoubleFree)
    ));
}

#[test]
fn partial_slabs_are_reused() {
    let mut alloc = TestAlloc::new();
    let mut cache = cache_with(&alloc, 24, 8);
    let per_slab = cache.layout().objects();

    // Fill the first slab and grow a second one.
    let first_objects = alloc_many(&mut cache, &mut alloc, per_slab);
    let page_a = alloc.page_of(first_objects[0]);
    let second = cache.allocate(&mut alloc).unwrap();
    assert_eq!(alloc.page_of(second), page_a + 1);
    assert_eq!(cache.nr_slabs(), 2);

    // Free one object of the forgotten, full first slab: it becomes
    // partial and is linked into the partial list.
    cache.free(&mut alloc, first_objects[0]).unwrap();

    // Exhaust the second slab; the refill must reuse slab A.
    for _ in 1..per_slab {
        cache.allocate(&mut alloc).unwrap();
    }
    let reused = cache.allocate(&mut alloc).unwrap();
    assert_eq!(alloc.page_of(reused), page_a);
    assert_eq!(cache.nr_slabs(), 2);
    cache.validate(&alloc).unwrap();
}

#[test]
fn empty_slabs_are_released_to_the_page_allocator() {
    let mut alloc = TestAlloc::new();
    let mut cache = cache_with(&alloc, 24, 8);
    let per_slab = cache.layout().objects();

    let objects = alloc_many(&mut cache, &mut alloc, 2 * per_slab);
    assert_eq!(cache.nr_slabs(), 2);
    assert_eq!(alloc.allocated_pages(), 2);

    for object in objects {
        cache.free(&mut alloc, object).unwrap();
    }
    // Both slabs are empty: the active one is kept, the other is kept
    // on the partial list within `min_partial`.
    assert_eq!(cache.nr_slabs(), 2);
    assert_eq!(alloc.allocated_pages(), 2);
    assert_eq!(cache.nr_free_objects(), 2 * per_slab);
    cache.validate(&alloc).unwrap();

    // Shrinking releases every empty slab.
    cache.shrink(&mut alloc).unwrap();
    assert_eq!(cache.nr_slabs(), 0);
    assert_eq!(alloc.allocated_pages(), 0);
    cache.validate(&alloc).unwrap();
}

#[test]
fn min_partial_bounds_cached_empty_slabs() {
    let mut alloc = TestAlloc::new();
    let mut cache = cache_with(&alloc, 24, 8);
    cache.set_min_partial(0);
    let per_slab = cache.layout().objects();

    let objects = alloc_many(&mut cache, &mut alloc, 2 * per_slab);
    for object in objects {
        cache.free(&mut alloc, object).unwrap();
    }

    // With `min_partial` zero the emptied partial slab goes back to
    // the page allocator; only the active slab remains.
    assert_eq!(cache.nr_slabs(), 1);
    assert_eq!(alloc.allocated_pages(), 1);
    cache.shrink(&mut alloc).unwrap();
    assert_eq!(cache.nr_slabs(), 0);
    assert_eq!(alloc.allocated_pages(), 0);
}

#[test]
fn single_object_slabs_are_released_when_empty() {
    let mut alloc = TestAlloc::with_max_order(0);
    let mut cache = cache_with(&alloc, 2048, 8);
    assert_eq!(cache.layout().objects(), 1);

    // Fill the first single-object slab, then grow a second one.
    let first = cache.allocate(&mut alloc).unwrap();
    let second = cache.allocate(&mut alloc).unwrap();
    assert_eq!(cache.nr_slabs(), 2);
    assert_ne!(alloc.page_of(first), alloc.page_of(second));

    // The first slab was full, is now empty and linked nowhere: it is
    // released immediately, together with the object just freed.
    cache.free(&mut alloc, first).unwrap();
    assert_eq!(cache.nr_slabs(), 1);
    assert_eq!(alloc.allocated_pages(), 1);
    assert_eq!(cache.nr_objects(), 1);
    assert_eq!(cache.nr_free_objects(), 0);
    cache.validate(&alloc).unwrap();
}

#[test]
fn alloc_zeroed_clears_the_object() {
    let mut alloc = TestAlloc::new();
    let mut cache = cache_with(&alloc, 24, 8);

    let first = cache.allocate(&mut alloc).unwrap();
    for offset in 0..24 {
        alloc.store(first + offset, 0xaa);
    }

    let zeroed = cache.alloc_zeroed(&mut alloc).unwrap();
    assert!((0..24).all(|offset| alloc.load(zeroed + offset) == 0));

    cache.free(&mut alloc, first).unwrap();
    cache.free(&mut alloc, zeroed).unwrap();
    cache.validate(&alloc).unwrap();
}

#[test]
fn destroy_returns_every_slab() {
    let mut alloc = TestAlloc::new();
    let mut cache = cache_with(&alloc, 512, 8);

    let count = cache.layout().objects() * 3;
    let objects = alloc_many(&mut cache, &mut alloc, count);
    assert_eq!(cache.nr_slabs(), 3);
    for object in objects {
        cache.free(&mut alloc, object).unwrap();
    }

    cache.destroy(&mut alloc).unwrap();
    assert_eq!(alloc.allocated_pages(), 0);
}
#[test]
fn validate_detects_corruption() {
    let mut alloc = TestAlloc::new();
    let mut cache = cache_with(&alloc, 24, 8);
    let object = cache.allocate(&mut alloc).unwrap();
    let slab = alloc.ptr_at(alloc.page_of(object));
    let header = load_header(&alloc, slab);

    let mut broken = header;
    broken.magic = 0;
    store_header(&mut alloc, slab, broken);
    assert_eq!(cache.validate(&alloc).unwrap_err(), Error::CorruptSlab);

    broken = header;
    broken.inuse = header.objects + 1;
    store_header(&mut alloc, slab, broken);
    assert_eq!(cache.validate(&alloc).unwrap_err(), Error::CountMismatch);

    // Create a cycle in the free list.
    broken = header;
    broken.inuse = 0;
    let first = slab + cache.layout().first_offset();
    set_freepointer(&mut alloc, first, Some(first));
    broken.freelist = Some(first);
    store_header(&mut alloc, slab, broken);
    assert_eq!(cache.validate(&alloc).unwrap_err(), Error::CorruptSlab);
}

#[test]
fn object_alignment_is_honored() {
    let mut alloc = TestAlloc::new();
    for align in [8usize, 16, 32, 64, 128] {
        let mut cache = cache_with(&alloc, 80, align);
        let count = cache.layout().objects();
        let objects = alloc_many(&mut cache, &mut alloc, count);
        for object in &objects {
            assert_eq!(
                *object % align,
                0,
                "alignment {align} violated"
            );
        }
        for object in objects {
            cache.free(&mut alloc, object).unwrap();
        }
        cache.shrink(&mut alloc).unwrap();
        assert_eq!(cache.nr_slabs(), 0);
    }
    assert_eq!(alloc.allocated_pages(), 0);
}

#[test]
fn random_operations_keep_invariants() {
    let mut alloc = TestAlloc::new();
    let mut cache = cache_with(&alloc, 48, 8);

    let mut state = 0x1234_5678_9abc_def0u64;
    let mut rand = move || {
        state ^= state << 13;
        state ^= state >> 7;
        state ^= state << 17;
        state
    };

    let mut live: Vec<usize> = Vec::new();
    for round in 0..4000 {
        if rand() % 3 != 0 && !live.is_empty() {
            let index = (rand() as usize) % live.len();
            let object = live.swap_remove(index);
            cache.free(&mut alloc, object).unwrap();
        } else if let Ok(object) = cache.allocate(&mut alloc) {
            live.push(object);
        }
        if round % 100 == 0 {
            cache.validate(&alloc).unwrap();
        }
    }

    for object in live {
        cache.free(&mut alloc, object).unwrap();
    }
    cache.validate(&alloc).unwrap();
    cache.shrink(&mut alloc).unwrap();
    assert_eq!(cache.nr_slabs(), 0);
    assert_eq!(alloc.allocated_pages(), 0);
    cache.validate(&alloc).unwrap();
}
