//! Boot allocator, buddy allocator and slab together.

use std::sync::LazyLock;
use std::sync::Mutex;

use the_buddy_system::Page;
use the_memblock::flags::MemblockFlags;
use the_memblock::memblock::Memblock;
use the_slab::Arena;
use the_slab::BuddyPages;
use the_slab::DirectMap;
use the_slab::Error;
use the_slab::KernelHeap;
use the_slab::ObjectCache;
use the_slab::PhysMap;
use the_slab::Zone;

const PAGE: usize = 0x1000;
const PAGES: usize = 64;
// `NR_PAGE_ORDERS` free areas: valid orders are 0..=3 and the largest block
// is 8 pages.
const NR_PAGE_ORDERS: usize = 4;
// A block-aligned address for the memory.
const BASE: usize = 0x100_0000;

fn write_bytes<M: PhysMap>(map: &mut M, ptr: usize, byte: u8, count: usize) {
    for offset in 0..count {
        map.store(ptr + offset, byte);
    }
}

fn read_bytes<M: PhysMap>(map: &M, ptr: usize, count: usize) -> Vec<u8> {
    (0..count).map(|offset| map.load(ptr + offset)).collect()
}

#[test]
fn slab_over_buddy_end_to_end() {
    let base = BASE;
    let memory = vec![0u8; PAGES * PAGE];

    let mut descriptors = vec![Page::EMPTY; PAGES];
    let mut buddy = Arena::<NR_PAGE_ORDERS>::new(base, PAGE, &mut descriptors).unwrap();
    buddy.free_range(base, base + PAGES * PAGE).unwrap();
    assert_eq!(buddy.nr_free(), PAGES);

    // The identity mapping covers the backing memory.
    let map = DirectMap::new(base, base, memory);
    let mut pages = BuddyPages::new(&mut buddy, map);

    let mut cache = ObjectCache::uninit();
    cache.init(&pages, "widgets", 24, 8).unwrap();

    // Allocate a large run and check the objects are distinct, aligned and
    // writable.
    let mut live = Vec::new();
    for index in 0..1000usize {
        let object = cache.allocate(&mut pages).unwrap();
        assert_eq!(object % 8, 0);
        write_bytes(&mut pages, object, index as u8, 24);
        live.push(object);
    }
    let mut addresses: Vec<usize> = live.clone();
    addresses.sort_unstable();
    addresses.dedup();
    assert_eq!(addresses.len(), live.len());
    cache.validate(&pages).unwrap();

    // Free half, then the rest.
    for object in live.drain(..500) {
        cache.free(&mut pages, object).unwrap();
    }
    cache.validate(&pages).unwrap();
    for object in live {
        cache.free(&mut pages, object).unwrap();
    }
    assert_eq!(cache.nr_free_objects(), cache.nr_objects());
    cache.validate(&pages).unwrap();

    cache.shrink(&mut pages).unwrap();
    assert_eq!(cache.nr_slabs(), 0);
    cache.destroy(&mut pages).unwrap();
}

#[test]
fn boot_handoff_from_memblock_to_slab() {
    let base = BASE;
    let memory = vec![0u8; PAGES * PAGE];

    // The boot story: memblock knows the memory, the kernel image is
    // reserved, and the rest is handed to the buddy allocator.
    let mut mb = Memblock::<usize, 16>::new();
    mb.add(base, PAGES * PAGE, MemblockFlags::NONE).unwrap();
    mb.reserve_kern(base, 2 * PAGE).unwrap();

    let mut descriptors = vec![Page::EMPTY; PAGES];
    let mut buddy = Arena::<NR_PAGE_ORDERS>::new(base, PAGE, &mut descriptors).unwrap();
    let ranges: Vec<(usize, usize)> = mb.free_mem_ranges(MemblockFlags::NONE).collect();
    buddy.free_ranges(&ranges).unwrap();

    {
        // The identity mapping covers the backing memory.
        let map = DirectMap::new(base, base, memory);
        let mut pages = BuddyPages::new(&mut buddy, map);

        let mut cache = ObjectCache::uninit();
        cache.init(&pages, "handoff", 128, 8).unwrap();

        // Allocate until the arena is exhausted; the reserved kernel range
        // must never be handed out.
        let mut live = Vec::new();
        while let Ok(object) = cache.allocate(&mut pages) {
            let address = object;
            assert!(!(base..base + 2 * PAGE).contains(&address));
            live.push(object);
        }
        assert!(live.len() > 100);
        cache.validate(&pages).unwrap();

        for object in live {
            cache.free(&mut pages, object).unwrap();
        }
        cache.shrink(&mut pages).unwrap();
        assert_eq!(cache.nr_slabs(), 0);
        cache.destroy(&mut pages).unwrap();
    }

    // Every page that was not reserved is back in the buddy allocator.
    assert_eq!(buddy.nr_free(), PAGES - 2);
}

/// A cache defined in a static, as a kernel would.
static CACHE: LazyLock<Mutex<ObjectCache>> = LazyLock::new(|| Mutex::new(ObjectCache::uninit()));

#[test]
fn cache_can_be_defined_in_a_static() {
    let guard = CACHE.lock().unwrap();
    assert!(!guard.is_initialized());
    assert_eq!(guard.nr_slabs(), 0);
}

#[test]
fn heap_across_classes_roundtrip() {
    const MEMORY_PAGES: usize = 128;
    let base = BASE;
    let memory = vec![0u8; MEMORY_PAGES * PAGE];
    let mut descriptors = vec![Page::EMPTY; MEMORY_PAGES];
    let mut buddy = Arena::<NR_PAGE_ORDERS>::new(base, PAGE, &mut descriptors).unwrap();
    buddy.free_range(base, base + MEMORY_PAGES * PAGE).unwrap();

    {
        // The identity mapping covers the backing memory.
        let map = DirectMap::new(base, base, memory);
        let mut pages = BuddyPages::new(&mut buddy, map);

        let mut heap = KernelHeap::uninit();
        heap.init(&pages).unwrap();

        // Requests up to the largest single-page class come from slabs.
        let mut live = Vec::new();
        for &size in &[1usize, 8, 9, 64, 96, 100, 192, 256, 1024, 2048] {
            for round in 0..4u8 {
                let object = heap.allocate(&mut pages, size).unwrap();
                let usable = heap.usable_size(&pages, object).unwrap();
                assert!(usable >= size);
                write_bytes(&mut pages, object, round, usable);
                live.push(object);
            }
        }

        let mut addresses: Vec<usize> = live.clone();
        addresses.sort_unstable();
        addresses.dedup();
        assert_eq!(addresses.len(), live.len());
        heap.validate(&pages).unwrap();

        for object in live {
            heap.free(&mut pages, object).unwrap();
        }
        heap.validate(&pages).unwrap();

        heap.shrink(&mut pages).unwrap();
        for index in 0..KernelHeap::classes().len() {
            if let Some(cache) = heap.cache(index) {
                assert_eq!(cache.nr_slabs(), 0);
            }
        }
        heap.destroy(&mut pages).unwrap();
    }

    // Every page went back to the buddy allocator.
    assert_eq!(buddy.nr_free(), MEMORY_PAGES);
}

#[test]
fn heap_large_uses_the_page_allocator() {
    const MEMORY_PAGES: usize = 64;
    let base = BASE;
    let memory = vec![0u8; MEMORY_PAGES * PAGE];
    let mut descriptors = vec![Page::EMPTY; MEMORY_PAGES];
    let mut buddy = Arena::<NR_PAGE_ORDERS>::new(base, PAGE, &mut descriptors).unwrap();
    buddy.free_range(base, base + MEMORY_PAGES * PAGE).unwrap();

    {
        // The identity mapping covers the backing memory.
        let map = DirectMap::new(base, base, memory);
        let mut pages = BuddyPages::new(&mut buddy, map);

        let mut heap = KernelHeap::uninit();
        heap.init(&pages).unwrap();

        for size in [4096usize, 5000, 16384] {
            let object = heap.allocate(&mut pages, size).unwrap();
            let usable = heap.usable_size(&pages, object).unwrap();
            assert!(usable >= size);
            assert!(object > base);
            assert!((object) < base + MEMORY_PAGES * PAGE);
            write_bytes(&mut pages, object, 0xab, usable);
            heap.free(&mut pages, object).unwrap();
        }

        heap.validate(&pages).unwrap();
        heap.destroy(&mut pages).unwrap();
    }

    assert_eq!(buddy.nr_free(), MEMORY_PAGES);
}

#[test]
fn heap_alloc_zeroed_and_realloc() {
    const MEMORY_PAGES: usize = 64;
    let base = BASE;
    let memory = vec![0u8; MEMORY_PAGES * PAGE];
    let mut descriptors = vec![Page::EMPTY; MEMORY_PAGES];
    let mut buddy = Arena::<NR_PAGE_ORDERS>::new(base, PAGE, &mut descriptors).unwrap();
    buddy.free_range(base, base + MEMORY_PAGES * PAGE).unwrap();

    {
        // The identity mapping covers the backing memory.
        let map = DirectMap::new(base, base, memory);
        let mut pages = BuddyPages::new(&mut buddy, map);

        let mut heap = KernelHeap::uninit();
        heap.init(&pages).unwrap();

        // Zeroing covers the whole usable allocation.
        let zeroed = heap.alloc_zeroed(&mut pages, 200).unwrap();
        let usable = heap.usable_size(&pages, zeroed).unwrap();
        let bytes = read_bytes(&pages, zeroed, usable);
        assert!(bytes.iter().all(|byte| *byte == 0));
        heap.free(&mut pages, zeroed).unwrap();

        // Growing copies the old bytes; shrinking keeps the pointer.
        let object = heap.allocate(&mut pages, 100).unwrap();
        write_bytes(&mut pages, object, 0x5a, 100);
        let grown = heap.realloc(&mut pages, object, 3000).unwrap();
        assert!(heap.usable_size(&pages, grown).unwrap() >= 3000);
        let copied = read_bytes(&pages, grown, 100);
        assert!(copied.iter().all(|byte| *byte == 0x5a));
        let same = heap.realloc(&mut pages, grown, 64).unwrap();
        assert_eq!(same, grown);
        heap.free(&mut pages, same).unwrap();

        heap.validate(&pages).unwrap();
        heap.destroy(&mut pages).unwrap();
    }

    assert_eq!(buddy.nr_free(), MEMORY_PAGES);
}

#[test]
fn heap_allocations_are_naturally_aligned() {
    const MEMORY_PAGES: usize = 64;
    let base = BASE;
    let memory = vec![0u8; MEMORY_PAGES * PAGE];
    let mut descriptors = vec![Page::EMPTY; MEMORY_PAGES];
    let mut buddy = Arena::<NR_PAGE_ORDERS>::new(base, PAGE, &mut descriptors).unwrap();
    buddy.free_range(base, base + MEMORY_PAGES * PAGE).unwrap();

    {
        // The identity mapping covers the backing memory.
        let map = DirectMap::new(base, base, memory);
        let mut pages = BuddyPages::new(&mut buddy, map);

        let mut heap = KernelHeap::uninit();
        heap.init(&pages).unwrap();

        // Power-of-two classes return their own alignment; the 96 and 192
        // intermediates at least their lowbit.
        for (size, align) in [
            (8usize, 8usize),
            (16, 16),
            (64, 64),
            (96, 32),
            (192, 64),
            (256, 256),
            (2048, 2048),
        ] {
            let object = heap.allocate(&mut pages, size).unwrap();
            assert_eq!(object % align, 0, "size {size}");
            heap.free(&mut pages, object).unwrap();
        }

        // A request that rounds up to a larger class gets its alignment.
        let object = heap.allocate(&mut pages, 100).unwrap(); // class 128
        assert_eq!(object % 128, 0);
        heap.free(&mut pages, object).unwrap();

        heap.shrink(&mut pages).unwrap();
        heap.destroy(&mut pages).unwrap();
    }

    assert_eq!(buddy.nr_free(), MEMORY_PAGES);
}

#[test]
fn alloc_layout_honors_size_and_alignment() {
    const MEMORY_PAGES: usize = 128;
    let base = BASE;
    let memory = vec![0u8; MEMORY_PAGES * PAGE];
    let mut descriptors = vec![Page::EMPTY; MEMORY_PAGES];
    let mut buddy = Arena::<NR_PAGE_ORDERS>::new(base, PAGE, &mut descriptors).unwrap();
    buddy.free_range(base, base + MEMORY_PAGES * PAGE).unwrap();

    {
        // The identity mapping covers the backing memory.
        let map = DirectMap::new(base, base, memory);
        let mut pages = BuddyPages::new(&mut buddy, map);

        let mut heap = KernelHeap::uninit();
        heap.init(&pages).unwrap();

        // (size, align, expected class): the smallest class covering both.
        for (size, align, class) in [
            (1usize, 8usize, 8usize),
            (64, 64, 64),
            (100, 32, 128),
            (4, 64, 64),
            (200, 128, 256),
        ] {
            let object = heap.alloc_layout(&mut pages, size, align).unwrap();
            assert_eq!(object % align, 0, "{size}/{align}");
            assert_eq!(
                heap.usable_size(&pages, object).unwrap(),
                class,
                "{size}/{align}"
            );
            heap.free(&mut pages, object).unwrap();
        }

        // Requests larger than every class use the large path when the
        // alignment fits the tag's 8-byte boundary.
        let object = heap.alloc_layout(&mut pages, 10_000, 8).unwrap();
        assert!(heap.usable_size(&pages, object).unwrap() >= 10_000);
        heap.free(&mut pages, object).unwrap();

        // Over-aligned requests that no class can serve are rejected:
        // class 4096 would need a multi-page slab on 4 KiB pages.
        assert!(matches!(
            heap.alloc_layout(&mut pages, 64, 4096),
            Err(Error::InvalidAlign)
        ));

        // Zero-sized layouts are rejected like `alloc(0)`.
        assert!(matches!(
            heap.alloc_layout(&mut pages, 0, 8),
            Err(Error::InvalidObjectSize)
        ));

        heap.validate(&pages).unwrap();
        heap.destroy(&mut pages).unwrap();
    }

    assert_eq!(buddy.nr_free(), MEMORY_PAGES);
}

#[test]
fn alloc_zeroed_layout_and_realloc_layout() {
    const MEMORY_PAGES: usize = 64;
    let base = BASE;
    let memory = vec![0u8; MEMORY_PAGES * PAGE];
    let mut descriptors = vec![Page::EMPTY; MEMORY_PAGES];
    let mut buddy = Arena::<NR_PAGE_ORDERS>::new(base, PAGE, &mut descriptors).unwrap();
    buddy.free_range(base, base + MEMORY_PAGES * PAGE).unwrap();

    {
        // The identity mapping covers the backing memory.
        let map = DirectMap::new(base, base, memory);
        let mut pages = BuddyPages::new(&mut buddy, map);

        let mut heap = KernelHeap::uninit();
        heap.init(&pages).unwrap();

        // Zeroing covers the usable allocation.
        let object = heap.alloc_zeroed_layout(&mut pages, 100, 32).unwrap();
        let usable = heap.usable_size(&pages, object).unwrap();
        let bytes = read_bytes(&pages, object, usable);
        assert!(bytes.iter().all(|byte| *byte == 0));
        heap.free(&mut pages, object).unwrap();

        // A stronger alignment is honored, keeping the old contents.
        let small = heap
            .alloc_layout(&mut pages, 4, 8)
            .unwrap();
        write_bytes(&mut pages, small, 0x5a, 4);
        let moved = heap
            .realloc_layout(&mut pages, small, 4, 64)
            .unwrap();
        assert_eq!(moved % 64, 0);
        let copied = read_bytes(&pages, moved, 4);
        assert!(copied.iter().all(|byte| *byte == 0x5a));

        // A satisfied alignment keeps the pointer.
        let same = heap
            .realloc_layout(&mut pages, moved, 2, 64)
            .unwrap();
        assert_eq!(same, moved);
        heap.free(&mut pages, same).unwrap();

        heap.validate(&pages).unwrap();
        heap.destroy(&mut pages).unwrap();
    }

    assert_eq!(buddy.nr_free(), MEMORY_PAGES);
}

#[test]
fn integration_free_rejects_bad_pointers() {
    const MEMORY_PAGES: usize = 32;
    let base = BASE;
    let memory = vec![0u8; MEMORY_PAGES * PAGE];
    let mut descriptors = vec![Page::EMPTY; MEMORY_PAGES];
    let mut buddy = Arena::<NR_PAGE_ORDERS>::new(base, PAGE, &mut descriptors).unwrap();
    buddy.free_range(base, base + MEMORY_PAGES * PAGE).unwrap();

    // The identity mapping covers the backing memory.
    let map = DirectMap::new(base, base, memory);
    let mut pages = BuddyPages::new(&mut buddy, map);

    let mut heap = KernelHeap::uninit();
    heap.init(&pages).unwrap();

    let object = heap.allocate(&mut pages, 64).unwrap();

    // An interior pointer is not on the object grid.
    let interior = object + 8;
    assert!(matches!(
        heap.free(&mut pages, interior),
        Err(Error::InvalidPointer)
    ));

    // A pointer into memory that never carried a tag.
    let stray = base + 20 * PAGE;
    assert!(matches!(
        heap.free(&mut pages, stray),
        Err(Error::InvalidPointer)
    ));

    // An object of a cache outside the kernel heap.
    let mut foreign = ObjectCache::uninit();
    foreign.init(&pages, "foreign", 64, 8).unwrap();
    let foreign_object = foreign.allocate(&mut pages).unwrap();
    assert!(matches!(
        heap.free(&mut pages, foreign_object),
        Err(Error::CrossCacheFree)
    ));
    foreign.free(&mut pages, foreign_object).unwrap();
    foreign.destroy(&mut pages).unwrap();

    heap.free(&mut pages, object).unwrap();
    heap.shrink(&mut pages).unwrap();
    heap.destroy(&mut pages).unwrap();
}

/// The kernel heap defined in a static, as a kernel would.
static HEAP: LazyLock<Mutex<KernelHeap>> = LazyLock::new(|| Mutex::new(KernelHeap::uninit()));

#[test]
fn heap_can_be_defined_in_a_static() {
    let guard = HEAP.lock().unwrap();
    assert!(!guard.is_initialized());
    assert!(guard.cache(0).is_none());
}

#[test]
fn static_zone_object_cache_and_heap_share_the_page_allocator() {
    // Everything a kernel keeps for the whole system lives in statics: the
    // zone (page allocator), an object cache and the kernel heap.
    static ZONE: LazyLock<Mutex<Zone<NR_PAGE_ORDERS>>> = LazyLock::new(|| Mutex::new(Zone::uninit()));
    static CACHE: LazyLock<Mutex<ObjectCache>> = LazyLock::new(|| Mutex::new(ObjectCache::uninit()));
    static STATIC_HEAP: LazyLock<Mutex<KernelHeap>> = LazyLock::new(|| Mutex::new(KernelHeap::uninit()));

    // The descriptors must outlive the static zone, which owns the backing
    // memory.
    let descriptors: &'static mut [Page] =
        Box::leak(vec![Page::EMPTY; PAGES].into_boxed_slice());
    let base = BASE;
    let memory = vec![0u8; PAGES * PAGE];

    {
        let mut zone = ZONE.lock().unwrap();
        assert!(!zone.is_initialized());
        zone.init(descriptors, base, PAGE, base, memory).unwrap();
        zone.buddy_mut()
            .free_range(base, base + PAGES * PAGE)
            .unwrap();
        assert_eq!(zone.buddy().nr_free(), PAGES);
    }

    // The caches borrow the zone for the duration of each call only;
    // `&*guard` hands out the `Zone` behind the mutex. Lock order follows
    // the kernel: cache first, then zone.
    {
        let mut cache = CACHE.lock().unwrap();
        let mut heap = STATIC_HEAP.lock().unwrap();
        let zone = ZONE.lock().unwrap();
        cache.init(&*zone, "static", 24, 8).unwrap();
        heap.init(&*zone).unwrap();
    }

    let object = CACHE
        .lock()
        .unwrap()
        .allocate(&mut *ZONE.lock().unwrap())
        .unwrap();
    assert_eq!(object % 8, 0);

    let block = STATIC_HEAP
        .lock()
        .unwrap()
        .allocate(&mut *ZONE.lock().unwrap(), 200)
        .unwrap();
    assert!(
        STATIC_HEAP
            .lock()
            .unwrap()
            .usable_size(&*ZONE.lock().unwrap(), block)
            .unwrap()
            >= 200
    );

    CACHE
        .lock()
        .unwrap()
        .free(&mut *ZONE.lock().unwrap(), object)
        .unwrap();
    STATIC_HEAP
        .lock()
        .unwrap()
        .free(&mut *ZONE.lock().unwrap(), block)
        .unwrap();

    // Every empty slab goes back to the zone.
    let mut cache = CACHE.lock().unwrap();
    let mut heap = STATIC_HEAP.lock().unwrap();
    let mut zone = ZONE.lock().unwrap();
    cache.shrink(&mut *zone).unwrap();
    assert_eq!(cache.nr_slabs(), 0);
    heap.shrink(&mut *zone).unwrap();
    assert_eq!(zone.buddy().nr_free(), PAGES);
}
