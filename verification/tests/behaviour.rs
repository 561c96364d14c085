//! What the library does on chosen values.

use the_buddy_system::Page;
use the_slab::header::header_size;
use the_slab::header::load_header;
use the_slab::header::load_magic;
use the_slab::header::store_header;
use the_slab::header::SLAB_MAGIC;
use the_slab::memory::copy;
use the_slab::memory::fill;
use the_slab::memory::load_number;
use the_slab::memory::load_word;
use the_slab::memory::store_number;
use the_slab::memory::store_word;
use the_slab::memory::word_size;
use the_slab::pages::Book;
use the_slab::pages::Bytes;
use the_slab::pages::Mapping;
use the_slab::Arena;
use the_slab::DirectMap;
use the_slab::Error;
use the_slab::KernelHeap;
use the_slab::KmemCache;
use the_slab::ObjectCache;
use the_slab::PageAlloc;
use the_slab::PhysMap;
use the_slab::SlabLayout;
use the_slab::Zone;

const PAGE: usize = 4096;
const BASE: usize = 0x100_0000;
const ORDERS: usize = 4;

/// Where the thirteen caches of a heap are said to be.
const HERES: [usize; 13] = [
    0x1000, 0x1100, 0x1200, 0x1300, 0x1400, 0x1500, 0x1600, 0x1700, 0x1800, 0x1900, 0x1a00, 0x1b00, 0x1c00,
];

fn zone_of(pages: usize) -> Zone<ORDERS> {
    let descriptors: &'static mut [Page] = Box::leak(vec![Page::EMPTY; pages].into_boxed_slice());
    let mut zone =
        Zone::<ORDERS>::from_raw_parts(descriptors, BASE, PAGE, BASE, vec![0; pages * PAGE]).unwrap();
    zone.buddy_mut().free_range(BASE, BASE + pages * PAGE).unwrap();
    zone
}

fn cache_of(zone: &Zone<ORDERS>, size: usize, align: usize) -> ObjectCache {
    let mut cache = ObjectCache::uninit();
    cache.init(zone, "objects", size, align).unwrap();
    cache
}

fn heap_of(zone: &Zone<ORDERS>) -> KernelHeap {
    let mut heap = KernelHeap::uninit();
    heap.init(zone).unwrap();
    heap
}

fn paint<M: PhysMap>(map: &mut M, ptr: usize, count: usize, byte: u8) {
    for offset in 0..count {
        map.store(ptr + offset, byte);
    }
}

fn painted<M: PhysMap>(map: &M, ptr: usize, count: usize, byte: u8) -> bool {
    (0..count).all(|offset| map.load(ptr + offset) == byte)
}

#[test]
fn numbers_are_little_endian() {
    let mut map = DirectMap::new(0, 0x1000, vec![0; 64]);
    store_number(&mut map, 0x1008, 4, 0x0102_0304);
    assert_eq!(map.load(0x1008), 4);
    assert_eq!(map.load(0x1009), 3);
    assert_eq!(map.load(0x100a), 2);
    assert_eq!(map.load(0x100b), 1);
    assert_eq!(map.load(0x100c), 0);
    assert_eq!(load_number(&map, 0x1008, 4), 0x0102_0304);
    assert_eq!(load_number(&map, 0x1009, 2), 0x0203);
}

#[test]
fn words_keep_their_value() {
    let mut map = DirectMap::new(0, 0x1000, vec![0; 64]);
    assert_eq!(word_size(), std::mem::size_of::<usize>());
    store_word(&mut map, 0x1010, usize::MAX);
    store_word(&mut map, 0x1010 + word_size(), 7);
    assert_eq!(load_word(&map, 0x1010), usize::MAX);
    assert_eq!(load_word(&map, 0x1010 + word_size()), 7);
    assert_eq!(map.load(0x100f), 0);
}

#[test]
fn fill_and_copy_stay_in_their_range() {
    let mut map = DirectMap::new(0, 0x1000, vec![0; 64]);
    fill(&mut map, 0x1004, 4, 9);
    assert!(painted(&map, 0x1004, 4, 9));
    assert_eq!(map.load(0x1003), 0);
    assert_eq!(map.load(0x1008), 0);
    copy(&mut map, 0x1006, 0x1020, 4);
    assert_eq!(map.load(0x1020), 9);
    assert_eq!(map.load(0x1021), 9);
    assert_eq!(map.load(0x1022), 0);
    assert_eq!(map.load(0x1024), 0);
}

#[test]
fn headers_keep_their_fields() {
    let mut zone = zone_of(8);
    let mut cache = cache_of(&zone, 24, 8);
    let object = cache.allocate(&mut zone).unwrap();
    let slab = object / PAGE * PAGE;
    let header = load_header(&zone, slab);
    assert_eq!(header.magic, SLAB_MAGIC);
    assert_eq!(header.order, 0);
    assert!(!header.on_partial);
    assert_eq!(header.owner, std::ptr::from_ref(&cache) as usize);
    assert_eq!(header.kind, 24);
    assert_eq!(header.inuse, 1);
    assert_eq!(header.objects, cache.layout().objects());
    assert_eq!(header.freelist, Some(object + 24));
    assert_eq!(header.next, None);
    assert_eq!(header.prev, None);
    assert_eq!(object, slab + header_size());
    store_header(&mut zone, slab, header);
    assert_eq!(load_header(&zone, slab), header);
}

#[test]
fn layout_formulas() {
    // The header is rounded up to the alignment, and so is the stride.
    let layout = SlabLayout::new(56, 40, 32, PAGE, 3, 4).unwrap();
    assert_eq!(layout.object_size(), 40);
    assert_eq!(layout.first_offset(), 64);
    assert_eq!(layout.stride(), 64);
    assert_eq!(layout.objects(), 63);
    assert_eq!(layout.slab_bytes(), PAGE);

    // An alignment of a whole page is as much as there can be.
    assert_eq!(
        SlabLayout::new(56, 64, 2 * PAGE, PAGE, 3, 4).unwrap_err(),
        Error::InvalidAlign
    );
    assert_eq!(
        SlabLayout::new(56, 64, PAGE, PAGE, 3, 4).unwrap().first_offset(),
        PAGE
    );

    // An order that a word cannot count is no order.
    assert_eq!(
        SlabLayout::new(56, 64, 8, PAGE, 200, 4).unwrap_err(),
        Error::ObjectTooLarge
    );
    // A size that cannot be rounded up is too large.
    assert_eq!(
        SlabLayout::new(56, usize::MAX, 8, PAGE, 3, 4).unwrap_err(),
        Error::ObjectTooLarge
    );
}

#[test]
fn min_objects_selects_the_order_of_a_cache() {
    let zone = zone_of(8);
    let mut few = ObjectCache::uninit();
    few.init_with_min_objects(&zone, "few", 2048, 8, 1).unwrap();
    assert_eq!(few.layout().order(), 0);
    assert_eq!(few.layout().objects(), 1);
    let mut some = ObjectCache::uninit();
    some.init(&zone, "some", 2048, 8).unwrap();
    assert_eq!(some.layout().order(), 2);
    assert_eq!(some.layout().objects(), 7);
    assert_eq!(some.name(), "some");
}

#[test]
fn arenas_reject_bad_geometry() {
    let mut descriptors = vec![Page::EMPTY; 16];
    // Not a power of two.
    assert!(matches!(
        Arena::<ORDERS>::new(BASE, 3000, &mut descriptors),
        Err(Error::PageAlloc)
    ));
    // Not aligned to the largest block.
    assert!(matches!(
        Arena::<ORDERS>::new(BASE + PAGE, PAGE, &mut descriptors),
        Err(Error::PageAlloc)
    ));
    // Smaller than the largest block.
    assert!(matches!(
        Arena::<ORDERS>::new(BASE, PAGE, &mut descriptors[..7]),
        Err(Error::PageAlloc)
    ));
    // Without pages, and without orders.
    assert!(matches!(
        Arena::<ORDERS>::new(BASE, PAGE, &mut descriptors[..0]),
        Err(Error::PageAlloc)
    ));
    assert!(matches!(
        Arena::<0>::new(BASE, PAGE, &mut descriptors),
        Err(Error::PageAlloc)
    ));
    // Past the end of the address space.
    assert!(matches!(
        Arena::<ORDERS>::new(usize::MAX - 8 * PAGE + 1, PAGE, &mut descriptors),
        Err(Error::PageAlloc)
    ));
    assert!(Arena::<ORDERS>::new(BASE, PAGE, &mut descriptors).is_ok());
}

#[test]
fn arenas_hand_out_aligned_blocks() {
    let mut descriptors = vec![Page::EMPTY; 16];
    let mut arena = Arena::<ORDERS>::new(BASE, PAGE, &mut descriptors).unwrap();
    assert!(arena.is_initialized());
    assert_eq!(arena.page_size(), PAGE);
    assert_eq!(arena.nr_free(), 0);
    assert_eq!(Arena::<ORDERS>::max_order(), 3);
    assert_eq!(arena.alloc_pages(0), Err(Error::OutOfMemory));

    // The partial pages at both ends of a range stay unknown.
    arena.free_range(BASE + 1, BASE + 16 * PAGE - 1).unwrap();
    assert_eq!(arena.nr_free(), 14);
    let block = arena.alloc_pages(2).unwrap();
    assert_eq!(block % (4 * PAGE), 0);
    assert!(block >= BASE + PAGE && block + 4 * PAGE <= BASE + 15 * PAGE);
    assert_eq!(arena.nr_free(), 10);
    assert_eq!(arena.alloc_pages(3), Err(Error::OutOfMemory));
    assert_eq!(arena.alloc_pages(4), Err(Error::PageAlloc));
    assert_eq!(arena.free_pages(block + PAGE, 0), Err(Error::PageAlloc));
    arena.free_pages(block, 2).unwrap();
    assert_eq!(arena.nr_free(), 14);
    assert_eq!(arena.free_pages(block, 2), Err(Error::PageAlloc));
}

#[test]
fn uninitialized_arenas_refuse() {
    let mut arena = Arena::<ORDERS>::uninit();
    assert!(!arena.is_initialized());
    assert_eq!(arena.page_size(), 0);
    assert_eq!(arena.nr_free(), 0);
    assert_eq!(arena.alloc_pages(0), Err(Error::PageAlloc));
    assert_eq!(arena.free_pages(BASE, 0), Err(Error::PageAlloc));
    assert_eq!(arena.free_range(BASE, BASE + PAGE), Err(Error::PageAlloc));
}

#[test]
fn arenas_take_several_ranges() {
    let mut none = Arena::<ORDERS>::uninit();
    assert_eq!(none.free_ranges(&vec![]), Ok(()));
    assert_eq!(
        none.free_ranges(&vec![(BASE, BASE + PAGE)]),
        Err(Error::PageAlloc)
    );

    let mut descriptors = vec![Page::EMPTY; 16];
    let mut arena = Arena::<ORDERS>::new(BASE, PAGE, &mut descriptors).unwrap();
    let ranges = vec![
        (BASE, BASE + 2 * PAGE),
        (BASE + 4 * PAGE + 1, BASE + 6 * PAGE),
        (BASE + 15 * PAGE, BASE + 20 * PAGE),
    ];
    arena.free_ranges(&ranges).unwrap();
    assert_eq!(arena.nr_free(), 4);
    assert_eq!(arena.alloc_pages(1), Ok(BASE));
    assert_eq!(arena.alloc_pages(1), Err(Error::OutOfMemory));
}

#[test]
fn arenas_merge_what_comes_back() {
    let mut descriptors = vec![Page::EMPTY; 8];
    let mut arena = Arena::<ORDERS>::new(BASE, PAGE, &mut descriptors).unwrap();
    arena.free_range(BASE, BASE + 8 * PAGE).unwrap();
    let mut blocks: Vec<usize> = (0..8).map(|_| arena.alloc_pages(0).unwrap()).collect();
    assert_eq!(arena.alloc_pages(0), Err(Error::OutOfMemory));
    blocks.sort_unstable();
    let expected: Vec<usize> = (0..8).map(|page| BASE + page * PAGE).collect();
    assert_eq!(blocks, expected);
    for block in blocks {
        arena.free_pages(block, 0).unwrap();
    }
    assert_eq!(arena.alloc_pages(3), Ok(BASE));
}

#[test]
fn zones_initialize_once() {
    let mut zone = zone_of(16);
    assert!(zone.is_initialized());
    assert_eq!(zone.page_size(), PAGE);
    assert_eq!(zone.max_order(), 3);
    assert_eq!(zone.map().phys_base(), BASE);
    let more: &'static mut [Page] = Box::leak(vec![Page::EMPTY; 16].into_boxed_slice());
    assert_eq!(
        zone.init(more, BASE, PAGE, BASE, vec![0; 16 * PAGE]),
        Err(Error::PageAlloc)
    );
    assert_eq!(zone.buddy().nr_free(), 16);
    let few: &'static mut [Page] = Box::leak(vec![Page::EMPTY; 4].into_boxed_slice());
    assert!(matches!(
        Zone::<ORDERS>::from_raw_parts(few, BASE, PAGE, BASE, vec![0; 4 * PAGE]),
        Err(Error::PageAlloc)
    ));
}

#[test]
fn zones_refuse_what_they_do_not_know() {
    let mut zone = zone_of(16);
    assert_eq!(zone.free_pages(BASE, 0), Err(Error::PageAlloc));
    assert_eq!(zone.alloc_pages(9), Err(Error::PageAlloc));
    let block = zone.alloc_pages(3).unwrap();
    zone.free_pages(block, 3).unwrap();
    assert_eq!(zone.free_pages(block, 3), Err(Error::PageAlloc));
}

#[test]
fn caches_need_a_page_size() {
    let zone = Zone::<ORDERS>::uninit();
    let mut cache = ObjectCache::uninit();
    assert_eq!(
        cache.init(&zone, "objects", 24, 8),
        Err(Error::InvalidPageSize)
    );
    assert!(!cache.is_initialized());
    let mut heap = KernelHeap::uninit();
    assert_eq!(heap.init(&zone), Err(Error::InvalidPageSize));
    assert!(!heap.is_initialized());
}

#[test]
fn caches_report_an_exhausted_allocator() {
    let mut zone = zone_of(8);
    let mut cache = cache_of(&zone, 1024, 8);
    let order = cache.layout().order();
    let mut live = Vec::new();
    let error = loop {
        match cache.allocate(&mut zone) {
            Ok(object) => live.push(object),
            Err(error) => {
                break error;
            }
        }
    };
    assert_eq!(error, Error::OutOfMemory);
    assert_eq!(live.len(), cache.layout().objects() * (8 >> order));
    cache.validate(&zone).unwrap();

    // What is free again can be allocated again.
    let back = live.pop().unwrap();
    cache.free(&mut zone, back).unwrap();
    assert_eq!(cache.allocate(&mut zone), Ok(back));
}

#[test]
fn the_last_object_freed_is_the_next_one_allocated() {
    let mut zone = zone_of(8);
    let mut cache = cache_of(&zone, 24, 8);
    let first = cache.allocate(&mut zone).unwrap();
    let second = cache.allocate(&mut zone).unwrap();
    assert_eq!(second, first + 24);
    cache.free(&mut zone, first).unwrap();
    assert_eq!(cache.allocate(&mut zone), Ok(first));
    cache.free(&mut zone, second).unwrap();
    assert_eq!(cache.try_alloc_cached(&mut zone), Some(second));
}

#[test]
fn objects_keep_their_bytes_and_stay_apart() {
    let mut zone = zone_of(32);
    let mut cache = cache_of(&zone, 100, 16);
    let count = 2 * cache.layout().objects() + 3;
    let objects: Vec<usize> = (0..count).map(|_| cache.allocate(&mut zone).unwrap()).collect();
    for (index, object) in objects.iter().enumerate() {
        paint(&mut zone, *object, 100, index as u8);
    }
    let mut sorted = objects.clone();
    sorted.sort_unstable();
    assert!(sorted.windows(2).all(|pair| pair[1] - pair[0] >= 112));
    assert!(sorted.iter().all(|object| object % 16 == 0));

    // Freeing every second object leaves the others alone.
    for object in objects.iter().step_by(2) {
        cache.free(&mut zone, *object).unwrap();
    }
    for (index, object) in objects.iter().enumerate().skip(1).step_by(2) {
        assert!(painted(&zone, *object, 100, index as u8));
    }
    // So does allocating again.
    let fresh = cache.alloc_zeroed(&mut zone).unwrap();
    assert!(painted(&zone, fresh, 100, 0));
    for (index, object) in objects.iter().enumerate().skip(1).step_by(2) {
        assert!(*object != fresh);
        assert!(painted(&zone, *object, 100, index as u8));
    }
    cache.validate(&zone).unwrap();
}

#[test]
fn shrinking_keeps_slabs_in_use() {
    let mut zone = zone_of(32);
    let mut cache = cache_of(&zone, 512, 8);
    let per_slab = cache.layout().objects();
    let objects: Vec<usize> = (0..3 * per_slab)
        .map(|_| cache.allocate(&mut zone).unwrap())
        .collect();
    paint(&mut zone, objects[0], 512, 0x77);
    for object in &objects[1..] {
        cache.free(&mut zone, *object).unwrap();
    }
    assert_eq!(cache.nr_free_objects(), 3 * per_slab - 1);
    cache.shrink(&mut zone).unwrap();
    assert_eq!(cache.nr_slabs(), 1);
    assert_eq!(cache.nr_objects(), per_slab);
    assert_eq!(cache.nr_free_objects(), per_slab - 1);
    assert!(painted(&zone, objects[0], 512, 0x77));
    cache.validate(&zone).unwrap();
    cache.free(&mut zone, objects[0]).unwrap();
    cache.shrink(&mut zone).unwrap();
    assert_eq!(cache.nr_slabs(), 0);
    assert_eq!(zone.buddy().nr_free(), 32);
}

#[test]
fn double_frees_are_detected_where_they_can_be() {
    let mut zone = zone_of(8);
    let mut cache = cache_of(&zone, 64, 8);
    let first = cache.allocate(&mut zone).unwrap();
    let second = cache.allocate(&mut zone).unwrap();
    cache.free(&mut zone, second).unwrap();
    // The last one freed.
    assert_eq!(cache.free(&mut zone, second), Err(Error::DoubleFree));
    cache.free(&mut zone, first).unwrap();
    // Nothing in the slab is in use.
    assert_eq!(cache.free(&mut zone, second), Err(Error::DoubleFree));
    assert_eq!(cache.nr_free_objects(), cache.layout().objects());
    cache.validate(&zone).unwrap();
}

#[test]
fn pointers_behind_the_last_object_are_invalid() {
    let mut zone = zone_of(8);
    // One page holds 45 objects of 88 bytes, and 80 bytes are left over.
    let mut cache = cache_of(&zone, 88, 8);
    assert_eq!(cache.layout().objects(), 45);
    let object = cache.allocate(&mut zone).unwrap();
    let behind = object + 45 * 88;
    assert_eq!(behind / PAGE, object / PAGE);
    assert_eq!(cache.free(&mut zone, behind), Err(Error::InvalidPointer));
}

#[test]
fn slabs_of_several_pages_are_found_from_any_page() {
    let mut zone = zone_of(32);
    let mut cache = cache_of(&zone, 2000, 8);
    assert_eq!(cache.layout().order(), 1);
    let objects: Vec<usize> = (0..cache.layout().objects())
        .map(|_| cache.allocate(&mut zone).unwrap())
        .collect();
    assert!(objects.iter().any(|object| object / PAGE != objects[0] / PAGE));
    for object in objects {
        cache.free(&mut zone, object).unwrap();
    }
    assert_eq!(cache.nr_free_objects(), cache.nr_objects());
}

#[test]
fn caches_that_moved_fail_safely() {
    let mut zone = zone_of(8);
    let mut cache = cache_of(&zone, 64, 8);
    let object = cache.alloc_at(&mut zone, 0x5000).unwrap();
    let slab = object / PAGE * PAGE;
    assert_eq!(load_header(&zone, slab).owner, 0x5000);
    assert_eq!(
        cache.free_at(&mut zone, 0x6000, object),
        Err(Error::InvalidPointer)
    );
    assert_eq!(cache.validate_at(&zone, 0x6000), Err(Error::CorruptSlab));
    assert_eq!(cache.validate_at(&zone, 0x5000), Ok(()));
    cache.free_at(&mut zone, 0x5000, object).unwrap();
    cache.shrink(&mut zone).unwrap();

    // Without slabs the place does not matter.
    let object = cache.alloc_zeroed_at(&mut zone, 0x6000).unwrap();
    let slab = object / PAGE * PAGE;
    assert_eq!(load_header(&zone, slab).owner, 0x6000);
    cache.free_at(&mut zone, 0x6000, object).unwrap();
}

#[test]
fn slabs_carry_the_place_where_they_were_grown() {
    let mut zone = zone_of(16);
    let mut cache = cache_of(&zone, 1000, 8);
    let count = cache.layout().objects();
    let first: Vec<usize> = (0..count).map(|_| cache.alloc_at(&mut zone, 0x5000).unwrap()).collect();

    // The first slab is full, so that the next object needs another one.
    let second = cache.alloc_at(&mut zone, 0x6000).unwrap();
    assert_eq!(load_header(&zone, second / PAGE * PAGE).owner, 0x6000);
    // Only the second slab can be found, and it was grown here.
    assert_eq!(cache.validate_at(&zone, 0x6000), Ok(()));
    assert_eq!(cache.validate_at(&zone, 0x5000), Err(Error::CorruptSlab));

    // What was grown elsewhere is not freed here.
    assert_eq!(
        cache.free_at(&mut zone, 0x6000, first[0]),
        Err(Error::InvalidPointer)
    );
    assert_eq!(
        cache.free_at(&mut zone, 0x5000, second),
        Err(Error::InvalidPointer)
    );
    cache.free_at(&mut zone, 0x6000, second).unwrap();
    for object in first {
        cache.free_at(&mut zone, 0x5000, object).unwrap();
    }
    cache.shrink(&mut zone).unwrap();
    assert_eq!(zone.buddy().nr_free(), 16);
}

#[test]
fn heaps_give_back_every_page() {
    let mut zone = zone_of(64);
    let before = zone.buddy().nr_free();
    let mut heap = heap_of(&zone);
    let sizes = [8, 100, 1000, 2000, 5000, 20_000];
    let objects: Vec<usize> = sizes
        .iter()
        .map(|size| heap.allocate(&mut zone, *size).unwrap())
        .collect();
    assert!(zone.buddy().nr_free() < before);
    let grown = heap.realloc(&mut zone, objects[1], 9000).unwrap();
    for (index, object) in objects.into_iter().enumerate() {
        if index != 1 {
            heap.free(&mut zone, object).unwrap();
        }
    }
    heap.free(&mut zone, grown).unwrap();
    heap.destroy(&mut zone).unwrap();
    assert_eq!(zone.buddy().nr_free(), before);
}

#[test]
fn zones_take_any_mapping() {
    let descriptors: &'static mut [Page] = Box::leak(vec![Page::EMPTY; 16].into_boxed_slice());
    let map = DirectMap::new(BASE, 0x20_0000, vec![0; 16 * PAGE]);
    let mut zone = Zone::<ORDERS, DirectMap>::without_arena(map);
    assert!(!zone.is_initialized());
    let map = DirectMap::new(BASE, 0x40_0000, vec![0; 16 * PAGE]);
    zone.init_over(descriptors, BASE, PAGE, map).unwrap();
    zone.buddy_mut().free_range(BASE, BASE + 16 * PAGE).unwrap();
    assert_eq!(zone.map().phys_base(), BASE);
    let mut cache = cache_of(&zone, 24, 8);
    let object = cache.allocate(&mut zone).unwrap();
    assert!((0x40_0000..0x40_0000 + 16 * PAGE).contains(&object));
    cache.free(&mut zone, object).unwrap();
    cache.destroy(&mut zone).unwrap();
    assert_eq!(zone.buddy().nr_free(), 16);
}

#[test]
fn a_cache_without_slabs_answers_for_where_it_is() {
    let mut zone = zone_of(16);
    let mut first = cache_of(&zone, 64, 8);
    let mut second = cache_of(&zone, 64, 8);

    // The first cache gives up its slabs and leaves its place to the second.
    let object = first.alloc_at(&mut zone, 0x5000).unwrap();
    first.free_at(&mut zone, 0x5000, object).unwrap();
    first.shrink(&mut zone).unwrap();
    assert_eq!(first.nr_slabs(), 0);
    let used = second.alloc_at(&mut zone, 0x5000).unwrap();
    let freed = second.alloc_at(&mut zone, 0x5000).unwrap();
    second.free_at(&mut zone, 0x5000, freed).unwrap();

    // In use, off the grid, and at the front of the free list.
    assert_eq!(
        first.free_at(&mut zone, 0x6000, used),
        Err(Error::CrossCacheFree)
    );
    assert_eq!(
        first.free_at(&mut zone, 0x6000, used + 1),
        Err(Error::CrossCacheFree)
    );
    assert_eq!(
        first.free_at(&mut zone, 0x6000, freed),
        Err(Error::CrossCacheFree)
    );
    // A page that is no slab.
    assert_eq!(
        first.free_at(&mut zone, 0x6000, BASE + 15 * PAGE + 64),
        Err(Error::InvalidPointer)
    );

    // The slab of the second cache is as it was.
    assert_eq!(second.validate_at(&zone, 0x5000), Ok(()));
    assert_eq!(second.nr_free_objects(), second.nr_objects() - 1);
    second.free_at(&mut zone, 0x5000, used).unwrap();
}

#[test]
fn pointers_of_another_cache_are_rejected() {
    let mut zone = zone_of(16);
    let mut first = cache_of(&zone, 64, 8);
    let mut second = cache_of(&zone, 48, 8);
    let mine = first.alloc_at(&mut zone, 0x5000).unwrap();
    let other = second.alloc_at(&mut zone, 0x6000).unwrap();
    assert_eq!(
        first.free_at(&mut zone, 0x5000, other),
        Err(Error::CrossCacheFree)
    );
    assert_eq!(
        second.free_at(&mut zone, 0x6000, mine + 3),
        Err(Error::CrossCacheFree)
    );
    let mut heap = heap_of(&zone);
    assert_eq!(
        heap.free_at(&mut zone, &HERES, mine),
        Err(Error::CrossCacheFree)
    );
    first.free_at(&mut zone, 0x5000, mine).unwrap();
    second.free_at(&mut zone, 0x6000, other).unwrap();
}

#[test]
fn a_moved_cache_rejects_frees() {
    let mut zone = zone_of(8);
    let mut boxed = Box::new(cache_of(&zone, 64, 8));
    let object = boxed.allocate(&mut zone).unwrap();
    let mut moved = *boxed;
    assert_eq!(moved.free(&mut zone, object), Err(Error::InvalidPointer));
    assert_eq!(moved.nr_slabs(), 1);
}

#[test]
fn validation_notices_lost_objects() {
    let mut zone = zone_of(8);
    let mut cache = cache_of(&zone, 24, 8);
    let object = cache.allocate(&mut zone).unwrap();
    let slab = object / PAGE * PAGE;
    let header = load_header(&zone, slab);
    let mut broken = header;
    broken.freelist = None;
    store_header(&mut zone, slab, broken);
    assert_eq!(cache.validate(&zone), Err(Error::CountMismatch));
    broken = header;
    broken.owner = 1;
    store_header(&mut zone, slab, broken);
    assert_eq!(cache.validate(&zone), Err(Error::CorruptSlab));
    broken = header;
    broken.on_partial = true;
    store_header(&mut zone, slab, broken);
    assert_eq!(cache.validate(&zone), Err(Error::CorruptSlab));
    store_header(&mut zone, slab, header);
    assert_eq!(cache.validate(&zone), Ok(()));
}

#[test]
fn caches_share_a_page_allocator() {
    let mut zone = zone_of(32);
    let mut left = cache_of(&zone, 64, 8);
    let mut right = cache_of(&zone, 64, 8);
    let mut heap = heap_of(&zone);
    let a = left.allocate(&mut zone).unwrap();
    let b = right.allocate(&mut zone).unwrap();
    let c = heap.allocate(&mut zone, 64).unwrap();
    let d = heap.allocate(&mut zone, 6000).unwrap();
    paint(&mut zone, a, 64, 1);
    paint(&mut zone, b, 64, 2);
    paint(&mut zone, c, 64, 3);
    paint(&mut zone, d, 6000, 4);
    assert_eq!(left.free(&mut zone, b), Err(Error::CrossCacheFree));
    assert_eq!(heap.free(&mut zone, a), Err(Error::CrossCacheFree));
    left.validate(&zone).unwrap();
    right.validate(&zone).unwrap();
    heap.validate(&zone).unwrap();
    right.free(&mut zone, b).unwrap();
    right.destroy(&mut zone).unwrap();
    assert!(painted(&zone, a, 64, 1));
    assert!(painted(&zone, c, 64, 3));
    assert!(painted(&zone, d, 6000, 4));
    heap.free(&mut zone, d).unwrap();
    heap.free(&mut zone, c).unwrap();
    heap.destroy(&mut zone).unwrap();
    assert!(painted(&zone, a, 64, 1));
    left.free(&mut zone, a).unwrap();
    left.destroy(&mut zone).unwrap();
    assert_eq!(zone.buddy().nr_free(), 32);
}

#[test]
fn heaps_initialize_once() {
    let mut zone = zone_of(16);
    let mut heap = KernelHeap::uninit();
    assert_eq!(heap.allocate(&mut zone, 8), Err(Error::Uninitialized));
    assert_eq!(heap.alloc_zeroed(&mut zone, 8), Err(Error::Uninitialized));
    assert_eq!(heap.alloc_layout(&mut zone, 8, 8), Err(Error::Uninitialized));
    assert_eq!(heap.free(&mut zone, BASE), Err(Error::Uninitialized));
    assert_eq!(heap.usable_size(&zone, BASE), Err(Error::Uninitialized));
    assert_eq!(heap.realloc(&mut zone, BASE, 8), Err(Error::Uninitialized));
    assert_eq!(heap.shrink(&mut zone), Err(Error::Uninitialized));
    assert_eq!(heap.validate(&zone), Err(Error::Uninitialized));
    heap.init(&zone).unwrap();
    assert_eq!(heap.page_size(), PAGE);
    assert_eq!(heap.init(&zone), Err(Error::AlreadyInitialized));
    assert_eq!(
        KernelHeap::uninit().destroy(&mut zone),
        Err(Error::Uninitialized)
    );
}

#[test]
fn tiny_pages_have_no_heap() {
    let descriptors: &'static mut [Page] = Box::leak(vec![Page::EMPTY; 64].into_boxed_slice());
    let mut zone = Zone::<ORDERS>::from_raw_parts(descriptors, BASE, 4, BASE, vec![0; 256]).unwrap();
    zone.buddy_mut().free_range(BASE, BASE + 256).unwrap();
    let mut heap = KernelHeap::uninit();
    assert_eq!(heap.init(&zone), Err(Error::InvalidAlign));
    assert!(!heap.is_initialized());
}

#[test]
fn heap_classes_have_natural_layouts() {
    let zone = zone_of(16);
    let heap = heap_of(&zone);
    let aligns = [8, 16, 32, 64, 32, 128, 64, 256, 512, 1024, 2048];
    let sizes = KernelHeap::classes();
    for (index, align) in aligns.iter().enumerate() {
        let cache = heap.cache(index).unwrap();
        assert_eq!(cache.layout().object_size(), sizes[index]);
        assert_eq!(cache.layout().align(), *align);
        assert_eq!(cache.layout().order(), 0);
    }
    assert_eq!(heap.cache(4).unwrap().name(), "kmalloc-96");
    assert!(heap.cache(11).is_none());
    assert!(heap.cache(12).is_none());
    assert!(heap.cache(13).is_none());
}

#[test]
fn usable_sizes() {
    let mut zone = zone_of(32);
    let mut heap = heap_of(&zone);
    for (size, usable) in [
        (1, 8),
        (8, 8),
        (9, 16),
        (65, 96),
        (97, 128),
        (129, 192),
        (193, 256),
        (2048, 2048),
        (2049, PAGE - 8),
        (PAGE - 8, PAGE - 8),
        (PAGE - 7, 2 * PAGE - 8),
        (8 * PAGE - 8, 8 * PAGE - 8),
    ] {
        let object = heap.allocate(&mut zone, size).unwrap();
        assert_eq!(heap.usable_size(&zone, object), Ok(usable), "size {size}");
        heap.free(&mut zone, object).unwrap();
    }
    assert_eq!(
        heap.allocate(&mut zone, 8 * PAGE - 7),
        Err(Error::OutOfMemory)
    );
    assert_eq!(heap.allocate(&mut zone, usize::MAX), Err(Error::OutOfMemory));
    assert_eq!(heap.allocate(&mut zone, 0), Err(Error::InvalidObjectSize));
    heap.shrink(&mut zone).unwrap();
    assert_eq!(zone.buddy().nr_free(), 32);
}

#[test]
fn zeroed_allocations_are_zero() {
    let mut zone = zone_of(32);
    let mut heap = heap_of(&zone);
    for size in [24, 5000] {
        let object = heap.allocate(&mut zone, size).unwrap();
        let usable = heap.usable_size(&zone, object).unwrap();
        paint(&mut zone, object, usable, 0xff);
        heap.free(&mut zone, object).unwrap();
        let zeroed = heap.alloc_zeroed(&mut zone, size).unwrap();
        assert_eq!(zeroed, object);
        assert!(painted(&zone, zeroed, usable, 0));
        assert_eq!(heap.usable_size(&zone, zeroed), Ok(usable));
        heap.free(&mut zone, zeroed).unwrap();
    }
    let zeroed = heap.alloc_zeroed_layout(&mut zone, 3, 128).unwrap();
    assert_eq!(zeroed % 128, 0);
    assert!(painted(&zone, zeroed, 128, 0));
}

#[test]
fn resizing_moves_only_what_does_not_fit() {
    let mut zone = zone_of(32);
    let mut heap = heap_of(&zone);
    let other = heap.allocate(&mut zone, 100).unwrap();
    paint(&mut zone, other, 128, 0x11);
    let object = heap.allocate(&mut zone, 100).unwrap();
    paint(&mut zone, object, 128, 0x22);

    // Within the class.
    assert_eq!(heap.realloc(&mut zone, object, 128), Ok(object));
    assert_eq!(heap.realloc(&mut zone, object, 1), Ok(object));
    // To a larger class, to a large block and inside it.
    let grown = heap.realloc(&mut zone, object, 1000).unwrap();
    assert!(grown != object);
    assert!(painted(&zone, grown, 128, 0x22));
    let large = heap.realloc(&mut zone, grown, 5000).unwrap();
    assert!(painted(&zone, large, 128, 0x22));
    assert_eq!(heap.usable_size(&zone, large), Ok(2 * PAGE - 8));
    assert_eq!(heap.realloc(&mut zone, large, 8000), Ok(large));
    assert!(painted(&zone, other, 128, 0x11));
    assert_eq!(heap.realloc(&mut zone, large, 0), Err(Error::InvalidObjectSize));
    assert_eq!(
        heap.realloc(&mut zone, large, 9 * PAGE),
        Err(Error::OutOfMemory)
    );
    assert!(painted(&zone, large, 128, 0x22));
    heap.free(&mut zone, large).unwrap();
    heap.free(&mut zone, other).unwrap();
    heap.validate(&zone).unwrap();
    heap.destroy(&mut zone).unwrap();
    assert_eq!(zone.buddy().nr_free(), 32);
}

#[test]
fn heaps_reject_what_is_not_theirs() {
    let mut zone = zone_of(32);
    let mut heap = heap_of(&zone);
    let large = heap.allocate(&mut zone, 6000).unwrap();
    assert_eq!(load_magic(&zone, large - 8), 0x1a26_9002);
    // Not behind the tag, and in the second page of the block.
    assert_eq!(heap.free(&mut zone, large + 8), Err(Error::InvalidPointer));
    assert_eq!(heap.free(&mut zone, large + PAGE), Err(Error::InvalidPointer));
    assert_eq!(
        heap.usable_size(&zone, large + 1),
        Err(Error::InvalidPointer)
    );
    assert_eq!(
        heap.realloc(&mut zone, large + 1, 10),
        Err(Error::InvalidPointer)
    );
    let object = heap.allocate(&mut zone, 64).unwrap();
    heap.free(&mut zone, object).unwrap();
    assert_eq!(heap.free(&mut zone, object), Err(Error::DoubleFree));
    heap.free(&mut zone, large).unwrap();
}

#[test]
fn large_allocations_are_freed_once() {
    let mut zone = zone_of(32);
    let mut heap = heap_of(&zone);
    let large = heap.allocate(&mut zone, 6000).unwrap();
    heap.free(&mut zone, large).unwrap();
    assert_eq!(zone.buddy().nr_free(), 32);

    // The tag is still there, and the page allocator knows no such block.
    assert_eq!(heap.free(&mut zone, large), Err(Error::PageAlloc));
    assert_eq!(zone.buddy().nr_free(), 32);
    assert_eq!(heap.usable_size(&zone, large), Ok(2 * PAGE - 8));
    assert_eq!(heap.realloc(&mut zone, large, 100), Ok(large));
    assert_eq!(zone.buddy().nr_free(), 32);

    let again = heap.allocate(&mut zone, 6000).unwrap();
    heap.free(&mut zone, again).unwrap();
}

#[test]
fn a_moved_heap_allocates_and_keeps_its_objects_apart() {
    let mut zone = zone_of(32);
    let mut heap = heap_of(&zone);
    let small = heap.alloc_at(&mut zone, &HERES, 8).unwrap();
    let mut swapped = HERES;
    swapped.swap(0, 1);

    // The cache for 16 bytes has come to where that for 8 bytes was.
    let other = heap.alloc_at(&mut zone, &swapped, 16).unwrap();
    let page = other / PAGE * PAGE;
    assert_eq!(load_header(&zone, page).owner, HERES[0]);
    assert_eq!(heap.usable_size_at(&zone, &swapped, other), Ok(16));
    assert_eq!(heap.usable_size_at(&zone, &swapped, small), Ok(16));
    assert_eq!(
        heap.free_at(&mut zone, &swapped, small),
        Err(Error::InvalidPointer)
    );
    assert_eq!(
        heap.realloc_at(&mut zone, &swapped, small, 64),
        Err(Error::InvalidPointer)
    );
    assert_eq!(heap.validate_at(&zone, &swapped), Err(Error::CorruptSlab));
    heap.free_at(&mut zone, &swapped, other).unwrap();

    // The one for 8 bytes is found again where it was.
    heap.free_at(&mut zone, &HERES, small).unwrap();
    heap.shrink(&mut zone).unwrap();
    assert_eq!(zone.buddy().nr_free(), 32);
}

#[test]
fn objects_on_the_grid_of_another_class_stay_where_they_are() {
    let mut zone = zone_of(32);
    let mut heap = heap_of(&zone);
    // The second object of 64 bytes lies where one of 128 bytes could.
    heap.alloc_at(&mut zone, &HERES, 64).unwrap();
    let second = heap.alloc_at(&mut zone, &HERES, 64).unwrap();
    assert_eq!(second % PAGE, 128);
    let mut swapped = HERES;
    swapped.swap(3, 5);
    let large = heap.alloc_at(&mut zone, &swapped, 128).unwrap();
    assert_eq!(heap.usable_size_at(&zone, &swapped, second), Ok(128));
    assert_eq!(
        heap.free_at(&mut zone, &swapped, second),
        Err(Error::InvalidPointer)
    );
    heap.free_at(&mut zone, &swapped, large).unwrap();
    heap.free_at(&mut zone, &HERES, second).unwrap();
}

#[test]
fn over_aligned_requests() {
    let mut zone = zone_of(32);
    let mut heap = heap_of(&zone);
    // 96 is aligned to 32 only, so 64 takes the next class that is.
    let object = heap.alloc_layout(&mut zone, 96, 64).unwrap();
    assert_eq!(heap.usable_size(&zone, object), Ok(128));
    assert_eq!(object % 64, 0);
    let object = heap.alloc_layout(&mut zone, 150, 64).unwrap();
    assert_eq!(heap.usable_size(&zone, object), Ok(192));
    assert_eq!(
        heap.alloc_layout(&mut zone, 3000, 16),
        Err(Error::InvalidAlign)
    );
    assert_eq!(
        heap.alloc_zeroed_layout(&mut zone, 3000, 16),
        Err(Error::InvalidAlign)
    );
    let large = heap.alloc_layout(&mut zone, 3000, 8).unwrap();
    assert_eq!(large % 8, 0);
    assert_eq!(
        heap.realloc_layout(&mut zone, large, 3000, 4096),
        Err(Error::InvalidAlign)
    );
    assert_eq!(heap.realloc_layout(&mut zone, large, 3000, 8), Ok(large));
    heap.free(&mut zone, large).unwrap();
}

#[test]
fn slabs_go_back_beyond_min_partial() {
    let mut zone = zone_of(64);
    let mut cache: KmemCache = cache_of(&zone, 1000, 8);
    cache.set_min_partial(2);
    let per_slab = cache.layout().objects();
    let objects: Vec<usize> = (0..6 * per_slab)
        .map(|_| cache.allocate(&mut zone).unwrap())
        .collect();
    assert_eq!(cache.nr_slabs(), 6);
    for object in objects {
        cache.free(&mut zone, object).unwrap();
    }
    // The active slab, and two in the partial list.
    assert_eq!(cache.nr_slabs(), 3);
    assert_eq!(cache.nr_free_objects(), 3 * per_slab);
    cache.validate(&zone).unwrap();
    cache.destroy(&mut zone).unwrap();
    assert_eq!(zone.buddy().nr_free(), 64);
}

#[test]
fn objects_in_use_outlive_their_cache() {
    let mut zone = zone_of(16);
    let mut cache = cache_of(&zone, 512, 8);
    let order = cache.layout().order();
    let kept = cache.allocate(&mut zone).unwrap();
    let freed = cache.allocate(&mut zone).unwrap();
    paint(&mut zone, kept, 512, 0x42);
    cache.free(&mut zone, freed).unwrap();
    cache.destroy(&mut zone).unwrap();
    assert_eq!(zone.buddy().nr_free(), 16 - (1 << order));
    assert!(painted(&zone, kept, 512, 0x42));
    assert_eq!(
        KmemCache::uninit().destroy(&mut zone),
        Err(Error::Uninitialized)
    );
}

/// A zone that can be told not to take blocks back, and that counts how often
/// it is asked for one.
struct Stubborn {
    zone: Zone<ORDERS>,
    refuses: bool,
    asked: usize,
}

impl PhysMap for Stubborn {
    // What the contracts speak of is not there when the code runs.
    fn mem(&self) -> Bytes {
        unreachable!()
    }

    fn mapping(&self) -> Mapping {
        unreachable!()
    }

    fn book(&self) -> Book {
        unreachable!()
    }

    fn inv(&self) -> bool {
        unreachable!()
    }

    fn book_in_order(&self) {}

    fn phys_to_virt(&self, addr: usize) -> usize {
        self.zone.phys_to_virt(addr)
    }

    fn virt_to_phys(&self, ptr: usize) -> usize {
        self.zone.virt_to_phys(ptr)
    }

    fn load(&self, ptr: usize) -> u8 {
        self.zone.load(ptr)
    }

    fn store(&mut self, ptr: usize, byte: u8) {
        self.zone.store(ptr, byte);
    }
}

impl PageAlloc for Stubborn {
    fn page_size(&self) -> usize {
        self.zone.page_size()
    }

    fn max_order(&self) -> u8 {
        self.zone.max_order()
    }

    fn alloc_pages(&mut self, order: u8) -> Result<usize, Error> {
        self.asked += 1;
        self.zone.alloc_pages(order)
    }

    fn free_pages(&mut self, addr: usize, order: u8) -> Result<(), Error> {
        if self.refuses {
            return Err(Error::PageAlloc);
        }
        self.zone.free_pages(addr, order)
    }
}

#[test]
fn slabs_that_are_refused_are_lost() {
    let mut pages = Stubborn {
        zone: zone_of(16),
        refuses: false,
        asked: 0,
    };
    let mut cache = ObjectCache::uninit();
    cache.init(&pages, "objects", 1000, 8).unwrap();
    assert_eq!(cache.layout().objects(), 4);
    cache.set_min_partial(0);
    let objects: Vec<usize> = (0..8).map(|_| cache.allocate(&mut pages).unwrap()).collect();
    assert_eq!(cache.nr_slabs(), 2);
    for object in &objects[..3] {
        cache.free(&mut pages, *object).unwrap();
    }
    pages.refuses = true;
    assert_eq!(cache.free(&mut pages, objects[3]), Err(Error::PageAlloc));

    // Its magic number is gone, so that nothing in it can be freed.
    let lost = objects[0] / PAGE * PAGE;
    assert_eq!(load_magic(&pages, lost), 0);
    for object in &objects[..4] {
        assert_eq!(cache.free(&mut pages, *object), Err(Error::InvalidPointer));
    }

    // The slab still counts, but nothing finds it any more.
    assert_eq!(cache.nr_slabs(), 2);
    assert_eq!(cache.nr_free_objects(), 4);
    assert_eq!(cache.validate(&pages), Err(Error::CountMismatch));
    pages.refuses = false;
    assert_eq!(cache.shrink(&mut pages), Ok(()));
    assert_eq!(cache.nr_slabs(), 2);

    // The active slab is lost in the same way when it cannot be released.
    for object in &objects[4..] {
        cache.free(&mut pages, *object).unwrap();
    }
    pages.refuses = true;
    assert_eq!(cache.shrink(&mut pages), Err(Error::PageAlloc));
    assert_eq!(cache.nr_slabs(), 2);
    assert_eq!(cache.destroy(&mut pages), Ok(()));
    assert_eq!(pages.zone.buddy().nr_free(), 14);
}

#[test]
fn the_page_allocator_is_asked_only_for_orders_that_fit() {
    let mut pages = Stubborn {
        zone: zone_of(16),
        refuses: false,
        asked: 0,
    };
    let mut heap = KernelHeap::uninit();
    heap.init(&pages).unwrap();
    assert_eq!(heap.allocate(&mut pages, usize::MAX), Err(Error::OutOfMemory));
    assert_eq!(
        heap.allocate(&mut pages, 8 * PAGE - 7),
        Err(Error::OutOfMemory)
    );
    assert_eq!(pages.asked, 0);

    // The largest block holds eight bytes less than its size.
    let large = heap.allocate(&mut pages, 8 * PAGE - 8).unwrap();
    assert_eq!(pages.asked, 1);
    assert_eq!(heap.usable_size(&pages, large), Ok(8 * PAGE - 8));
    let second = heap.allocate(&mut pages, 5000).unwrap();
    assert_eq!(heap.usable_size(&pages, second), Ok(2 * PAGE - 8));
    assert_eq!(
        heap.allocate(&mut pages, 8 * PAGE - 8),
        Err(Error::OutOfMemory)
    );
    assert_eq!(pages.asked, 3);
}

#[test]
fn heaps_pass_on_what_the_page_allocator_says() {
    let mut pages = Stubborn {
        zone: zone_of(16),
        refuses: true,
        asked: 0,
    };
    let mut heap = KernelHeap::uninit();
    heap.init(&pages).unwrap();
    let large = heap.allocate(&mut pages, 5000).unwrap();
    assert_eq!(heap.free(&mut pages, large), Err(Error::PageAlloc));
    assert_eq!(
        heap.realloc(&mut pages, large, 10_000),
        Err(Error::PageAlloc)
    );
    let small = heap.allocate(&mut pages, 8).unwrap();
    heap.free(&mut pages, small).unwrap();
    assert_eq!(heap.shrink(&mut pages), Err(Error::PageAlloc));
    pages.refuses = false;
    heap.free(&mut pages, large).unwrap();
}
