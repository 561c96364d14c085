use the_buddy_system::Page;
use the_slab::header::load_magic;
use the_slab::header::MAGIC_OFFSET;
use the_slab::header::SLAB_MAGIC;
use the_slab::heap::CLASS_COUNT;
use the_slab::heap::LARGE_MAGIC;
use the_slab::heap::LARGE_TAG_SIZE;
use the_slab::Arena;
use the_slab::BuddyPages;
use the_slab::DirectMap;
use the_slab::KernelHeap;

const PAGE: usize = 4096;
const PAGES: usize = 64;
const ORDERS: usize = 4;
const BASE: usize = 0x100_0000;

#[test]
fn class_index_picks_the_smallest_class() {
    assert_eq!(KernelHeap::class_index(1), Some(0));
    assert_eq!(KernelHeap::class_index(8), Some(0));
    assert_eq!(KernelHeap::class_index(9), Some(1));
    assert_eq!(KernelHeap::class_index(96), Some(4));
    assert_eq!(KernelHeap::class_index(97), Some(5));
    assert_eq!(KernelHeap::class_index(8192), Some(12));
    assert_eq!(KernelHeap::class_index(8193), None);
}

#[test]
fn uninit_is_const_and_inert() {
    let placeholder: KernelHeap = KernelHeap::uninit();
    assert!(!placeholder.is_initialized());
    assert_eq!(placeholder.page_size(), 0);
    assert_eq!(KernelHeap::classes().len(), CLASS_COUNT);
}

#[test]
fn tag_layouts_start_with_their_magic() {
    // `free` dispatches on the first word of a page, so both the slab
    // header and the large tag must start with their magic.
    let mut descriptors = vec![Page::EMPTY; PAGES];
    let mut arena = Arena::<ORDERS>::new(BASE, PAGE, &mut descriptors).unwrap();
    arena.free_range(BASE, BASE + PAGES * PAGE).unwrap();
    let map = DirectMap::new(BASE, BASE, vec![0; PAGES * PAGE]);
    let mut pages = BuddyPages::new(&mut arena, map);
    let mut heap = KernelHeap::uninit();
    heap.init(&pages).unwrap();

    let object = heap.allocate(&mut pages, 64).unwrap();
    assert_eq!(load_magic(&pages, object / PAGE * PAGE), SLAB_MAGIC);
    assert_eq!(MAGIC_OFFSET, 0);

    let block = heap.allocate(&mut pages, 2 * PAGE).unwrap();
    assert_eq!(load_magic(&pages, block / PAGE * PAGE), LARGE_MAGIC);
    assert_ne!(LARGE_MAGIC, SLAB_MAGIC);
    assert_eq!(block % PAGE, LARGE_TAG_SIZE);
}
