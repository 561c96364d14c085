use the_slab::DirectMap;
use the_slab::Error;
use the_slab::PageAlloc;
use the_slab::PhysMap;
use the_slab::Zone;

const BASE: usize = 0x2000;

#[test]
fn direct_map_round_trips() {
    let mut map = DirectMap::new(BASE, BASE, vec![0; 64]);

    let ptr = map.phys_to_virt(BASE + 7);
    assert_eq!(ptr, BASE + 7);
    assert_eq!(map.virt_to_phys(ptr), BASE + 7);

    // What is written through the mapping is read back through it.
    map.store(ptr, 42);
    assert_eq!(map.load(BASE + 7), 42);
    assert_eq!(map.load(BASE + 6), 0);
}

#[test]
fn direct_map_init_fills_the_placeholder() {
    let mut map = DirectMap::uninit();
    assert!(!map.is_initialized());

    map.init(BASE, BASE, vec![0; 64]);
    assert!(map.is_initialized());
    assert_eq!(map.phys_base(), BASE);
    assert_eq!(map.phys_to_virt(BASE + 7), BASE + 7);
}

#[test]
fn zone_uninit_is_inert_and_const() {
    let placeholder = Zone::<4>::uninit();
    assert!(!placeholder.is_initialized());

    let mut zone = Zone::<4>::uninit();
    assert!(matches!(zone.alloc_pages(0), Err(Error::Uninitialized)));
    assert!(matches!(zone.free_pages(0, 0), Err(Error::Uninitialized)));
}

#[test]
fn direct_map_shifts_addresses() {
    let mut map = DirectMap::new(0x1000, 0x9000, vec![0; 64]);
    assert_eq!(map.phys_to_virt(0x1010), 0x9010);
    assert_eq!(map.virt_to_phys(0x9010), 0x1010);
    map.store(0x9010, 7);
    assert_eq!(map.load(0x9010), 7);
}
