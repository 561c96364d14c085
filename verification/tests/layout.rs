use the_slab::Error;
use the_slab::SlabLayout;

const HEADER: usize = 56;
const PAGE: usize = 4096;

#[test]
fn small_objects_fit_one_page() {
    let layout = SlabLayout::new(HEADER, 8, 8, PAGE, 10, 4).unwrap();
    assert_eq!(layout.first_offset(), 56);
    assert_eq!(layout.stride(), 8);
    assert_eq!(layout.order(), 0);
    assert_eq!(layout.objects(), (PAGE - 56) / 8);
    assert_eq!(layout.objects(), 505);
}

#[test]
fn unaligned_sizes_are_padded_to_the_alignment() {
    let layout = SlabLayout::new(HEADER, 100, 8, PAGE, 10, 4).unwrap();
    assert_eq!(layout.stride(), 104);
    assert_eq!(layout.objects(), (PAGE - 56) / 104);
}

#[test]
fn small_alignment_is_raised_to_pointer_alignment() {
    let layout = SlabLayout::new(HEADER, 24, 1, PAGE, 10, 4).unwrap();
    assert_eq!(layout.align(), std::mem::align_of::<usize>());
    assert_eq!(layout.stride(), 24);
}

#[test]
fn large_alignment_is_preserved_in_the_first_object() {
    let layout = SlabLayout::new(HEADER, 64, 256, PAGE, 10, 4).unwrap();
    assert_eq!(layout.align(), 256);
    assert_eq!(layout.first_offset(), 256);
    assert_eq!(layout.stride(), 256);
    assert_eq!(layout.objects(), (PAGE - 256) / 256);
    assert_eq!(layout.objects(), 15);
}

#[test]
fn min_objects_drives_the_order_for_medium_objects() {
    // One page holds a single 2 KiB object; SLUB-style relaxation grows
    // the block until `min_objects` (4) fit.
    let layout = SlabLayout::new(HEADER, 2048, 8, PAGE, 10, 4).unwrap();
    assert_eq!(layout.order(), 2);
    assert_eq!(layout.slab_bytes(), 4 * PAGE);
    assert_eq!(layout.objects(), (4 * PAGE - 56) / 2048);
    assert!(layout.objects() >= 4);
}

#[test]
fn huge_objects_fall_back_to_the_largest_order() {
    // No order reaches `min_objects`; the largest block with the most
    // objects wins instead of failing.
    let layout = SlabLayout::new(HEADER, 4096, 8, PAGE, 3, 4).unwrap();
    assert_eq!(layout.order(), 3);
    assert_eq!(layout.objects(), 7);
}

#[test]
fn object_larger_than_the_largest_block_is_rejected() {
    let error = SlabLayout::new(HEADER, 1 << 20, 8, PAGE, 2, 4).unwrap_err();
    assert_eq!(error, Error::ObjectTooLarge);
}

#[test]
fn page_aligned_objects_do_not_fit_with_a_header() {
    // The object and the header both want the full first page.
    let error = SlabLayout::new(HEADER, PAGE, PAGE, PAGE, 0, 4).unwrap_err();
    assert_eq!(error, Error::ObjectTooLarge);
}

#[test]
fn tiny_objects_are_rejected() {
    assert_eq!(
        SlabLayout::new(HEADER, 4, 8, PAGE, 10, 4).unwrap_err(),
        Error::InvalidObjectSize
    );
    assert_eq!(
        SlabLayout::new(HEADER, 0, 8, PAGE, 10, 4).unwrap_err(),
        Error::InvalidObjectSize
    );
}

#[test]
fn bad_alignment_is_rejected() {
    assert_eq!(
        SlabLayout::new(HEADER, 32, 0, PAGE, 10, 4).unwrap_err(),
        Error::InvalidAlign
    );
    assert_eq!(
        SlabLayout::new(HEADER, 32, 3, PAGE, 10, 4).unwrap_err(),
        Error::InvalidAlign
    );
    assert_eq!(
        SlabLayout::new(HEADER, 32, 8192, PAGE, 10, 4).unwrap_err(),
        Error::InvalidAlign
    );
}

#[test]
fn bad_page_size_is_rejected() {
    assert_eq!(
        SlabLayout::new(HEADER, 32, 8, 0, 10, 4).unwrap_err(),
        Error::InvalidPageSize
    );
    assert_eq!(
        SlabLayout::new(HEADER, 32, 8, 3000, 10, 4).unwrap_err(),
        Error::InvalidPageSize
    );
}

#[test]
fn every_object_is_within_the_block_and_aligned() {
    for (size, align) in [(8, 8), (24, 8), (100, 8), (512, 64), (2048, 256)] {
        let layout = SlabLayout::new(HEADER, size, align, PAGE, 5, 4).unwrap();
        assert!(layout.first_offset() % layout.align() == 0);
        assert!(layout.stride() % layout.align() == 0);
        let last = layout.first_offset() + (layout.objects() - 1) * layout.stride();
        assert!(last + layout.object_size() <= layout.slab_bytes());
    }
}
