use the_slab::Error;

#[test]
fn error_is_copy_and_eq() {
    let error = Error::OutOfMemory;
    let copy = error;
    assert_eq!(error, copy);
    assert_ne!(Error::OutOfMemory, Error::DoubleFree);
}

#[test]
fn display_covers_all_variants() {
    assert_eq!(Error::OutOfMemory.message(), "Out of memory");
    assert_eq!(
        Error::Uninitialized.message(),
        "Object cache is not initialized"
    );
    assert_eq!(
        Error::AlreadyInitialized.message(),
        "Object cache is already initialized"
    );
    assert_eq!(
        Error::InvalidObjectSize.message(),
        "Invalid object size"
    );
    assert_eq!(
        Error::InvalidAlign.message(),
        "Invalid alignment"
    );
    assert_eq!(
        Error::InvalidPageSize.message(),
        "Invalid page size"
    );
    assert_eq!(
        Error::ObjectTooLarge.message(),
        "Object does not fit a slab block"
    );
    assert_eq!(
        Error::InvalidPointer.message(),
        "Invalid object pointer"
    );
    assert_eq!(
        Error::CrossCacheFree.message(),
        "Object belongs to another cache"
    );
    assert_eq!(
        Error::DoubleFree.message(),
        "Object is already free"
    );
    assert_eq!(
        Error::CorruptSlab.message(),
        "Corrupted slab metadata"
    );
    assert_eq!(
        Error::CountMismatch.message(),
        "Slab accounting mismatch"
    );
    assert_eq!(
        Error::PageAlloc.message(),
        "Page allocator failure"
    );
    assert_eq!(Error::InternalError.message(), "Internal error");
}
