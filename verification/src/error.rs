//! The error type returned by fallible slab operations.

use vstd::prelude::*;

verus! {

/// Errors returned by the slab allocator.
#[derive(Debug, Clone, Copy, PartialEq, Eq, Structural)]
pub enum Error {
    /// The page allocator has no free block of the requested order.
    OutOfMemory,
    /// An operation that needs a layout was attempted before initialization.
    Uninitialized,
    /// The cache or heap is already initialized.
    AlreadyInitialized,
    /// The object size is zero or smaller than a free list pointer.
    InvalidObjectSize,
    /// The alignment is zero, not a power of two, larger than the page
    /// size, or not satisfiable by any available slab class.
    InvalidAlign,
    /// The page size is zero or not a power of two.
    InvalidPageSize,
    /// No buddy order up to the largest one can hold even one object.
    ObjectTooLarge,
    /// The pointer does not denote an object of this cache: it is
    /// misaligned, outside the object area, or points into memory that is
    /// not a slab.
    InvalidPointer,
    /// The pointer belongs to a slab of a different cache.
    CrossCacheFree,
    /// The object is already free.
    DoubleFree,
    /// Slab metadata is corrupted (bad magic, owner or order, broken free
    /// list or partial list).
    CorruptSlab,
    /// Bookkeeping does not match the slabs that can be walked.
    CountMismatch,
    /// The underlying page allocator failed for a reason other than
    /// running out of memory.
    PageAlloc,
    /// An invariant was violated; indicates a bug in the implementation.
    InternalError,
}

/// The text that describes `error`.
pub open spec fn error_text(error: Error) -> Seq<char> {
    match error {
        Error::OutOfMemory => "Out of memory"@,
        Error::Uninitialized => "Object cache is not initialized"@,
        Error::AlreadyInitialized => "Object cache is already initialized"@,
        Error::InvalidObjectSize => "Invalid object size"@,
        Error::InvalidAlign => "Invalid alignment"@,
        Error::InvalidPageSize => "Invalid page size"@,
        Error::ObjectTooLarge => "Object does not fit a slab block"@,
        Error::InvalidPointer => "Invalid object pointer"@,
        Error::CrossCacheFree => "Object belongs to another cache"@,
        Error::DoubleFree => "Object is already free"@,
        Error::CorruptSlab => "Corrupted slab metadata"@,
        Error::CountMismatch => "Slab accounting mismatch"@,
        Error::PageAlloc => "Page allocator failure"@,
        Error::InternalError => "Internal error"@,
    }
}

impl Error {
    /// Returns the text that describes the error.
    pub fn message(&self) -> (text: &'static str)
        ensures
            text@ == error_text(*self),
    {
        match self {
            Error::OutOfMemory => "Out of memory",
            Error::Uninitialized => "Object cache is not initialized",
            Error::AlreadyInitialized => "Object cache is already initialized",
            Error::InvalidObjectSize => "Invalid object size",
            Error::InvalidAlign => "Invalid alignment",
            Error::InvalidPageSize => "Invalid page size",
            Error::ObjectTooLarge => "Object does not fit a slab block",
            Error::InvalidPointer => "Invalid object pointer",
            Error::CrossCacheFree => "Object belongs to another cache",
            Error::DoubleFree => "Object is already free",
            Error::CorruptSlab => "Corrupted slab metadata",
            Error::CountMismatch => "Slab accounting mismatch",
            Error::PageAlloc => "Page allocator failure",
            Error::InternalError => "Internal error",
        }
    }
}

} // verus!
