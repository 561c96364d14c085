//! A slab allocator in the shape of the Linux kernel's SLUB (`mm/slub.c`),
//! layered on top of the buddy page allocator, with its behaviour stated as
//! contracts and proved.
//!
//! Each [`ObjectCache`] manages fixed-size objects carved out of page blocks
//! requested from a [`PageAlloc`]. A slab block starts with a slab header
//! and is followed by objects on an aligned stride; free objects store the
//! next free list pointer inside themselves. The cache keeps one active slab
//! plus a partial list and hands empty slabs back to the page allocator once
//! `min_partial` is exceeded. [`KernelHeap`] puts one cache per size class
//! in front of the same page allocator and serves larger requests straight
//! from it.
//!
//! # Layering
//!
//! ```text
//! KernelHeap                       kmalloc / kfree
//!     |
//! ObjectCache                      kmem_cache_alloc / kmem_cache_free
//!     |
//! PageAlloc (BuddyPages, Zone)     alloc_pages / __free_pages
//!     |
//! PhysMap (DirectMap)              the kernel's direct map
//!     |
//! Arena                            the buddy page allocator
//! ```
//!
//! Addresses are plain `usize` numbers, and memory is what a [`PhysMap`]
//! gives access to, byte by byte. Locking stays with the caller.
//!
//! # How the contracts are stated
//!
//! - [`pages`] says what a page allocator promises: a book of the blocks
//!   that are out, and the bytes it leaves alone.
//! - [`model`] says what a cache is: its slabs, which of their objects are
//!   free, and how the headers and free lists in memory spell that out.
//!   [`outcome`] says what each operation on it results in, and [`verdict`]
//!   what validation reports for any contents of memory.
//! - [`heap_model`] says what a heap is and what each operation on it
//!   results in.
//! - [`laws`] and [`heap_laws`] state what holds across operations: live
//!   objects are apart, keep their bytes, and can be freed. [`sharing`] is
//!   about caches and heaps on one page allocator, [`balance`] about giving
//!   back what was taken from it, and [`addresses`] about alignment and
//!   about memory that is never handed out.
//! - [`layout_facts`], [`cache_facts`], [`heap_facts`], [`validation_facts`]
//!   and [`arena_facts`] say what the operations come to without the words of
//!   the model: which object, which class, which block, which bytes.

pub use crate::arena::Arena;
pub use crate::cache::KmemCache;
pub use crate::cache::ObjectCache;
pub use crate::direct_map::DirectMap;
pub use crate::error::Error;
pub use crate::heap::KernelHeap;
pub use crate::layout::SlabLayout;
pub use crate::pages::PageAlloc;
pub use crate::pages::PhysMap;
pub use crate::zone::BuddyPages;
pub use crate::zone::Zone;

pub mod addresses;
pub mod arena;
pub mod arena_facts;
pub mod balance;
pub mod cache;
pub mod cache_facts;
pub mod direct_map;
pub mod error;
mod frame;
pub mod header;
pub mod heap;
pub mod heap_facts;
pub mod heap_laws;
pub mod heap_model;
pub mod heap_steps;
pub mod laws;
pub mod layout;
pub mod layout_facts;
pub mod lists;
pub mod memory;
pub mod model;
pub mod objects;
pub mod outcome;
pub mod pages;
pub mod sharing;
pub mod slabs;
pub mod steps;
pub mod validation_facts;
pub mod verdict;
pub mod zone;
