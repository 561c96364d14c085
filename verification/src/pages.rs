//! The page allocator and address mapping abstractions.
//!
//! A slab cache never touches the buddy allocator directly: it asks a
//! [`PageAlloc`] for naturally aligned blocks of `2^order` pages, maps the
//! returned addresses through a [`PhysMap`], and reaches the mapped bytes
//! through the same [`PhysMap`].

use vstd::arithmetic::power2::pow2;
use vstd::prelude::*;

use crate::error::Error;

verus! {

/// How physical and virtual addresses correspond.
pub ghost struct Mapping {
    /// The virtual address of each physical address that can be translated.
    pub to_virt: Map<int, int>,
    /// The physical address of each virtual address that can be translated.
    pub to_phys: Map<int, int>,
}

/// The bytes that can be accessed, by virtual address.
pub type Bytes = Map<int, u8>;

/// What a page allocator knows about its pages.
pub ghost struct Book {
    /// The page size in bytes, whatever the allocator reports.
    pub page_size: usize,
    /// The largest order the allocator serves.
    pub max_order: u8,
    /// The pages that the allocator manages, by physical address: those that
    /// are free and those of the blocks that are handed out.
    pub managed: Set<int>,
    /// The blocks that are handed out: physical address to order.
    pub blocks: Map<int, u8>,
    /// The orders that cannot be served at the moment, and with which error.
    pub refused: Map<u8, Error>,
    /// The blocks that the allocator would not take back, and with which
    /// error.
    pub stuck: Map<int, Error>,
    /// What the allocator answers to an address that is no block.
    pub unknown: Error,
}

/// The number of bytes in a block of `order`.
pub open spec fn block_bytes(page_size: int, order: u8) -> int {
    page_size * pow2(order as nat)
}

/// The pages of the block at `addr`.
pub open spec fn block_pages(page_size: int, addr: int, order: u8) -> Set<int> {
    Set::new(|p: int| addr <= p < addr + block_bytes(page_size, order) && p % page_size == 0)
}

/// The pages of the blocks that are handed out.
pub open spec fn pages_out(book: Book) -> Set<int> {
    Set::new(
        |p: int|
            exists|a: int| #[trigger]
                book.blocks.dom().contains(a) && block_pages(book.page_size as int, a, book.blocks[a]).contains(p),
    )
}

/// The pages that are free.
pub open spec fn pages_free(book: Book) -> Set<int> {
    book.managed.difference(pages_out(book))
}

/// The block at physical address `addr` is naturally aligned, and mapped to
/// consecutive, accessible, non-null virtual addresses.
pub open spec fn block_ok(map: Mapping, mem: Map<int, u8>, page_size: int, addr: int, order: u8) -> bool {
    let bytes = block_bytes(page_size, order);
    let virt = map.to_virt[addr];
    &&& 0 <= addr
    &&& 0 < bytes
    &&& addr + bytes <= usize::MAX
    &&& addr % bytes == 0
    &&& 0 < virt
    &&& virt + bytes <= usize::MAX
    &&& forall|i: int| #![trigger map.to_virt[addr + i]]
        0 <= i < bytes ==> map.to_virt.dom().contains(addr + i) && map.to_virt[addr + i] == virt + i
    &&& forall|p: int| #![trigger map.to_phys[p]] #![trigger map.to_phys.dom().contains(p)] #![trigger mem.dom().contains(p)]
        virt <= p < virt + bytes ==> {
            &&& map.to_phys.dom().contains(p)
            &&& map.to_phys[p] == addr + (p - virt)
            &&& mem.dom().contains(p)
        }
}

/// Every block handed out is usable, and no two of them overlap.
pub open spec fn book_ok(map: Mapping, mem: Map<int, u8>, book: Book) -> bool {
    &&& forall|a: int| #[trigger] book.blocks.dom().contains(a)
        ==> block_ok(map, mem, book.page_size as int, a, book.blocks[a]) && book.blocks[a] <= book.max_order
    &&& forall|a: int, b: int| #![trigger book.blocks.dom().contains(a), book.blocks.dom().contains(b)]
        book.blocks.dom().contains(a) && book.blocks.dom().contains(b) && a != b ==> {
            ||| map.to_virt[a] + block_bytes(book.page_size as int, book.blocks[a]) <= map.to_virt[b]
            ||| map.to_virt[b] + block_bytes(book.page_size as int, book.blocks[b]) <= map.to_virt[a]
        }
}

/// The bytes of every block in `blocks` are the same in `before` and `after`.
pub open spec fn kept(map: Mapping, page_size: int, blocks: Map<int, u8>, before: Map<int, u8>, after: Map<int, u8>) -> bool {
    forall|a: int, p: int| #![trigger blocks.dom().contains(a), after[p]]
        blocks.dom().contains(a) && map.to_virt[a] <= p < map.to_virt[a] + block_bytes(page_size, blocks[a])
            ==> after[p] == before[p]
}

/// A block that is out and can be given back stays so.
pub open spec fn no_new_stuck(old_book: Book, book: Book) -> bool {
    forall|a: int| #[trigger] book.stuck.dom().contains(a) && old_book.blocks.dom().contains(a)
        && book.blocks.dom().contains(a) ==> old_book.stuck.dom().contains(a) && book.stuck[a] == old_book.stuck[a]
}

/// Translates between physical addresses and the address space the
/// allocator accesses memory through, and gives access to that memory.
pub trait PhysMap {
    /// The accessible bytes, by virtual address.
    spec fn mem(&self) -> Bytes;

    /// The address translation.
    spec fn mapping(&self) -> Mapping;

    /// What the page allocator behind the mapping knows, if there is one.
    spec fn book(&self) -> Book;

    /// The representation is in order.
    spec fn inv(&self) -> bool;

    /// A representation that is in order has a book that is in order.
    proof fn book_in_order(&self)
        requires
            self.inv(),
        ensures
            book_ok(self.mapping(), self.mem(), self.book()),
    ;

    /// Returns the address at which `addr` is readable and writable.
    ///
    /// The mapping preserves byte offsets inside each page block, because a
    /// slab lays its objects out physically.
    fn phys_to_virt(&self, addr: usize) -> (virt: usize)
        requires
            self.inv(),
            self.mapping().to_virt.dom().contains(addr as int),
        ensures
            virt == self.mapping().to_virt[addr as int],
    ;

    /// Inverse of [`PhysMap::phys_to_virt`].
    fn virt_to_phys(&self, ptr: usize) -> (phys: usize)
        requires
            self.inv(),
            self.mapping().to_phys.dom().contains(ptr as int),
        ensures
            phys == self.mapping().to_phys[ptr as int],
    ;

    /// Reads the byte at virtual address `ptr`.
    fn load(&self, ptr: usize) -> (byte: u8)
        requires
            self.inv(),
            self.mem().dom().contains(ptr as int),
        ensures
            byte == self.mem()[ptr as int],
    ;

    /// Writes the byte at virtual address `ptr`.
    fn store(&mut self, ptr: usize, byte: u8)
        requires
            old(self).inv(),
            old(self).mem().dom().contains(ptr as int),
        ensures
            final(self).inv(),
            final(self).mem() == old(self).mem().insert(ptr as int, byte),
            final(self).mapping() == old(self).mapping(),
            final(self).book() == old(self).book(),
    ;
}

/// A page allocator handing out naturally aligned blocks of `2^order`
/// pages.
pub trait PageAlloc: PhysMap {
    /// Returns the page size in bytes.
    fn page_size(&self) -> (bytes: usize)
        requires
            self.inv(),
        ensures
            bytes == self.book().page_size,
    ;

    /// Returns the largest order [`PageAlloc::alloc_pages`] accepts.
    fn max_order(&self) -> (order: u8)
        requires
            self.inv(),
        ensures
            order == self.book().max_order,
    ;

    /// Allocates `2^order` contiguous, block-aligned pages.
    ///
    /// The bytes of the blocks that are already out stay as they are.
    fn alloc_pages(&mut self, order: u8) -> (result: Result<usize, Error>)
        requires
            old(self).inv(),
        ensures
            final(self).inv(),
            final(self).mapping() == old(self).mapping(),
            final(self).mem().dom() == old(self).mem().dom(),
            final(self).book().page_size == old(self).book().page_size,
            final(self).book().max_order == old(self).book().max_order,
            final(self).book().managed == old(self).book().managed,
            no_new_stuck(old(self).book(), final(self).book()),
            kept(
                old(self).mapping(),
                old(self).book().page_size as int,
                old(self).book().blocks,
                old(self).mem(),
                final(self).mem(),
            ),
            match result {
                Ok(addr) => {
                    &&& !old(self).book().refused.dom().contains(order)
                    &&& !old(self).book().blocks.dom().contains(addr as int)
                    &&& final(self).book().blocks == old(self).book().blocks.insert(addr as int, order)
                },
                Err(error) => {
                    &&& old(self).book().refused.dom().contains(order)
                    &&& old(self).book().refused[order] == error
                    &&& final(self).book().blocks == old(self).book().blocks
                },
            },
    ;

    /// Returns a block previously handed out by
    /// [`PageAlloc::alloc_pages`] with the same order.
    ///
    /// The bytes of the blocks that stay out stay as they are. An address
    /// that is no block in use is refused.
    fn free_pages(&mut self, addr: usize, order: u8) -> (result: Result<(), Error>)
        requires
            old(self).inv(),
            old(self).book().blocks.dom().contains(addr as int) ==> old(self).book().blocks[addr as int] == order,
        ensures
            final(self).inv(),
            final(self).mapping() == old(self).mapping(),
            final(self).mem().dom() == old(self).mem().dom(),
            final(self).book().page_size == old(self).book().page_size,
            final(self).book().max_order == old(self).book().max_order,
            final(self).book().managed == old(self).book().managed,
            no_new_stuck(old(self).book(), final(self).book()),
            kept(
                old(self).mapping(),
                old(self).book().page_size as int,
                final(self).book().blocks,
                old(self).mem(),
                final(self).mem(),
            ),
            match result {
                Ok(()) => {
                    &&& old(self).book().blocks.dom().contains(addr as int)
                    &&& !old(self).book().stuck.dom().contains(addr as int)
                    &&& final(self).book().blocks == old(self).book().blocks.remove(addr as int)
                },
                Err(error) => {
                    &&& if old(self).book().blocks.dom().contains(addr as int) {
                        &&& old(self).book().stuck.dom().contains(addr as int)
                        &&& old(self).book().stuck[addr as int] == error
                    } else {
                        old(self).book().unknown == error
                    }
                    &&& final(self).book().blocks == old(self).book().blocks
                },
            },
    ;
}

} // verus!
