//! A linear mapping of physical memory.

use vstd::prelude::*;

use crate::error::Error;
use crate::frame::from_usize;
use crate::frame::try_to_usize;
use crate::pages::Book;
use crate::pages::Mapping;
use crate::pages::PhysMap;

verus! {

/// A linear mapping of the form `virt = virt_base + (phys - phys_base)`, with
/// the memory that it maps.
///
/// This is the shape of a kernel's direct map.
///
/// A mapping can be created empty with [`DirectMap::uninit`] and filled in
/// at boot with [`DirectMap::init`].
#[derive(Debug)]
pub struct DirectMap {
    phys_base: usize,
    virt_base: usize,
    initialized: bool,
    memory: Vec<u8>,
}

/// The state of a mapping.
#[verifier::ext_equal]
pub ghost struct DirectMapView {
    /// The first physical address.
    pub phys_base: int,
    /// The virtual address at which it is mapped.
    pub virt_base: int,
    /// A mapping has been supplied.
    pub initialized: bool,
    /// The mapped bytes.
    pub memory: Seq<u8>,
}

impl DirectMapView {
    /// The mapping before initialization.
    pub open spec fn none() -> DirectMapView {
        DirectMapView { phys_base: 0, virt_base: 0, initialized: false, memory: Seq::empty() }
    }

    /// The mapped bytes, by virtual address.
    pub open spec fn bytes(self) -> Map<int, u8> {
        Map::new(
            |p: int| self.virt_base <= p < self.virt_base + self.memory.len(),
            |p: int| self.memory[p - self.virt_base],
        )
    }

    /// The linear translation.
    pub open spec fn linear(self) -> Mapping {
        Mapping {
            to_virt: Map::new(
                |a: int|
                    self.initialized && self.phys_base <= a <= usize::MAX && self.virt_base + (a - self.phys_base)
                        <= usize::MAX,
                |a: int| self.virt_base + (a - self.phys_base),
            ),
            to_phys: Map::new(
                |p: int|
                    self.initialized && self.virt_base <= p <= usize::MAX && self.phys_base + (p - self.virt_base)
                        <= usize::MAX,
                |p: int| self.phys_base + (p - self.virt_base),
            ),
        }
    }
}

/// The book of a mapping without a page allocator.
pub open spec fn no_book() -> Book {
    Book {
        page_size: 0,
        max_order: 0,
        managed: Set::empty(),
        blocks: Map::empty(),
        refused: Map::new(|order: u8| true, |order: u8| Error::Uninitialized),
        stuck: Map::empty(),
        unknown: Error::Uninitialized,
    }
}

impl View for DirectMap {
    type V = DirectMapView;

    closed spec fn view(&self) -> DirectMapView {
        DirectMapView {
            phys_base: self.phys_base as int,
            virt_base: self.virt_base as int,
            initialized: self.initialized,
            memory: self.memory@,
        }
    }
}

impl DirectMap {
    /// A placeholder.
    ///
    /// The placeholder must not be used for address translation before
    /// [`DirectMap::init`] runs.
    pub fn uninit() -> (map: Self)
        ensures
            map@ == DirectMapView::none(),
            map.inv(),
    {
        DirectMap { phys_base: 0, virt_base: 0, initialized: false, memory: Vec::new() }
    }

    /// Creates a mapping of `memory`, whose first byte has the physical
    /// address `phys_base` and the virtual address `virt_base`.
    pub fn new(phys_base: usize, virt_base: usize, memory: Vec<u8>) -> (map: Self)
        requires
            virt_base + memory@.len() <= usize::MAX,
        ensures
            map@ == (DirectMapView {
                phys_base: phys_base as int,
                virt_base: virt_base as int,
                initialized: true,
                memory: memory@,
            }),
            map.inv(),
    {
        DirectMap { phys_base, virt_base, initialized: true, memory }
    }

    /// Initializes a placeholder created by [`DirectMap::uninit`].
    pub fn init(&mut self, phys_base: usize, virt_base: usize, memory: Vec<u8>)
        requires
            virt_base + memory@.len() <= usize::MAX,
        ensures
            final(self)@ == (DirectMapView {
                phys_base: phys_base as int,
                virt_base: virt_base as int,
                initialized: true,
                memory: memory@,
            }),
            final(self).inv(),
    {
        *self = Self::new(phys_base, virt_base, memory);
    }

    /// Returns `true` once a mapping has been supplied.
    pub fn is_initialized(&self) -> (initialized: bool)
        ensures
            initialized == self@.initialized,
    {
        self.initialized
    }

    /// Returns the physical address the mapping starts at.
    pub fn phys_base(&self) -> (addr: usize)
        ensures
            addr == self@.phys_base,
    {
        self.phys_base
    }
}

impl PhysMap for DirectMap {
    open spec fn mem(&self) -> Map<int, u8> {
        self@.bytes()
    }

    open spec fn mapping(&self) -> Mapping {
        self@.linear()
    }

    open spec fn book(&self) -> Book {
        no_book()
    }

    open spec fn inv(&self) -> bool {
        self@.virt_base + self@.memory.len() <= usize::MAX
    }

    proof fn book_in_order(&self) {
    }

    fn phys_to_virt(&self, addr: usize) -> (virt: usize) {
        let offset: usize = try_to_usize(addr - self.phys_base).unwrap();
        self.virt_base + offset
    }

    fn virt_to_phys(&self, ptr: usize) -> (phys: usize) {
        let offset: usize = ptr - self.virt_base;
        self.phys_base + from_usize(offset)
    }

    fn load(&self, ptr: usize) -> (byte: u8) {
        self.memory[ptr - self.virt_base]
    }

    fn store(&mut self, ptr: usize, byte: u8)
        ensures
            final(self)@ == (DirectMapView {
                memory: old(self)@.memory.update(ptr - old(self)@.virt_base, byte),
                ..old(self)@
            }),
    {
        let index: usize = ptr - self.virt_base;
        self.memory.set(index, byte);
        assert(self@.bytes() =~= old(self)@.bytes().insert(ptr as int, byte));
        assert(self@.linear() == old(self)@.linear());
    }
}

/// Translating a physical address and back gives the same address.
pub proof fn direct_map_round_trips(v: DirectMapView, addr: int)
    requires
        v.linear().to_virt.dom().contains(addr),
    ensures
        v.linear().to_phys.dom().contains(v.linear().to_virt[addr]),
        v.linear().to_phys[v.linear().to_virt[addr]] == addr,
{
}

/// Translating a virtual address and back gives the same address.
pub proof fn direct_map_round_trips_back(v: DirectMapView, ptr: int)
    requires
        v.linear().to_phys.dom().contains(ptr),
    ensures
        v.linear().to_virt.dom().contains(v.linear().to_phys[ptr]),
        v.linear().to_virt[v.linear().to_phys[ptr]] == ptr,
{
}

} // verus!
