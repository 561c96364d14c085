//! The per-slab metadata stored at the start of every slab block.

use vstd::prelude::*;

use crate::memory::accessible;
use crate::memory::lemma_number_bound;
use crate::memory::lemma_number_same;
use crate::memory::lemma_word_fits;
use crate::memory::lemma_word_same;
use crate::memory::load_number;
use crate::memory::load_word;
use crate::memory::number_at;
use crate::memory::pointer_at;
use crate::memory::pow256;
use crate::memory::same_but;
use crate::memory::same_bytes;
use crate::memory::store_number;
use crate::memory::store_word;
use crate::memory::word_at;
use crate::memory::word_bytes;
use crate::memory::word_size;
use crate::pages::PhysMap;

verus! {

/// Magic written into every slab header and checked by `free` and
/// `validate`.
pub const SLAB_MAGIC: u32 = 0x5AB0_9001;

/// Offset of the magic in a slab header.
///
/// The magic comes first: the kernel heap reads the first word of the page
/// that contains a pointer to tell a slab from a large allocation.
pub const MAGIC_OFFSET: usize = 0;

/// Offset of the order in a slab header.
pub const ORDER_OFFSET: usize = 4;

/// Offset of the partial list mark in a slab header.
pub const ON_PARTIAL_OFFSET: usize = 5;

/// Offset of the kind of objects in a slab header.
pub const KIND_OFFSET: usize = 6;

/// Offset of the first machine word in a slab header.
pub const WORDS_OFFSET: usize = 8;

/// The metadata of one slab, kept in the first bytes of its block.
#[derive(Debug, Clone, Copy, PartialEq, Eq)]
pub struct SlabHeader {
    /// Magic checked by `free` and `validate`.
    pub magic: u32,
    /// Order of the block.
    pub order: u8,
    /// `true` while the slab is linked into the cache's partial list.
    pub on_partial: bool,
    /// Kind of the objects: the low bits of their size.
    pub kind: u16,
    /// Identity of the owning cache; lets `free` reject pointers passed to
    /// the wrong cache.
    pub owner: usize,
    /// Number of objects currently handed out.
    pub inuse: usize,
    /// Number of objects in the block.
    pub objects: usize,
    /// Head of the in-object free list.
    pub freelist: Option<usize>,
    /// Next slab in the partial list.
    pub next: Option<usize>,
    /// Previous slab in the partial list.
    pub prev: Option<usize>,
}

/// The number of bytes a slab header takes.
pub open spec fn header_bytes() -> int {
    WORDS_OFFSET + 6 * word_bytes()
}

/// The slab header at `slab`.
pub open spec fn header_at(mem: Map<int, u8>, slab: int) -> SlabHeader {
    SlabHeader {
        magic: number_at(mem, slab + MAGIC_OFFSET, 4) as u32,
        order: mem[slab + ORDER_OFFSET],
        on_partial: mem[slab + ON_PARTIAL_OFFSET] != 0,
        kind: number_at(mem, slab + KIND_OFFSET, 2) as u16,
        owner: word_at(mem, slab + WORDS_OFFSET),
        inuse: word_at(mem, slab + WORDS_OFFSET + word_bytes()),
        objects: word_at(mem, slab + WORDS_OFFSET + 2 * word_bytes()),
        freelist: pointer_at(mem, slab + WORDS_OFFSET + 3 * word_bytes()),
        next: pointer_at(mem, slab + WORDS_OFFSET + 4 * word_bytes()),
        prev: pointer_at(mem, slab + WORDS_OFFSET + 5 * word_bytes()),
    }
}

/// A header is the same where its bytes are.
pub proof fn lemma_header_same(before: Map<int, u8>, after: Map<int, u8>, slab: int)
    requires
        same_bytes(before, after, slab, header_bytes()),
    ensures
        header_at(after, slab) == header_at(before, slab),
{
    lemma_word_fits();
    lemma_number_same(before, after, slab + MAGIC_OFFSET, 4);
    lemma_number_same(before, after, slab + KIND_OFFSET, 2);
    lemma_word_same(before, after, slab + WORDS_OFFSET);
    lemma_word_same(before, after, slab + WORDS_OFFSET + word_bytes());
    lemma_word_same(before, after, slab + WORDS_OFFSET + 2 * word_bytes());
    lemma_word_same(before, after, slab + WORDS_OFFSET + 3 * word_bytes());
    lemma_word_same(before, after, slab + WORDS_OFFSET + 4 * word_bytes());
    lemma_word_same(before, after, slab + WORDS_OFFSET + 5 * word_bytes());
    assert(after[slab + ORDER_OFFSET] == before[slab + ORDER_OFFSET]);
    assert(after[slab + ON_PARTIAL_OFFSET] == before[slab + ON_PARTIAL_OFFSET]);
}

/// Returns the number of bytes a slab header takes.
pub fn header_size() -> (bytes: usize)
    ensures
        bytes == header_bytes(),
        bytes == 32 || bytes == 56,
{
    WORDS_OFFSET + 6 * word_size()
}

fn pointer_of(word: usize) -> (pointer: Option<usize>)
    ensures
        pointer == (if word == 0 { None } else { Some(word) }),
{
    if word == 0 {
        None
    } else {
        Some(word)
    }
}

fn word_of(pointer: Option<usize>) -> (word: usize)
    ensures
        word == (match pointer { Some(p) => p, None => 0 }),
{
    match pointer {
        Some(p) => p,
        None => 0,
    }
}

/// Reads the magic at `ptr`.
pub fn load_magic<M: PhysMap>(map: &M, ptr: usize) -> (magic: u32)
    requires
        map.inv(),
        ptr + 4 <= usize::MAX,
        accessible(map.mem(), ptr as int, 4),
    ensures
        magic == number_at(map.mem(), ptr as int, 4),
{
    let value: u64 = load_number(map, ptr, 4);
    proof {
        lemma_word_fits();
        lemma_number_bound(map.mem(), ptr as int, 4);
    }
    value as u32
}

/// Reads the kind of objects at `ptr`.
fn load_kind<M: PhysMap>(map: &M, ptr: usize) -> (kind: u16)
    requires
        map.inv(),
        ptr + 2 <= usize::MAX,
        accessible(map.mem(), ptr as int, 2),
    ensures
        kind == number_at(map.mem(), ptr as int, 2),
{
    let value: u64 = load_number(map, ptr, 2);
    proof {
        lemma_number_bound(map.mem(), ptr as int, 2);
        reveal_with_fuel(pow256, 3);
    }
    value as u16
}

/// Reads the slab header at `slab`.
pub fn load_header<M: PhysMap>(map: &M, slab: usize) -> (header: SlabHeader)
    requires
        map.inv(),
        slab + header_bytes() <= usize::MAX,
        accessible(map.mem(), slab as int, header_bytes()),
    ensures
        header == header_at(map.mem(), slab as int),
{
    let w: usize = word_size();
    SlabHeader {
        magic: load_magic(map, slab + MAGIC_OFFSET),
        order: map.load(slab + ORDER_OFFSET),
        on_partial: map.load(slab + ON_PARTIAL_OFFSET) != 0,
        kind: load_kind(map, slab + KIND_OFFSET),
        owner: load_word(map, slab + WORDS_OFFSET),
        inuse: load_word(map, slab + WORDS_OFFSET + w),
        objects: load_word(map, slab + WORDS_OFFSET + 2 * w),
        freelist: pointer_of(load_word(map, slab + WORDS_OFFSET + 3 * w)),
        next: pointer_of(load_word(map, slab + WORDS_OFFSET + 4 * w)),
        prev: pointer_of(load_word(map, slab + WORDS_OFFSET + 5 * w)),
    }
}

/// Writes the slab header at `slab`.
pub fn store_header<M: PhysMap>(map: &mut M, slab: usize, header: SlabHeader)
    requires
        old(map).inv(),
        slab + header_bytes() <= usize::MAX,
        accessible(old(map).mem(), slab as int, header_bytes()),
        header.freelist != Some(0usize),
        header.next != Some(0usize),
        header.prev != Some(0usize),
    ensures
        final(map).inv(),
        final(map).mapping() == old(map).mapping(),
        final(map).book() == old(map).book(),
        same_but(old(map).mem(), final(map).mem(), slab as int, header_bytes()),
        header_at(final(map).mem(), slab as int) == header,
{
    let w: usize = word_size();
    proof {
        lemma_word_fits();
    }
    store_number(map, slab + MAGIC_OFFSET, 4, header.magic as u64);
    let ghost m1 = map.mem();
    map.store(slab + ORDER_OFFSET, header.order);
    let ghost m2 = map.mem();
    let mark: u8 = if header.on_partial { 1 } else { 0 };
    map.store(slab + ON_PARTIAL_OFFSET, mark);
    let ghost m3 = map.mem();
    assert(m3.dom() =~= m1.dom());
    store_number(map, slab + KIND_OFFSET, 2, header.kind as u64);
    let ghost mk = map.mem();
    proof {
        reveal_with_fuel(pow256, 3);
    }
    store_word(map, slab + WORDS_OFFSET, header.owner);
    let ghost m4 = map.mem();
    store_word(map, slab + WORDS_OFFSET + w, header.inuse);
    let ghost m5 = map.mem();
    store_word(map, slab + WORDS_OFFSET + 2 * w, header.objects);
    let ghost m6 = map.mem();
    store_word(map, slab + WORDS_OFFSET + 3 * w, word_of(header.freelist));
    let ghost m7 = map.mem();
    store_word(map, slab + WORDS_OFFSET + 4 * w, word_of(header.next));
    let ghost m8 = map.mem();
    store_word(map, slab + WORDS_OFFSET + 5 * w, word_of(header.prev));
    let ghost m9 = map.mem();
    proof {
        let base = slab + WORDS_OFFSET;
        lemma_number_same(m1, m9, slab + MAGIC_OFFSET, 4);
        lemma_number_same(mk, m9, slab + KIND_OFFSET, 2);
        lemma_word_same(m4, m9, base);
        lemma_word_same(m5, m9, base + w);
        lemma_word_same(m6, m9, base + 2 * w);
        lemma_word_same(m7, m9, base + 3 * w);
        lemma_word_same(m8, m9, base + 4 * w);
        assert(m9[slab + ORDER_OFFSET] == m2[slab + ORDER_OFFSET]);
        assert(m9[slab + ON_PARTIAL_OFFSET] == m3[slab + ON_PARTIAL_OFFSET]);
        assert(m9.dom() =~= old(map).mem().dom());
    }
}

/// Writes the free list pointer into a free object.
pub fn set_freepointer<M: PhysMap>(map: &mut M, object: usize, next: Option<usize>)
    requires
        old(map).inv(),
        object + word_bytes() <= usize::MAX,
        accessible(old(map).mem(), object as int, word_bytes()),
        next != Some(0usize),
    ensures
        final(map).inv(),
        final(map).mapping() == old(map).mapping(),
        final(map).book() == old(map).book(),
        same_but(old(map).mem(), final(map).mem(), object as int, word_bytes()),
        pointer_at(final(map).mem(), object as int) == next,
{
    store_word(map, object, word_of(next));
}

/// Reads the free list pointer from a free object.
pub fn get_freepointer<M: PhysMap>(map: &M, object: usize) -> (next: Option<usize>)
    requires
        map.inv(),
        object + word_bytes() <= usize::MAX,
        accessible(map.mem(), object as int, word_bytes()),
    ensures
        next == pointer_at(map.mem(), object as int),
{
    pointer_of(load_word(map, object))
}

} // verus!
