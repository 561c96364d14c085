//! What holds of the addresses that caches and heaps hand out.

use vstd::arithmetic::div_mod::lemma_fundamental_div_mod;
use vstd::arithmetic::div_mod::lemma_mod_multiples_basic;
use vstd::arithmetic::power2::is_pow2;
use vstd::arithmetic::power2::lemma2_to64;
use vstd::prelude::*;

use crate::arena::ArenaView;
use crate::error::Error;
use crate::header::header_bytes;
use crate::heap::CLASS_COUNT;
use crate::heap::LARGE_TAG_SIZE;
use crate::heap::SIZE_CLASSES;
use crate::heap_model::allocated;
use crate::heap_model::allocation_is_live;
use crate::heap_model::heap_alloc_outcome;
use crate::heap_model::layout_route;
use crate::heap_model::layout_route_is_the_smallest;
use crate::heap_model::lemma_allocation_home;
use crate::heap_model::lowbit;
use crate::heap_model::route_ok;
use crate::heap_model::routes_are_ok;
use crate::heap_model::HeapView;
use crate::heap_model::Route;
use crate::layout::lemma_block_bytes_ordered;
use crate::layout::lemma_block_is_pow2;
use crate::layout::lemma_pow2_divides;
use crate::layout::lemma_pow2_positive;
use crate::memory::lemma_word_fits;
use crate::model::CacheView;
use crate::objects::lemma_object_address;
use crate::pages::block_bytes;
use crate::pages::book_ok;
use crate::pages::Book;
use crate::pages::Mapping;
use crate::pages::PageAlloc;
use crate::zone::arena_book;

verus! {

/// A multiple of a multiple of `align` is one of `align`.
proof fn lemma_multiple_of(value: int, large: int, align: int)
    requires
        0 < align,
        0 < large,
        value % large == 0,
        large % align == 0,
    ensures
        value % align == 0,
{
    lemma_fundamental_div_mod(value, large);
    lemma_fundamental_div_mod(large, align);
    let q = value / large;
    let k = large / align;
    assert(value == (k * q) * align) by (nonlinear_arith)
        requires
            value == large * q,
            large == align * k,
    ;
    lemma_mod_multiples_basic(k * q, align);
}

/// The sum of two multiples is one.
proof fn lemma_sum_aligned(a: int, b: int, align: int)
    requires
        0 < align,
        a % align == 0,
        b % align == 0,
    ensures
        (a + b) % align == 0,
{
    lemma_fundamental_div_mod(a, align);
    lemma_fundamental_div_mod(b, align);
    let p = a / align;
    let q = b / align;
    assert(a + b == (p + q) * align) by (nonlinear_arith)
        requires
            a == align * p,
            b == align * q,
    ;
    lemma_mod_multiples_basic(p + q, align);
}

/// The objects of a cache are aligned in physical memory, and in virtual
/// memory where the mapping moves the slab by a multiple of the alignment.
pub proof fn objects_are_aligned(v: CacheView, map: Mapping, mem: Map<int, u8>, book: Book, b: int, ptr: int)
    requires
        v.initialized(),
        v.ok(map, mem, book),
        book_ok(map, mem, book),
        v.slabs.dom().contains(b),
        v.layout.on_grid(b, ptr),
    ensures
        map.to_phys[ptr] % (v.layout.align as int) == 0,
        (b - map.to_phys[b]) % (v.layout.align as int) == 0 ==> ptr % (v.layout.align as int) == 0,
{
    let l = v.layout;
    let align = l.align as int;
    let stride = l.stride as int;
    let bytes = l.slab_bytes as int;
    lemma_object_address(v, map, mem, book, b, ptr);
    lemma_pow2_positive(align);
    lemma_pow2_positive(bytes);
    let offset = ptr - b - l.first_offset;
    assert(offset % align == 0) by {
        lemma_multiple_of(offset, stride, align);
    }
    assert(align <= bytes) by {
        lemma_fundamental_div_mod(l.first_offset as int, align);
        let q = l.first_offset as int / align;
        assert(align <= l.first_offset) by (nonlinear_arith)
            requires
                l.first_offset == align * q,
                0 < l.first_offset,
                0 < align,
        ;
    }
    lemma_pow2_divides(align, bytes);
    lemma_multiple_of(map.to_phys[b], bytes, align);
    lemma_sum_aligned(offset, l.first_offset as int, align);
    lemma_sum_aligned(map.to_phys[b], ptr - b, align);
    if (b - map.to_phys[b]) % align == 0 {
        lemma_sum_aligned(map.to_phys[ptr], b - map.to_phys[b], align);
    }
}

/// The lowest bit of a power of two is the number itself, and those of the
/// intermediate sizes are 32 and 64.
pub proof fn natural_alignments()
    ensures
        lowbit(8) == 8,
        lowbit(16) == 16,
        lowbit(32) == 32,
        lowbit(64) == 64,
        lowbit(96) == 32,
        lowbit(128) == 128,
        lowbit(192) == 64,
        lowbit(256) == 256,
        lowbit(512) == 512,
        lowbit(1024) == 1024,
        lowbit(2048) == 2048,
        lowbit(4096) == 4096,
        lowbit(8192) == 8192,
{
    reveal_with_fuel(lowbit, 15);
}

/// The objects of a size class have the natural alignment of its size.
pub proof fn lemma_class_aligned(h: HeapView, book: Book, index: int)
    requires
        h.classes_ok(book),
        0 <= index < CLASS_COUNT,
        h.active[index],
        h.caches[index].layout.ok(header_bytes()),
    ensures
        h.caches[index].layout.align == lowbit(SIZE_CLASSES@[index] as int),
{
    natural_alignments();
    lemma_word_fits();
    let l = h.caches[index].layout;
    lemma2_to64();
    assert(l.stride <= l.objects * l.stride) by (nonlinear_arith)
        requires
            0 < l.objects,
            0 <= l.stride,
    ;
}

/// What a heap hands out for a size is aligned in physical memory to the
/// natural alignment of the class that serves it, or to the tag of a large
/// allocation.
pub proof fn allocations_are_naturally_aligned<PA: PageAlloc>(
    old: HeapView,
    new: HeapView,
    old_pages: PA,
    pages: PA,
    heres: Seq<usize>,
    size: int,
    way: Route,
    ptr: usize,
    except: Option<(int, int)>,
)
    requires
        old_pages.inv(),
        pages.inv(),
        old.ok(old_pages.mapping(), old_pages.mem(), old_pages.book()),
        new.ok(pages.mapping(), pages.mem(), pages.book()),
        route_ok(old, size, way),
        heap_alloc_outcome(old, new, old_pages, pages, heres, size, way, Ok(ptr), except),
    ensures
        ({
            let align = match way {
                Route::Class(index) => lowbit(SIZE_CLASSES@[index] as int),
                _ => LARGE_TAG_SIZE as int,
            };
            let phys = pages.mapping().to_phys[ptr as int];
            &&& phys % align == 0
            &&& (ptr - phys) % align == 0 ==> ptr as int % align == 0
            &&& way matches Route::Class(index) ==> align == old.caches[index].layout.align
        }),
{
    let map = pages.mapping();
    let book = pages.book();
    let mem = pages.mem();
    pages.book_in_order();
    let phys = map.to_phys[ptr as int];
    allocation_is_live(old, new, old_pages, pages, heres, size, way, ptr, except);
    natural_alignments();
    match way {
        Route::Class(index) => {
            let v = new.caches[index];
            objects_are_aligned(v, map, mem, book, v.current->0, ptr as int);
            lemma_class_aligned(old, old_pages.book(), index);
            let align = lowbit(SIZE_CLASSES@[index] as int);
            if (ptr - phys) % align == 0 {
                lemma_sum_aligned(phys, ptr - phys, align);
            }
        },
        _ => {
            let b = ptr - LARGE_TAG_SIZE;
            let tag = LARGE_TAG_SIZE as int;
            assert(new.large.contains(b));
            let block = map.to_phys[b];
            let order = book.blocks[block];
            lemma_block_is_pow2(book.page_size as int, order);
            assert(is_pow2(tag)) by {
                reveal_with_fuel(is_pow2, 6);
            }
            lemma_pow2_divides(tag, block_bytes(book.page_size as int, order));
            lemma_multiple_of(block, block_bytes(book.page_size as int, order), tag);
            lemma_sum_aligned(block, tag, tag);
            if (ptr - phys) % tag == 0 {
                lemma_sum_aligned(phys, ptr - phys, tag);
            }
        },
    }
}

/// What a heap hands out for a size and an alignment is aligned in physical
/// memory, and in virtual memory where the mapping moves it by a multiple of
/// the alignment.
pub proof fn layout_alignment_is_honored<PA: PageAlloc>(
    old: HeapView,
    new: HeapView,
    old_pages: PA,
    pages: PA,
    heres: Seq<usize>,
    size: int,
    align: int,
    ptr: usize,
    except: Option<(int, int)>,
)
    requires
        old_pages.inv(),
        pages.inv(),
        old.ok(old_pages.mapping(), old_pages.mem(), old_pages.book()),
        new.ok(pages.mapping(), pages.mem(), pages.book()),
        0 <= size,
        is_pow2(align),
        heap_alloc_outcome(
            old,
            new,
            old_pages,
            pages,
            heres,
            size,
            layout_route(old, size, align),
            Ok(ptr),
            except,
        ),
    ensures
        pages.mapping().to_phys[ptr as int] % align == 0,
        (ptr - pages.mapping().to_phys[ptr as int]) % align == 0 ==> ptr as int % align == 0,
{
    let way = layout_route(old, size, align);
    let phys = pages.mapping().to_phys[ptr as int];
    routes_are_ok(old, size, align);
    allocations_are_naturally_aligned(old, new, old_pages, pages, heres, size, way, ptr, except);
    lemma_pow2_positive(align);
    natural_alignments();
    let served = match way {
        Route::Class(index) => {
            layout_route_is_the_smallest(old, size, align);
            lowbit(SIZE_CLASSES@[index] as int)
        },
        _ => LARGE_TAG_SIZE as int,
    };
    assert(is_pow2(served)) by {
        reveal_with_fuel(is_pow2, 16);
    }
    lemma_pow2_divides(align, served);
    lemma_multiple_of(phys, served, align);
    if (ptr - phys) % align == 0 {
        lemma_sum_aligned(phys, ptr - phys, align);
    }
}

/// The page that holds the physical address `phys`.
pub open spec fn page_of(page_size: int, phys: int) -> int {
    phys - phys % page_size
}

/// The pages of a block that is out are known to the arena.
proof fn lemma_block_known(a: ArenaView, orders: usize, reserved: Set<int>, home: int, phys: int)
    requires
        a.ok(orders),
        a.unknown(reserved),
        a.blocks.dom().contains(home),
        home <= phys < home + block_bytes(a.page_size, a.blocks[home]),
    ensures
        !reserved.contains(page_of(a.page_size, phys)),
{
    let ps = a.page_size;
    let order = a.blocks[home];
    lemma_block_is_pow2(ps, order);
    lemma_block_is_pow2(ps, 0);
    lemma2_to64();
    lemma_block_bytes_ordered(ps, 0, order);
    lemma_pow2_divides(ps, block_bytes(ps, order));
    lemma_multiple_of(home, block_bytes(ps, order), ps);
    lemma_fundamental_div_mod(phys, ps);
    lemma_fundamental_div_mod(home, ps);
    let page = page_of(ps, phys);
    let q = phys / ps;
    let k = home / ps;
    lemma_mod_multiples_basic(q, ps);
    assert(page == q * ps) by (nonlinear_arith)
        requires
            page == phys - phys % ps,
            phys == ps * q + phys % ps,
    ;
    assert(home <= page) by (nonlinear_arith)
        requires
            home == ps * k,
            page == q * ps,
            home <= phys,
            phys < page + ps,
            0 < ps,
    ;
}

/// Memory that was never handed to the buddy allocator, such as what was
/// reserved during boot, is never part of an object.
pub proof fn reserved_memory_is_in_no_object(
    v: CacheView,
    map: Mapping,
    mem: Map<int, u8>,
    a: ArenaView,
    orders: usize,
    before_init: Error,
    reserved: Set<int>,
    b: int,
    ptr: int,
    p: int,
)
    requires
        v.initialized(),
        v.ok(map, mem, arena_book(a, orders, before_init)),
        book_ok(map, mem, arena_book(a, orders, before_init)),
        a.ok(orders),
        a.unknown(reserved),
        v.lives(b, ptr),
        ptr <= p < ptr + v.layout.stride,
    ensures
        !reserved.contains(page_of(a.page_size, map.to_phys[p])),
{
    let book = arena_book(a, orders, before_init);
    let home = map.to_phys[b];
    lemma_object_address(v, map, mem, book, b, ptr);
    lemma_block_known(a, orders, reserved, home, map.to_phys[p]);
}

/// Memory that was never handed to the buddy allocator, such as what was
/// reserved during boot, is never part of an allocation.
pub proof fn reserved_memory_is_in_no_allocation(
    h: HeapView,
    map: Mapping,
    mem: Map<int, u8>,
    a: ArenaView,
    orders: usize,
    before_init: Error,
    reserved: Set<int>,
    ptr: int,
    n: int,
    p: int,
)
    requires
        h.initialized,
        h.ok(map, mem, arena_book(a, orders, before_init)),
        book_ok(map, mem, arena_book(a, orders, before_init)),
        a.ok(orders),
        a.unknown(reserved),
        allocated(h, map, arena_book(a, orders, before_init), ptr, n),
        ptr <= p < ptr + n,
    ensures
        !reserved.contains(page_of(a.page_size, map.to_phys[p])),
{
    let book = arena_book(a, orders, before_init);
    let home = lemma_allocation_home(h, map, mem, book, ptr, n);
    lemma_block_known(a, orders, reserved, home, map.to_phys[p]);
}

} // verus!
