//! What a buddy allocator and a linear mapping come to, said of pages and
//! bytes.

use the_buddy_system::Error as BuddyError;
use vstd::arithmetic::div_mod::lemma_fundamental_div_mod;
use vstd::arithmetic::div_mod::lemma_mod_multiples_vanish;
use vstd::arithmetic::power2::is_pow2;
use vstd::arithmetic::power2::pow2;
use vstd::prelude::*;
use vstd::set_lib::lemma_set_difference_len;
use vstd::set_lib::lemma_set_disjoint_lens;

use crate::arena::arena_error;
use crate::arena::lemma_block_pages_aligned;
use crate::arena::mapped_error;
use crate::arena::refusal;
use crate::arena::ArenaView;
use crate::direct_map::DirectMapView;
use crate::error::Error;
use crate::layout::lemma_block_bytes_ordered;
use crate::pages::block_pages;
use crate::zone::arena_book;
use crate::zone::init_zone;
use crate::zone::mappable;

verus! {

/// The pages of a range of `n` pages at `addr`.
pub open spec fn pages_from(page_size: int, addr: int, n: int) -> Set<int> {
    Set::new(|p: int| addr <= p < addr + page_size * n && p % page_size == 0)
}

/// A range of `n` pages has `n` pages.
proof fn lemma_pages_from(page_size: int, addr: int, n: nat)
    requires
        0 < page_size,
        addr % page_size == 0,
    ensures
        pages_from(page_size, addr, n as int).finite(),
        pages_from(page_size, addr, n as int).len() == n,
    decreases n,
{
    let all = pages_from(page_size, addr, n as int);
    if n == 0 {
        assert(page_size * 0 == 0);
        assert(all =~= Set::<int>::empty());
    } else {
        let less = n - 1;
        let rest = pages_from(page_size, addr, less);
        lemma_pages_from(page_size, addr, less as nat);
        let last = addr + page_size * less;
        assert(page_size * n == page_size * less + page_size) by (nonlinear_arith)
            requires
                less == n - 1,
        ;
        lemma_mod_multiples_vanish(less, addr, page_size);
        assert forall|p: int| all.contains(p) implies rest.insert(last).contains(p) by {
            if last <= p {
                lemma_fundamental_div_mod(p, page_size);
                lemma_fundamental_div_mod(last, page_size);
                let i = p / page_size;
                let j = last / page_size;
                assert(i == j) by (nonlinear_arith)
                    requires
                        p == page_size * i,
                        last == page_size * j,
                        last <= p < last + page_size,
                        0 < page_size,
                ;
            }
        }
        assert forall|p: int| rest.insert(last).contains(p) implies all.contains(p) by {
            assert(0 <= page_size * less) by (nonlinear_arith)
                requires
                    0 < page_size,
                    0 <= less,
            ;
        }
        assert(all =~= rest.insert(last));
    }
}

/// A block of an order has two to the order pages.
pub proof fn blocks_have_as_many_pages_as_their_order_says(page_size: int, addr: int, order: u8)
    requires
        0 < page_size,
        addr % page_size == 0,
    ensures
        block_pages(page_size, addr, order).finite(),
        block_pages(page_size, addr, order).len() == pow2(order as nat),
        forall|p: int| #[trigger] block_pages(page_size, addr, order).contains(p) <==> addr <= p < addr + page_size
            * pow2(order as nat) && p % page_size == 0,
{
    lemma_pages_from(page_size, addr, pow2(order as nat));
    assert(block_pages(page_size, addr, order) =~= pages_from(page_size, addr, pow2(order as nat) as int));
}

/// An allocator hands out a block wherever it has one: where all the pages of
/// a place in the arena that is aligned to the block size are free, the order
/// is not refused.
pub proof fn free_blocks_can_be_handed_out(orders: usize, v: ArenaView, order: u8, addr: int)
    requires
        v.ok(orders),
        v.initialized,
        order < orders,
        v.base <= addr,
        addr % (v.page_size * pow2(order as nat)) == 0,
        addr + v.page_size * pow2(order as nat) <= v.base + v.nr_pages * v.page_size,
        forall|p: int|
            addr <= p < addr + v.page_size * pow2(order as nat) && p % v.page_size == 0 ==> #[trigger] v.free.contains(p),
    ensures
        refusal(orders, v, order) is None,
{
    lemma_block_bytes_ordered(v.page_size, order, order);
    assert(v.block_free(addr, order));
}

/// Why an order is refused: before initialization and above the largest order
/// it is not served at all; otherwise there is no place for it.
pub proof fn orders_are_refused_for_a_reason(orders: usize, v: ArenaView, order: u8, addr: int)
    ensures
        refusal(orders, v, order) == Some(Error::PageAlloc) <==> !v.initialized || orders <= order,
        refusal(orders, v, order) is Some ==> refusal(orders, v, order) == Some(Error::PageAlloc) || refusal(
            orders,
            v,
            order,
        ) == Some(Error::OutOfMemory),
        refusal(orders, v, order) == Some(Error::OutOfMemory) && v.base <= addr && 0 < v.page_size && addr % (v.page_size
            * pow2(order as nat)) == 0 && addr + v.page_size * pow2(order as nat) <= v.base + v.nr_pages * v.page_size
            ==> exists|p: int|
            addr <= p < addr + v.page_size * pow2(order as nat) && p % v.page_size == 0 && !#[trigger] v.free.contains(p),
{
    if 0 < v.page_size {
        lemma_block_bytes_ordered(v.page_size, order, order);
    }
    if refusal(orders, v, order) == Some(Error::OutOfMemory) {
        assert(!v.block_free(addr, order));
        if v.holds(addr, order) {
            let pages = block_pages(v.page_size, addr, order);
            assert(!pages.subset_of(v.free));
            let p = choose|p: int| pages.contains(p) && !v.free.contains(p);
            assert(!v.free.contains(p));
        }
    }
}

/// What is handed out: a place in the arena that is aligned to the block size,
/// whose pages were free and are no more. There are as many free pages less as
/// the order says.
pub proof fn handing_out_takes_free_pages(orders: usize, v: ArenaView, addr: int, order: u8)
    requires
        v.ok(orders),
        v.initialized,
        order < orders,
        v.block_free(addr, order),
    ensures
        v.base <= addr,
        addr % (v.page_size * pow2(order as nat)) == 0,
        addr + v.page_size * pow2(order as nat) <= v.base + v.nr_pages * v.page_size,
        ({
            let new = v.with_block(addr, order);
            let end = addr + v.page_size * pow2(order as nat);
            &&& forall|p: int| addr <= p < end && p % v.page_size == 0 ==> #[trigger] v.free.contains(p)
            &&& forall|p: int| #[trigger]
                new.free.contains(p) <==> v.free.contains(p) && !(addr <= p < end && p % v.page_size == 0)
            &&& new.free.len() + pow2(order as nat) == v.free.len()
            &&& new.blocks == v.blocks.insert(addr, order)
            &&& new.base == v.base
            &&& new.nr_pages == v.nr_pages
            &&& new.page_size == v.page_size
            &&& new.initialized
        }),
{
    let pages = block_pages(v.page_size, addr, order);
    lemma_block_pages_aligned(v.page_size, addr, order);
    blocks_have_as_many_pages_as_their_order_says(v.page_size, addr, order);
    assert(pages.subset_of(v.free));
    assert(v.free.intersect(pages) =~= pages);
    lemma_set_difference_len(v.free, pages);
}

/// What is taken back: the pages of the block are free, and no others.
pub proof fn taking_back_frees_the_pages_of_the_block(orders: usize, v: ArenaView, addr: int)
    requires
        v.ok(orders),
        v.initialized,
        v.blocks.dom().contains(addr),
    ensures
        ({
            let new = v.without_block(addr);
            let order = v.blocks[addr];
            let end = addr + v.page_size * pow2(order as nat);
            &&& forall|p: int| #[trigger]
                new.free.contains(p) <==> v.free.contains(p) || (addr <= p < end && p % v.page_size == 0)
            &&& new.free.len() == v.free.len() + pow2(order as nat)
            &&& new.blocks == v.blocks.remove(addr)
            &&& new.base == v.base
            &&& new.nr_pages == v.nr_pages
            &&& new.page_size == v.page_size
            &&& new.initialized
        }),
{
    let order = v.blocks[addr];
    let pages = block_pages(v.page_size, addr, order);
    lemma_block_pages_aligned(v.page_size, addr, order);
    blocks_have_as_many_pages_as_their_order_says(v.page_size, addr, order);
    lemma_set_disjoint_lens(v.free, pages);
}

/// The pages that a range makes free are the whole pages of the arena in it.
pub proof fn ranges_free_their_whole_pages(v: ArenaView, start: int, end: int, p: int)
    ensures
        v.pages_between(start, end).contains(p) <==> {
            &&& p % v.page_size == 0
            &&& start <= p
            &&& p + v.page_size <= end
            &&& v.base <= p
            &&& p + v.page_size <= v.base + v.nr_pages * v.page_size
        },
{
}

/// Ranges make free what each of them does.
pub proof fn ranges_free_what_each_of_them_does(v: ArenaView, ranges: Seq<(usize, usize)>, i: int, p: int)
    requires
        0 <= i < ranges.len(),
        v.pages_between(ranges[i].0 as int, ranges[i].1 as int).contains(p),
    ensures
        v.pages_within(ranges, ranges.len() as int).contains(p),
{
}

/// Ranges make nothing else free.
pub proof fn ranges_free_nothing_else(v: ArenaView, ranges: Seq<(usize, usize)>, p: int) -> (i: int)
    requires
        v.pages_within(ranges, ranges.len() as int).contains(p),
    ensures
        0 <= i < ranges.len(),
        v.pages_between(ranges[i].0 as int, ranges[i].1 as int).contains(p),
{
    choose|i: int|
        0 <= i < ranges.len() && v.pages_between((#[trigger] ranges[i]).0 as int, ranges[i].1 as int).contains(p)
}

/// An arena can be made where there is a page and an order, the page size is a
/// power of two, the largest block fits and `base` is a multiple of it, and no
/// address wraps around.
pub proof fn arenas_can_be_made_of_aligned_ranges(orders: usize, base: int, page_size: int, nr_pages: int)
    requires
        0 < orders <= usize::BITS,
        0 <= base,
        0 <= nr_pages,
    ensures
        ({
            let largest = page_size * pow2((orders - 1) as nat);
            arena_error(orders, base, page_size, nr_pages) is None <==> {
                &&& 0 < nr_pages
                &&& is_pow2(page_size)
                &&& pow2((orders - 1) as nat) <= nr_pages
                &&& largest <= usize::MAX
                &&& base % largest == 0
                &&& base / page_size + nr_pages <= usize::MAX
                &&& base + nr_pages * page_size <= usize::MAX + 1
            }
        }),
{
}

/// A zone is initialized once, with a range of which an arena can be made.
pub proof fn zones_are_initialized_once(orders: usize, old: ArenaView, base: int, page_size: int, nr_pages: int)
    ensures
        init_zone(orders, old, base, page_size, nr_pages) is Ok <==> !old.initialized && arena_error(
            orders,
            base,
            page_size,
            nr_pages,
        ) is None,
        init_zone(orders, old, base, page_size, nr_pages) is Err ==> init_zone(orders, old, base, page_size, nr_pages)
            == Err::<(), Error>(Error::PageAlloc),
{
}

/// Only running out of memory is reported as such.
pub proof fn only_running_out_is_out_of_memory(error: BuddyError)
    ensures
        mapped_error(error) == Error::OutOfMemory <==> error == BuddyError::OutOfMemory,
        error != BuddyError::OutOfMemory ==> mapped_error(error) == Error::PageAlloc,
{
}

/// What a page allocator over an arena serves and takes back: the orders that
/// are not refused, and every block that is out. The largest order is the
/// last one there is.
pub proof fn page_allocators_serve_what_the_arena_does(
    v: ArenaView,
    orders: usize,
    before_init: Error,
    order: u8,
)
    requires
        v.ok(orders),
    ensures
        ({
            let book = arena_book(v, orders, before_init);
            &&& book.page_size == v.page_size
            &&& v.initialized ==> book.max_order == orders - 1
            &&& book.blocks == v.blocks
            &&& book.refused.dom().contains(order) <==> refusal(orders, v, order) is Some
            &&& v.initialized && book.refused.dom().contains(order) ==> book.refused[order] == refusal(orders, v, order)->0
            &&& !v.initialized ==> book.refused.dom().contains(order) && book.refused[order] == before_init
            &&& forall|a: int| !#[trigger] book.stuck.dom().contains(a)
            &&& book.unknown == (if v.initialized {
                Error::PageAlloc
            } else {
                before_init
            })
        }),
{
}

/// A linear mapping moves every address by the same distance, and maps its
/// first physical address to its first virtual one.
pub proof fn linear_mappings_keep_distances(v: DirectMapView, a: int, b: int)
    requires
        v.linear().to_virt.dom().contains(a),
        v.linear().to_virt.dom().contains(b),
    ensures
        v.initialized,
        v.phys_base <= a <= usize::MAX,
        v.linear().to_virt[b] - v.linear().to_virt[a] == b - a,
        v.linear().to_virt[a] - v.virt_base == a - v.phys_base,
        v.linear().to_phys[v.linear().to_virt[a]] == a,
{
}

/// A mapping that is initialized translates every address of its memory, and
/// byte `i` of the memory is where the mapping puts byte `i`.
pub proof fn linear_mappings_reach_their_memory(v: DirectMapView, i: int)
    requires
        v.initialized,
        0 <= i < v.memory.len(),
        0 <= v.phys_base,
        0 <= v.virt_base,
        v.phys_base + i <= usize::MAX,
        v.virt_base + i <= usize::MAX,
    ensures
        v.linear().to_virt.dom().contains(v.phys_base + i),
        v.linear().to_virt[v.phys_base + i] == v.virt_base + i,
        v.linear().to_phys.dom().contains(v.virt_base + i),
        v.linear().to_phys[v.virt_base + i] == v.phys_base + i,
        v.bytes().dom().contains(v.virt_base + i),
        v.bytes()[v.virt_base + i] == v.memory[i],
{
}

/// A mapping reaches nothing but its memory.
pub proof fn linear_mappings_reach_nothing_else(v: DirectMapView, p: int)
    ensures
        v.bytes().dom().contains(p) <==> v.virt_base <= p < v.virt_base + v.memory.len(),
        !v.initialized ==> !v.linear().to_virt.dom().contains(p) && !v.linear().to_phys.dom().contains(p),
{
}

/// Memory for every page can be mapped, anywhere but at address zero and where
/// no address wraps around.
pub proof fn enough_memory_can_be_mapped(base: int, page_size: int, nr_pages: int, virt_base: int, memory: Seq<u8>)
    ensures
        mappable(base, page_size, nr_pages, virt_base, memory) <==> {
            &&& 0 < virt_base
            &&& virt_base + memory.len() <= usize::MAX
            &&& base + nr_pages * page_size <= usize::MAX
            &&& nr_pages * page_size <= memory.len()
        },
{
}

} // verus!
