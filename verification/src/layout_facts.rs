//! What a slab layout comes to, said of sizes and multiples.

use vstd::arithmetic::div_mod::lemma_div_pos_is_pos;
use vstd::arithmetic::div_mod::lemma_fundamental_div_mod;
use vstd::arithmetic::div_mod::lemma_mod_multiples_basic;
use vstd::arithmetic::power2::is_pow2;
use vstd::arithmetic::power2::lemma2_to64;
use vstd::arithmetic::power2::lemma_pow2_unfold;
use vstd::arithmetic::power2::pow2;
use vstd::prelude::*;

use crate::error::Error;
use crate::header::header_bytes;
use crate::layout::capacity;
use crate::layout::laid_out;
use crate::layout::layout_error;
use crate::layout::lemma_block_bytes_ordered;
use crate::layout::lemma_pow2_positive;
use crate::layout::round_up;
use crate::layout::suffices;
use crate::layout::SlabLayout;
use crate::memory::lemma_word_fits;
use crate::memory::word_bytes;
use crate::pages::block_bytes;

verus! {

/// `rounded` is the smallest multiple of `align` that is not below `value`.
pub open spec fn next_multiple(value: int, align: int, rounded: int) -> bool {
    &&& rounded % align == 0
    &&& value <= rounded < value + align
}

/// There is only one such multiple, and it is what rounding up gives.
pub proof fn rounding_up_gives_the_next_multiple(value: int, align: int, rounded: int)
    requires
        0 < align,
        0 <= value,
    ensures
        next_multiple(value, align, round_up(value, align)),
        next_multiple(value, align, rounded) ==> rounded == round_up(value, align),
{
    let up = round_up(value, align);
    let q = (value + align - 1) / align;
    lemma_fundamental_div_mod(value + align - 1, align);
    assert(align * q == q * align) by (nonlinear_arith);
    lemma_mod_multiples_basic(q, align);
    if next_multiple(value, align, rounded) {
        lemma_fundamental_div_mod(rounded, align);
        let r = rounded / align;
        assert(r == q) by (nonlinear_arith)
            requires
                rounded == align * r,
                up == q * align,
                value <= rounded < value + align,
                value <= up < value + align,
                0 < align,
        ;
        assert(align * r == r * align) by (nonlinear_arith);
    }
}

/// A machine word has as many bytes as it takes to hold its bits, and a block
/// of the next order is twice as large.
pub proof fn words_and_blocks(page_size: int, order: u8)
    ensures
        8 * word_bytes() == usize::BITS,
        header_bytes() == 8 + 6 * word_bytes(),
        block_bytes(page_size, 0) == page_size,
        order < u8::MAX ==> block_bytes(page_size, (order + 1) as u8) == 2 * block_bytes(page_size, order),
        block_bytes(page_size, order) == page_size * pow2(order as nat),
{
    lemma_word_fits();
    lemma2_to64();
    if order < u8::MAX {
        lemma_pow2_unfold((order + 1) as nat);
        let p = pow2(order as nat) as int;
        assert(page_size * (2 * p) == 2 * (page_size * p)) by (nonlinear_arith);
    }
}

/// The objects of a slab are aligned, lie behind the header without gaps but
/// for the alignment, and are as many as fit into the block.
pub proof fn layouts_hold_as_many_objects_as_fit(
    layout: SlabLayout,
    header_size: int,
    object_size: int,
    align: int,
    page_size: int,
    max_order: u8,
    min_objects: int,
)
    requires
        0 <= header_size,
        laid_out(layout, header_size, object_size, align, page_size, max_order, min_objects),
    ensures
        layout.object_size == object_size,
        layout.align == align || layout.align == word_bytes(),
        align <= layout.align,
        word_bytes() <= layout.align,
        next_multiple(object_size, layout.align as int, layout.stride as int),
        next_multiple(header_size, layout.align as int, layout.first_offset as int),
        layout.order <= max_order,
        layout.slab_bytes == page_size * pow2(layout.order as nat),
        1 <= layout.objects,
        layout.first_offset + layout.objects * layout.stride <= layout.slab_bytes,
        layout.slab_bytes < layout.first_offset + (layout.objects + 1) * layout.stride,
{
    lemma_word_fits();
    lemma_pow2_positive(align);
    let a = layout.align as int;
    rounding_up_gives_the_next_multiple(object_size, a, 0);
    rounding_up_gives_the_next_multiple(header_size, a, 0);
    let room = layout.slab_bytes - layout.first_offset;
    let stride = layout.stride as int;
    let n = layout.objects as int;
    lemma_fundamental_div_mod(room, stride);
    assert(stride * n == n * stride) by (nonlinear_arith);
    assert((n + 1) * stride == n * stride + stride) by (nonlinear_arith);
}

/// The order of a slab is the smallest one whose blocks hold one object and
/// `min_objects` of them; and where no order does, the largest one that there
/// is a block size for.
pub proof fn layouts_take_the_smallest_order(
    layout: SlabLayout,
    header_size: int,
    object_size: int,
    align: int,
    page_size: int,
    max_order: u8,
    min_objects: int,
    o: u8,
)
    requires
        0 <= header_size,
        0 <= min_objects,
        laid_out(layout, header_size, object_size, align, page_size, max_order, min_objects),
        o <= max_order,
    ensures
        ({
            let bytes = page_size * pow2(o as nat);
            let first = layout.first_offset as int;
            let stride = layout.stride as int;
            &&& layout.objects >= min_objects && o < layout.order ==> bytes < first + stride || bytes < first + min_objects
                * stride
            &&& layout.objects < min_objects ==> bytes < first + min_objects * stride || bytes > usize::MAX
            &&& layout.objects < min_objects && layout.order < o ==> bytes > usize::MAX
        }),
{
    lemma_word_fits();
    lemma_pow2_positive(align);
    lemma_pow2_positive(page_size);
    layouts_hold_as_many_objects_as_fit(
        layout,
        header_size,
        object_size,
        align,
        page_size,
        max_order,
        min_objects,
    );
    let bytes = page_size * pow2(o as nat);
    let first = layout.first_offset as int;
    let stride = layout.stride as int;
    if 0 < min_objects {
        lemma_room(page_size, first, stride, min_objects, o);
    }
    lemma_room(page_size, first, stride, 1, o);
    if o <= layout.order {
        lemma_block_bytes_ordered(page_size, o, layout.order);
    } else {
        lemma_block_bytes_ordered(page_size, layout.order, o);
    }
    assert(1 * stride == stride);
    assert(suffices(page_size, first, stride, min_objects, layout.order) <==> layout.objects >= min_objects);
    if o < layout.order && layout.objects >= min_objects {
        assert(!suffices(page_size, first, stride, min_objects, o));
    }
    if layout.objects < min_objects {
        assert(!suffices(page_size, first, stride, min_objects, o));
    }
    if layout.objects < min_objects && layout.order < o && bytes <= usize::MAX {
        assert(capacity(page_size, first, stride, o) == 0);
        assert(layout.slab_bytes <= bytes);
        assert(stride <= layout.objects * stride) by (nonlinear_arith)
            requires
                1 <= layout.objects,
                0 < stride,
        ;
    }
}

/// A block holds `n` objects where there is room for them.
pub proof fn lemma_room(page_size: int, first: int, stride: int, n: int, order: u8)
    requires
        0 < stride,
        0 <= first,
        0 < n,
    ensures
        capacity(page_size, first, stride, order) >= n <==> first + n * stride <= page_size * pow2(order as nat)
            <= usize::MAX,
{
    let bytes = block_bytes(page_size, order);
    let room = bytes - first;
    assert(0 < n * stride) by (nonlinear_arith)
        requires
            0 < n,
            0 < stride,
    ;
    if 0 < room && bytes <= usize::MAX {
        let q = room / stride;
        lemma_fundamental_div_mod(room, stride);
        assert(q >= n <==> n * stride <= room) by (nonlinear_arith)
            requires
                room == stride * q + room % stride,
                0 <= room % stride < stride,
                0 < stride,
        ;
    }
}

/// When there is no layout, and why. `first` and `stride` are where the first
/// object would be and how far the next one is from it.
pub proof fn layouts_are_refused_only_for_a_reason(
    header_size: int,
    object_size: int,
    align: int,
    page_size: int,
    max_order: u8,
    a: int,
    first: int,
    stride: int,
)
    requires
        0 <= header_size,
        a == (if align < word_bytes() { word_bytes() } else { align }),
        next_multiple(header_size, a, first),
        next_multiple(object_size, a, stride),
    ensures
        ({
            let error = layout_error(header_size, object_size, align, page_size, max_order);
            let small = object_size < word_bytes();
            let odd = !is_pow2(align);
            let bogus = !is_pow2(page_size);
            let wide = align > page_size;
            let deep = max_order >= usize::BITS;
            let high = object_size + a - 1 > usize::MAX;
            let long = header_size + a - 1 > usize::MAX;
            let fits = exists|o: u8| o <= max_order && first + stride <= #[trigger] block_bytes(page_size, o) <= usize::MAX;
            &&& small ==> error == Some(Error::InvalidObjectSize)
            &&& !small && odd ==> error == Some(Error::InvalidAlign)
            &&& !small && !odd && bogus ==> error == Some(Error::InvalidPageSize)
            &&& !small && !odd && !bogus && wide ==> error == Some(Error::InvalidAlign)
            &&& !small && !odd && !bogus && !wide && (deep || high) ==> error == Some(Error::ObjectTooLarge)
            &&& !small && !odd && !bogus && !wide && !deep && !high && long ==> error == Some(Error::InvalidObjectSize)
            &&& !small && !odd && !bogus && !wide && !deep && !high && !long && !fits ==> error == Some(
                Error::ObjectTooLarge,
            )
            &&& !small && !odd && !bogus && !wide && !deep && !high && !long && fits ==> error is None
        }),
{
    lemma_word_fits();
    if !(object_size < word_bytes()) {
        rounding_up_gives_the_next_multiple(header_size, a, first);
        rounding_up_gives_the_next_multiple(object_size, a, stride);
        assert(1 * stride == stride);
        assert forall|o: u8| (#[trigger] capacity(page_size, first, stride, o) == 0) <==> !(first + stride
            <= block_bytes(page_size, o) <= usize::MAX) by {
            lemma_room(page_size, first, stride, 1, o);
            if block_bytes(page_size, o) > first && block_bytes(page_size, o) <= usize::MAX {
                lemma_fundamental_div_mod(block_bytes(page_size, o) - first, stride);
                lemma_div_pos_is_pos(block_bytes(page_size, o) - first, stride);
            }
        }
        let fits = exists|o: u8| o <= max_order && first + stride <= #[trigger] block_bytes(page_size, o) <= usize::MAX;
        if fits {
            let o = choose|o: u8| o <= max_order && first + stride <= #[trigger] block_bytes(page_size, o) <= usize::MAX;
            assert(capacity(page_size, first, stride, o) != 0);
        } else {
            assert forall|o: u8| o <= max_order implies #[trigger] capacity(page_size, first, stride, o) == 0 by {
                assert(!(first + stride <= block_bytes(page_size, o) <= usize::MAX));
            }
        }
    }
}

} // verus!
