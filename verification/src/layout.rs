//! Object and slab layout arithmetic.
//!
//! The stride between objects, the offset of the first object (after the
//! slab header), the number of objects per slab, and the order of the slab
//! block. Free list pointers live inside the free objects themselves.

use vstd::arithmetic::div_mod::lemma_div_is_ordered;
use vstd::arithmetic::div_mod::lemma_fundamental_div_mod;
use vstd::arithmetic::div_mod::lemma_mod_multiples_basic;
use vstd::arithmetic::div_mod::lemma_mod_self_0;
use vstd::arithmetic::power2::is_pow2;
use vstd::arithmetic::power2::lemma2_to64;
use vstd::arithmetic::power2::lemma_pow2_pos;
use vstd::arithmetic::power2::lemma_pow2_strictly_increases;
use vstd::arithmetic::power2::lemma_pow2_unfold;
use vstd::arithmetic::power2::pow2;
use vstd::prelude::*;

use crate::error::Error;
use crate::memory::word_bytes;
use crate::memory::word_size;
use crate::pages::block_bytes;

verus! {

/// A computed slab layout.
#[derive(Clone, Copy, Debug, PartialEq, Eq, Structural)]
pub struct SlabLayout {
    /// The requested object size in bytes.
    pub object_size: usize,
    /// The effective object alignment.
    pub align: usize,
    /// The distance between consecutive objects.
    pub stride: usize,
    /// The offset of the first object in a slab block.
    pub first_offset: usize,
    /// The number of objects per slab.
    pub objects: usize,
    /// The order of a slab block.
    pub order: u8,
    /// The size of a slab block in bytes.
    pub slab_bytes: usize,
}

/// `value` rounded up to the next multiple of `align`.
pub open spec fn round_up(value: int, align: int) -> int {
    (value + align - 1) / align * align
}

/// The alignment that objects get: the free list pointer inside an object
/// forces pointer alignment.
pub open spec fn raised_align(align: int) -> int {
    if align < word_bytes() {
        word_bytes()
    } else {
        align
    }
}

/// How many objects a block of `order` holds after the first `first` bytes.
pub open spec fn capacity(page_size: int, first: int, stride: int, order: u8) -> int {
    let bytes = block_bytes(page_size, order);
    if bytes <= first || bytes > usize::MAX {
        0
    } else {
        (bytes - first) / stride
    }
}

/// A block of `order` holds at least one object and at least `min_objects`.
pub open spec fn suffices(page_size: int, first: int, stride: int, min_objects: int, order: u8) -> bool {
    &&& capacity(page_size, first, stride, order) > 0
    &&& capacity(page_size, first, stride, order) >= min_objects
}

/// `order` is the one that a slab gets: the smallest order that suffices,
/// and where none does, the largest order that holds any object.
pub open spec fn chosen_order(
    page_size: int,
    first: int,
    stride: int,
    max_order: u8,
    min_objects: int,
    order: u8,
) -> bool {
    &&& order <= max_order
    &&& capacity(page_size, first, stride, order) > 0
    &&& if suffices(page_size, first, stride, min_objects, order) {
        forall|o: u8| o < order ==> !#[trigger] suffices(page_size, first, stride, min_objects, o)
    } else {
        &&& forall|o: u8| o <= max_order ==> !#[trigger] suffices(page_size, first, stride, min_objects, o)
        &&& forall|o: u8| order < o <= max_order ==> #[trigger] capacity(page_size, first, stride, o) == 0
    }
}

/// Why no layout exists for these parameters; `None` if one does.
pub open spec fn layout_error(
    header_size: int,
    object_size: int,
    align: int,
    page_size: int,
    max_order: u8,
) -> Option<Error> {
    let raised = raised_align(align);
    if object_size < word_bytes() {
        Some(Error::InvalidObjectSize)
    } else if !is_pow2(align) {
        Some(Error::InvalidAlign)
    } else if !is_pow2(page_size) {
        Some(Error::InvalidPageSize)
    } else if align > page_size {
        Some(Error::InvalidAlign)
    } else if max_order >= usize::BITS {
        Some(Error::ObjectTooLarge)
    } else if object_size + raised - 1 > usize::MAX {
        Some(Error::ObjectTooLarge)
    } else if header_size + raised - 1 > usize::MAX {
        Some(Error::InvalidObjectSize)
    } else if forall|o: u8| o <= max_order ==> #[trigger] capacity(
        page_size,
        round_up(header_size, raised),
        round_up(object_size, raised),
        o,
    ) == 0 {
        Some(Error::ObjectTooLarge)
    } else {
        None
    }
}

/// `layout` is the one for these parameters.
///
/// The stride and the offset of the first object are rounded up to the
/// alignment, the order is the one [`chosen_order`] describes, and the block
/// holds as many objects as fit.
pub open spec fn laid_out(
    layout: SlabLayout,
    header_size: int,
    object_size: int,
    align: int,
    page_size: int,
    max_order: u8,
    min_objects: int,
) -> bool {
    let raised = raised_align(align);
    &&& layout_error(header_size, object_size, align, page_size, max_order) is None
    &&& layout.object_size == object_size
    &&& layout.align == raised
    &&& layout.stride == round_up(object_size, raised)
    &&& layout.first_offset == round_up(header_size, raised)
    &&& layout.objects == capacity(
        page_size,
        layout.first_offset as int,
        layout.stride as int,
        layout.order,
    )
    &&& chosen_order(
        page_size,
        layout.first_offset as int,
        layout.stride as int,
        max_order,
        min_objects,
        layout.order,
    )
    &&& layout.slab_bytes == block_bytes(page_size, layout.order)
}

impl SlabLayout {
    /// The layout is sound for blocks that start with `header_size` bytes of
    /// metadata: the objects lie on an aligned grid between the metadata and
    /// the end of the block, and each can hold a free list pointer.
    pub open spec fn ok(self, header_size: int) -> bool {
        &&& is_pow2(self.align as int)
        &&& word_bytes() <= self.align
        &&& word_bytes() <= self.object_size <= self.stride
        &&& self.stride % self.align == 0
        &&& self.first_offset % self.align == 0
        &&& 0 < header_size <= self.first_offset
        &&& 0 < self.objects
        &&& self.first_offset + self.objects * self.stride <= self.slab_bytes
        &&& is_pow2(self.slab_bytes as int)
    }

    /// The address of object `index` of the slab at `slab`.
    pub open spec fn object_at(self, slab: int, index: int) -> int {
        slab + self.first_offset + index * self.stride
    }

    /// `ptr` is the address of an object of the slab at `slab`.
    pub open spec fn on_grid(self, slab: int, ptr: int) -> bool {
        let offset = ptr - slab - self.first_offset;
        &&& 0 <= offset
        &&& offset % (self.stride as int) == 0
        &&& offset / (self.stride as int) < self.objects
    }

    /// The layout of an uninitialized cache.
    pub fn empty() -> (layout: SlabLayout)
        ensures
            layout == (SlabLayout {
                object_size: 0,
                align: 0,
                stride: 0,
                first_offset: 0,
                objects: 0,
                order: 0,
                slab_bytes: 0,
            }),
    {
        SlabLayout {
            object_size: 0,
            align: 0,
            stride: 0,
            first_offset: 0,
            objects: 0,
            order: 0,
            slab_bytes: 0,
        }
    }

    /// Computes the layout for objects of `object_size` bytes with `align`
    /// alignment, carved out of blocks of `2^order` pages.
    ///
    /// `header_size` bytes at the start of every block are reserved for the
    /// slab header. The smallest order whose slab holds at least
    /// `min_objects` objects wins; when no order reaches that, the order
    /// holding the most objects is used. Objects are laid out on a `stride`
    /// grid so every object is aligned.
    pub fn new(
        header_size: usize,
        object_size: usize,
        align: usize,
        page_size: usize,
        max_order: u8,
        min_objects: usize,
    ) -> (result: Result<SlabLayout, Error>)
        ensures
            match result {
                Ok(layout) => {
                    &&& laid_out(
                        layout,
                        header_size as int,
                        object_size as int,
                        align as int,
                        page_size as int,
                        max_order,
                        min_objects as int,
                    )
                    &&& header_size > 0 ==> layout.ok(header_size as int)
                },
                Err(error) => layout_error(
                    header_size as int,
                    object_size as int,
                    align as int,
                    page_size as int,
                    max_order,
                ) == Some(error),
            },
    {
        let word: usize = word_size();
        if object_size < word {
            return Err(Error::InvalidObjectSize);
        }
        if !is_power_of_two(align) {
            return Err(Error::InvalidAlign);
        }
        if !is_power_of_two(page_size) {
            return Err(Error::InvalidPageSize);
        }
        if align > page_size {
            return Err(Error::InvalidAlign);
        }
        if max_order as u32 >= usize::BITS {
            return Err(Error::ObjectTooLarge);
        }
        let raised: usize = if align < word { word } else { align };
        proof {
            lemma_word_is_pow2();
            lemma_pow2_positive(page_size as int);
        }
        let stride: usize = match align_up(object_size, raised) {
            Some(value) => value,
            None => {
                return Err(Error::ObjectTooLarge);
            },
        };
        let first_offset: usize = match align_up(header_size, raised) {
            Some(value) => value,
            None => {
                return Err(Error::InvalidObjectSize);
            },
        };
        proof {
            assert forall|o: u8| is_pow2(#[trigger] block_bytes(page_size as int, o)) by {
                lemma_block_is_pow2(page_size as int, o);
            }
            lemma_round_up(object_size as int, raised as int);
            lemma_round_up(header_size as int, raised as int);
        }

        let mut fallback: Option<SlabLayout> = None;
        let mut order: u8 = 0;
        while order <= max_order
            invariant
                order <= max_order + 1,
                max_order < usize::BITS,
                page_size > 0,
                stride > 0,
                forall|o: u8| o < order ==> !#[trigger] suffices(
                    page_size as int,
                    first_offset as int,
                    stride as int,
                    min_objects as int,
                    o,
                ),
                match fallback {
                    None => forall|o: u8| o < order ==> #[trigger] capacity(
                        page_size as int,
                        first_offset as int,
                        stride as int,
                        o,
                    ) == 0,
                    Some(layout) => {
                        &&& layout.object_size == object_size
                        &&& layout.align == raised
                        &&& layout.stride == stride
                        &&& layout.first_offset == first_offset
                        &&& layout.order < order
                        &&& layout.objects > 0
                        &&& layout.objects == capacity(
                            page_size as int,
                            first_offset as int,
                            stride as int,
                            layout.order,
                        )
                        &&& layout.slab_bytes == block_bytes(page_size as int, layout.order)
                        &&& layout.first_offset + layout.objects * layout.stride <= layout.slab_bytes
                        &&& forall|o: u8| layout.order < o < order ==> #[trigger] capacity(
                            page_size as int,
                            first_offset as int,
                            stride as int,
                            o,
                        ) == 0
                    },
                },
                is_pow2(raised as int),
                forall|o: u8| is_pow2(#[trigger] block_bytes(page_size as int, o)),
                word_bytes() <= raised,
                raised == raised_align(align as int),
                stride == round_up(object_size as int, raised as int),
                first_offset == round_up(header_size as int, raised as int),
                word_bytes() <= object_size <= stride,
                stride % raised == 0,
                first_offset % raised == 0,
                header_size <= first_offset,
                layout_error(
                    header_size as int,
                    object_size as int,
                    align as int,
                    page_size as int,
                    max_order,
                ) == (if forall|o: u8| o <= max_order ==> #[trigger] capacity(
                    page_size as int,
                    first_offset as int,
                    stride as int,
                    o,
                ) == 0 {
                    Some(Error::ObjectTooLarge)
                } else {
                    None
                }),
            decreases max_order + 1 - order,
        {
            let bytes: Option<usize> = block_size(page_size, order);
            if let Some(slab_bytes) = bytes {
                if slab_bytes > first_offset {
                    let objects: usize = (slab_bytes - first_offset) / stride;
                    if objects > 0 {
                        proof {
                            lemma_fundamental_div_mod(slab_bytes - first_offset, stride as int);
                            assert(objects * stride == stride * objects) by (nonlinear_arith);
                        }
                        let layout = SlabLayout {
                            object_size,
                            align: raised,
                            stride,
                            first_offset,
                            objects,
                            order,
                            slab_bytes,
                        };
                        assert(capacity(page_size as int, first_offset as int, stride as int, order) == objects);
                        if objects >= min_objects {
                            assert(suffices(
                                page_size as int,
                                first_offset as int,
                                stride as int,
                                min_objects as int,
                                order,
                            ));
                            return Ok(layout);
                        }
                        fallback = Some(layout);
                    }
                }
            }
            order = order + 1;
        }

        match fallback {
            Some(layout) => Ok(layout),
            None => Err(Error::ObjectTooLarge),
        }
    }

    /// Returns the requested object size in bytes.
    pub fn object_size(&self) -> (bytes: usize)
        ensures
            bytes == self.object_size,
    {
        self.object_size
    }

    /// Returns the effective object alignment (at least pointer alignment).
    pub fn align(&self) -> (bytes: usize)
        ensures
            bytes == self.align,
    {
        self.align
    }

    /// Returns the distance between consecutive objects.
    pub fn stride(&self) -> (bytes: usize)
        ensures
            bytes == self.stride,
    {
        self.stride
    }

    /// Returns the offset of the first object in a slab block.
    pub fn first_offset(&self) -> (bytes: usize)
        ensures
            bytes == self.first_offset,
    {
        self.first_offset
    }

    /// Returns the number of objects per slab.
    pub fn objects(&self) -> (count: usize)
        ensures
            count == self.objects,
    {
        self.objects
    }

    /// Returns the order of a slab block (`2^order` pages).
    pub fn order(&self) -> (order: u8)
        ensures
            order == self.order,
    {
        self.order
    }

    /// Returns the size of a slab block in bytes.
    pub fn slab_bytes(&self) -> (bytes: usize)
        ensures
            bytes == self.slab_bytes,
    {
        self.slab_bytes
    }
}

/// The size of a word is a power of two.
pub proof fn lemma_word_is_pow2()
    ensures
        is_pow2(word_bytes()),
{
    reveal_with_fuel(is_pow2, 4);
}

/// A power of two is positive.
pub proof fn lemma_pow2_positive(n: int)
    requires
        is_pow2(n),
    ensures
        0 < n,
{
    reveal(is_pow2);
}

/// The size of a block is a power of two if that of a page is.
pub proof fn lemma_block_is_pow2(page_size: int, order: u8)
    requires
        is_pow2(page_size),
    ensures
        is_pow2(block_bytes(page_size, order)),
    decreases order,
{
    if order == 0 {
        assert(pow2(0) == 1) by {
            lemma2_to64();
        }
    } else {
        let less = (order - 1) as u8;
        lemma_block_is_pow2(page_size, less);
        lemma_pow2_unfold(order as nat);
        let half = block_bytes(page_size, less);
        assert(page_size * (2 * pow2(less as nat)) == 2 * (page_size * pow2(less as nat))) by (nonlinear_arith);
        lemma_pow2_positive(half);
        reveal(is_pow2);
        assert(2 * half / 2 == half);
    }
}

/// A power of two divides every power of two that is not smaller.
pub proof fn lemma_pow2_divides(small: int, large: int)
    requires
        is_pow2(small),
        is_pow2(large),
        small <= large,
    ensures
        large % small == 0,
    decreases large,
{
    reveal(is_pow2);
    if small < large {
        let half = large / 2;
        assert(small <= half) by {
            lemma_pow2_halves(small, large);
        }
        lemma_pow2_divides(small, half);
        lemma_fundamental_div_mod(half, small);
        let q = half / small;
        assert(large == (2 * q) * small) by (nonlinear_arith)
            requires
                large == 2 * half,
                half == small * q,
        ;
        lemma_mod_multiples_basic(2 * q, small);
    } else {
        lemma_mod_self_0(small);
    }
}

/// A power of two below another one is at most half of it.
pub proof fn lemma_pow2_halves(small: int, large: int)
    requires
        is_pow2(small),
        is_pow2(large),
        small < large,
    ensures
        small <= large / 2,
    decreases large,
{
    reveal(is_pow2);
    if small > 1 {
        lemma_pow2_halves(small / 2, large / 2);
    }
}

/// Rounding up gives the next multiple.
pub proof fn lemma_round_up(value: int, align: int)
    requires
        0 <= value,
        0 < align,
    ensures
        value <= round_up(value, align) < value + align,
        round_up(value, align) % align == 0,
{
    let q = (value + align - 1) / align;
    lemma_fundamental_div_mod(value + align - 1, align);
    assert(q * align == align * q) by (nonlinear_arith);
    assert((q * align) % align == 0) by (nonlinear_arith)
        requires
            align > 0,
    ;
}

/// Rounds `value` up to the next multiple of `align`, unless the result
/// does not fit.
pub fn align_up(value: usize, align: usize) -> (result: Option<usize>)
    requires
        is_pow2(align as int),
    ensures
        match result {
            Some(rounded) => {
                &&& value + align - 1 <= usize::MAX
                &&& rounded == round_up(value as int, align as int)
            },
            None => value + align - 1 > usize::MAX,
        },
{
    proof {
        lemma_pow2_positive(align as int);
    }
    let mask: usize = align - 1;
    if value > usize::MAX - mask {
        None
    } else {
        proof {
            lemma_round_up(value as int, align as int);
            lemma_fundamental_div_mod(value + align - 1, align as int);
        }
        Some((value + mask) / align * align)
    }
}

/// Whether `n` is a power of two.
pub fn is_power_of_two(n: usize) -> (result: bool)
    ensures
        result == is_pow2(n as int),
{
    proof {
        reveal(is_pow2);
    }
    if n == 0 {
        return false;
    }
    let mut rest: usize = n;
    while rest % 2 == 0
        invariant
            rest > 0,
            is_pow2(rest as int) == is_pow2(n as int),
        decreases rest,
    {
        proof {
            reveal(is_pow2);
        }
        rest = rest / 2;
    }
    rest == 1
}

/// Blocks of a larger order are not smaller.
pub proof fn lemma_block_bytes_ordered(page_size: int, low: u8, high: u8)
    requires
        0 < page_size,
        low <= high,
    ensures
        0 < block_bytes(page_size, low) <= block_bytes(page_size, high),
{
    lemma_pow2_pos(low as nat);
    if low < high {
        lemma_pow2_strictly_increases(low as nat, high as nat);
    }
    assert(0 < page_size * pow2(low as nat) <= page_size * pow2(high as nat)) by (nonlinear_arith)
        requires
            0 < page_size,
            0 < pow2(low as nat) <= pow2(high as nat),
    ;
}

/// Returns the number of bytes in a block of `order`, unless it does not
/// fit.
pub fn block_size(page_size: usize, order: u8) -> (result: Option<usize>)
    requires
        page_size > 0,
    ensures
        match result {
            Some(bytes) => bytes == block_bytes(page_size as int, order),
            None => block_bytes(page_size as int, order) > usize::MAX,
        },
{
    let mut bytes: usize = page_size;
    let mut done: u8 = 0;
    proof {
        assert(pow2(0) == 1) by {
            lemma2_to64();
        }
    }
    while done < order
        invariant
            page_size > 0,
            done <= order,
            bytes == block_bytes(page_size as int, done),
        decreases order - done,
    {
        proof {
            lemma_pow2_unfold((done + 1) as nat);
            assert(page_size * (2 * pow2(done as nat)) == 2 * (page_size * pow2(done as nat))) by (nonlinear_arith);
            lemma_block_bytes_ordered(page_size as int, (done + 1) as u8, order);
        }
        if bytes > usize::MAX / 2 {
            return None;
        }
        bytes = bytes * 2;
        done = done + 1;
    }
    Some(bytes)
}

/// A layout that was computed is sound.
pub proof fn lemma_laid_out_ok(
    layout: SlabLayout,
    header_size: int,
    object_size: int,
    align: int,
    page_size: int,
    max_order: u8,
    min_objects: int,
)
    requires
        0 < header_size,
        laid_out(layout, header_size, object_size, align, page_size, max_order, min_objects),
    ensures
        layout.ok(header_size),
        layout.slab_bytes > 0,
{
    let raised = raised_align(align);
    lemma_word_is_pow2();
    lemma_pow2_positive(raised);
    lemma_pow2_positive(page_size);
    lemma_round_up(object_size, raised);
    lemma_round_up(header_size, raised);
    lemma_block_is_pow2(page_size, layout.order);
    let room = layout.slab_bytes - layout.first_offset;
    lemma_fundamental_div_mod(room, layout.stride as int);
    assert(layout.objects * layout.stride == layout.stride * layout.objects) by (nonlinear_arith);
}

/// Where no order reaches the wanted number of objects, the chosen order
/// holds the most objects of all.
pub proof fn fallback_order_holds_the_most(
    page_size: int,
    first: int,
    stride: int,
    max_order: u8,
    min_objects: int,
    order: u8,
    other: u8,
)
    requires
        0 < page_size,
        0 <= first,
        0 < stride,
        chosen_order(page_size, first, stride, max_order, min_objects, order),
        !suffices(page_size, first, stride, min_objects, order),
        other <= max_order,
    ensures
        capacity(page_size, first, stride, other) <= capacity(page_size, first, stride, order),
{
    if other <= order {
        lemma_block_bytes_ordered(page_size, other, order);
        if capacity(page_size, first, stride, other) > 0 {
            lemma_div_is_ordered(
                block_bytes(page_size, other) - first,
                block_bytes(page_size, order) - first,
                stride,
            );
        }
    }
}

/// Every object of a slab lies inside its block, after the metadata, at an
/// aligned offset, and apart from every other object.
pub proof fn objects_fit_and_are_aligned(layout: SlabLayout, header_size: int, slab: int, i: int, j: int)
    requires
        layout.ok(header_size),
        0 <= i < layout.objects,
        0 <= j < layout.objects,
    ensures
        slab + header_size <= layout.object_at(slab, i),
        layout.object_at(slab, i) + layout.object_size <= layout.object_at(slab, i) + layout.stride
            <= slab + layout.slab_bytes,
        (layout.object_at(slab, i) - slab) % (layout.align as int) == 0,
        i < j ==> layout.object_at(slab, i) + layout.stride <= layout.object_at(slab, j),
{
    let stride = layout.stride as int;
    let align = layout.align as int;
    assert(i * stride + stride <= layout.objects * stride) by (nonlinear_arith)
        requires
            i + 1 <= layout.objects,
            0 < stride,
    ;
    assert(0 <= i * stride) by (nonlinear_arith)
        requires
            0 <= i,
            0 < stride,
    ;
    if i < j {
        assert(i * stride + stride <= j * stride) by (nonlinear_arith)
            requires
                i + 1 <= j,
                0 < stride,
        ;
    }
    lemma_fundamental_div_mod(stride, align);
    lemma_fundamental_div_mod(layout.first_offset as int, align);
    let a = layout.first_offset as int / align;
    let b = stride / align;
    assert(align * a + i * (align * b) == align * (a + i * b)) by (nonlinear_arith);
    assert((align * (a + i * b)) % align == 0) by (nonlinear_arith)
        requires
            align > 0,
    ;
}

} // verus!
