//! What validation finds in the memory of a cache.
//!
//! The memory may hold anything: these functions say what a walk through it
//! reports, and which memory the walk reaches.

use vstd::prelude::*;

use crate::error::Error;
use crate::header::header_at;
use crate::header::header_bytes;
use crate::header::SLAB_MAGIC;
use crate::layout::SlabLayout;
use crate::memory::accessible;
use crate::memory::pointer_at;
use crate::memory::word_bytes;
use crate::model::front;
use crate::model::total_free;
use crate::model::CacheView;
use crate::pages::Mapping;

verus! {

/// The header at `slab` can be read.
pub open spec fn readable(mem: Map<int, u8>, slab: int) -> bool {
    &&& slab + header_bytes() <= usize::MAX
    &&& accessible(mem, slab, header_bytes())
}

/// `object` lies where an object of the slab at `slab` can lie: on the grid,
/// and inside the block.
pub open spec fn object_fits(layout: SlabLayout, map: Mapping, slab: int, object: int) -> bool {
    let offset = map.to_phys[object] - map.to_phys[slab];
    &&& layout.first_offset <= offset
    &&& offset + layout.object_size <= layout.slab_bytes
    &&& (offset - layout.first_offset) % (layout.stride as int) == 0
}

/// The length of the free list of the slab at `slab`, of which `count`
/// objects are already counted and `node` is the next one.
pub open spec fn chain(
    layout: SlabLayout,
    map: Mapping,
    mem: Map<int, u8>,
    slab: int,
    node: Option<usize>,
    count: int,
) -> Result<int, Error>
    decreases layout.objects - count,
{
    match node {
        None => Ok(count),
        Some(object) => if count >= layout.objects || !object_fits(layout, map, slab, object as int) {
            Err(Error::CorruptSlab)
        } else {
            chain(layout, map, mem, slab, pointer_at(mem, object as int), count + 1)
        },
    }
}

/// Every pointer that [`chain`] meets can be translated, and read where it
/// lies inside the slab.
pub open spec fn chain_safe(
    layout: SlabLayout,
    map: Mapping,
    mem: Map<int, u8>,
    slab: int,
    node: Option<usize>,
    count: int,
) -> bool
    decreases layout.objects - count,
{
    match node {
        None => true,
        Some(object) => count < layout.objects ==> {
            &&& map.to_phys.dom().contains(object as int)
            &&& object_fits(layout, map, slab, object as int) ==> {
                &&& object + word_bytes() <= usize::MAX
                &&& accessible(mem, object as int, word_bytes())
                &&& chain_safe(layout, map, mem, slab, pointer_at(mem, object as int), count + 1)
            }
        },
    }
}

/// Why the header at `slab` is not that of a slab of a cache with this
/// layout and the identity `owner`; `None` if it is.
pub open spec fn header_error(layout: SlabLayout, mem: Map<int, u8>, owner: usize, slab: int) -> Option<Error> {
    let header = header_at(mem, slab);
    if header.magic != SLAB_MAGIC || header.owner != owner {
        Some(Error::CorruptSlab)
    } else if header.order != layout.order || header.objects != layout.objects {
        Some(Error::CorruptSlab)
    } else if header.inuse > header.objects {
        Some(Error::CountMismatch)
    } else {
        None
    }
}

/// The number of free objects of the slab at `slab`, or what is wrong with
/// the slab.
pub open spec fn slab_verdict(
    layout: SlabLayout,
    map: Mapping,
    mem: Map<int, u8>,
    owner: usize,
    slab: int,
) -> Result<int, Error> {
    match header_error(layout, mem, owner, slab) {
        Some(error) => Err(error),
        None => {
            let header = header_at(mem, slab);
            match chain(layout, map, mem, slab, header.freelist, 0) {
                Err(error) => Err(error),
                Ok(free) => if free != header.objects - header.inuse {
                    Err(Error::CountMismatch)
                } else {
                    Ok(free)
                },
            }
        },
    }
}

/// What [`slab_verdict`] looks at can be looked at.
pub open spec fn slab_safe(layout: SlabLayout, map: Mapping, mem: Map<int, u8>, owner: usize, slab: int) -> bool {
    &&& readable(mem, slab)
    &&& header_error(layout, mem, owner, slab) is None ==> {
        &&& map.to_phys.dom().contains(slab)
        &&& chain_safe(layout, map, mem, slab, header_at(mem, slab).freelist, 0)
    }
}

/// The length of the partial list and the number of free objects, of which
/// `len` and `total` are already counted and `node` is the next slab.
pub open spec fn walk(
    layout: SlabLayout,
    map: Mapping,
    mem: Map<int, u8>,
    owner: usize,
    most: int,
    node: Option<usize>,
    prev: Option<usize>,
    len: int,
    total: int,
) -> Result<(int, int), Error>
    decreases most - len,
{
    match node {
        None => Ok((len, total)),
        Some(slab) => {
            let header = header_at(mem, slab as int);
            if !header.on_partial || header.prev != prev {
                Err(Error::CorruptSlab)
            } else {
                match slab_verdict(layout, map, mem, owner, slab as int) {
                    Err(error) => Err(error),
                    Ok(free) => if len >= most {
                        Err(Error::CorruptSlab)
                    } else {
                        walk(layout, map, mem, owner, most, header.next, node, len + 1, total + free)
                    },
                }
            }
        },
    }
}

/// What [`walk`] looks at can be looked at.
pub open spec fn walk_safe(
    layout: SlabLayout,
    map: Mapping,
    mem: Map<int, u8>,
    owner: usize,
    most: int,
    node: Option<usize>,
    prev: Option<usize>,
    len: int,
) -> bool
    decreases most - len,
{
    match node {
        None => true,
        Some(slab) => {
            let header = header_at(mem, slab as int);
            &&& readable(mem, slab as int)
            &&& header.on_partial && header.prev == prev ==> {
                &&& slab_safe(layout, map, mem, owner, slab as int)
                &&& slab_verdict(layout, map, mem, owner, slab as int) is Ok && len < most ==> walk_safe(
                    layout,
                    map,
                    mem,
                    owner,
                    most,
                    header.next,
                    node,
                    len + 1,
                )
            }
        },
    }
}

/// The number of free objects of the active slab, or what is wrong with it.
pub open spec fn active_verdict(v: CacheView, map: Mapping, mem: Map<int, u8>, owner: usize) -> Result<int, Error> {
    match v.current {
        None => Ok(0),
        Some(slab) => if header_at(mem, slab).on_partial {
            Err(Error::CorruptSlab)
        } else {
            slab_verdict(v.layout, map, mem, owner, slab)
        },
    }
}

/// What validation reports for a cache whose books say `v`.
pub open spec fn verdict(v: CacheView, map: Mapping, mem: Map<int, u8>, owner: usize) -> Result<(), Error> {
    if !v.initialized() {
        Err(Error::Uninitialized)
    } else {
        match active_verdict(v, map, mem, owner) {
            Err(error) => Err(error),
            Ok(free) => match walk(
                v.layout,
                map,
                mem,
                owner,
                v.slabs.dom().len() as int,
                front(v.partial),
                None,
                0,
                free,
            ) {
                Err(error) => Err(error),
                Ok((len, total)) => if len != v.partial.len() || total != total_free(v.slabs) {
                    Err(Error::CountMismatch)
                } else {
                    Ok(())
                },
            },
        }
    }
}

/// What validation looks at can be looked at.
pub open spec fn verdict_safe(v: CacheView, map: Mapping, mem: Map<int, u8>, owner: usize) -> bool {
    v.initialized() ==> {
        &&& v.current matches Some(slab) ==> {
            &&& readable(mem, slab)
            &&& !header_at(mem, slab).on_partial ==> slab_safe(v.layout, map, mem, owner, slab)
        }
        &&& active_verdict(v, map, mem, owner) is Ok ==> walk_safe(
            v.layout,
            map,
            mem,
            owner,
            v.slabs.dom().len() as int,
            front(v.partial),
            None,
            0,
        )
    }
}

} // verus!
