# the_slab

A slab allocator in the shape of the Linux kernel's SLUB, written in Verus:
what every function does is stated in its contract and proved.

Each `ObjectCache` carves page blocks requested from a page allocator into
fixed-size objects. A slab block starts with a header and is followed by
objects on an aligned stride; free objects store the free list pointer inside
themselves. The cache keeps one active slab plus a doubly linked partial list
and returns empty slabs to the page allocator once `min_partial` is exceeded.
`KernelHeap` puts one cache per size class in front of the same page allocator
and serves larger requests straight from it.

## Layout

| Module | What it holds |
| --- | --- |
| `pages` | the `PhysMap` and `PageAlloc` traits and what they promise |
| `direct_map`, `arena`, `zone` | a linear mapping, the buddy allocator of `the-buddy-system`, and page allocators made of the two |
| `frame` | address arithmetic of `the-buddy-system` and `the-memblock` |
| `memory`, `header`, `layout` | numbers in memory, slab headers, slab layouts |
| `model`, `outcome`, `verdict` | what a cache is, what its operations result in, what validation reports |
| `cache` | the cache |
| `heap_model`, `heap` | what a heap is, and the heap |
| `laws`, `heap_laws`, `sharing`, `balance`, `addresses` | what holds across operations |
| `lists`, `objects`, `slabs`, `steps`, `heap_steps` | proofs about single steps |

`app/` puts the allocator on real memory: a mapping over raw pointers and a
page allocator on top of it, an error type that prints, heap operations that
take a `Layout`, and the way from the boot allocator to an arena.

## Addresses and memory

Addresses are plain `usize` numbers. A `PhysMap` translates between physical
and virtual addresses and reads and writes single bytes; everything the
allocator keeps in memory (headers, free lists, tags) goes through it.

A cache stores its own address in every slab header to reject frees through
the wrong cache, so it must not move while its slabs are alive. The functions
whose names end in `_at` take that address as an argument and have exact
contracts; the ones without it find out where the cache is and call them.

A cache that is moved all the same rejects what it grew elsewhere until it is
back there, and stamps the slabs that it grows from then on with its new place.
Two caches of a heap that has been moved can come to share an identity in this
way. The header of a slab therefore also says what kind of objects it holds, so
that an object is never taken back by the cache of another class.

## What is proved

- Objects in use lie inside their slabs, behind the header, aligned and apart
  from each other, and no operation on another object touches their bytes.
- What is handed out was not in use before, and what is in use can be freed.
- Freeing rejects pointers that are misaligned, outside the objects, of
  another cache, or of no slab, and the double frees that can be noticed. It
  rejects every pointer into a slab that the page allocator did not take back.
- A cache or heap without objects in use gives every page back when it is
  shrunk or destroyed: the same pages are free as before its first allocation.
- A consistent cache or heap passes validation, and validation reports exactly
  what it is documented to report, whatever the memory holds.
- A heap serves a request from the smallest class that fits, with the natural
  alignment of the class, and a resized allocation keeps its bytes.
- Caches and heaps on one page allocator leave each other alone.
- Memory that was never handed to the page allocator is never handed out.
