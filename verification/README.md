# bump_recycle

A recyclable bump allocator, verified with Verus. Memory is carved from
chunks in power-of-two blocks; a block given back goes to the free list of its
size class, and the next request of that class takes it from there.

- `src/` is the verified library. Addresses stand for pointers: the library
  decides where every allocation lies, which header goes in front of an
  over-aligned one, and which chunks are obtained from and given back to the
  backing allocator (`Allocator`).
  - `math.rs`: rounding up to a power-of-two alignment, ceiling logarithms.
  - `layout.rs`: `Layout`, the size and alignment of a request.
  - `allocator.rs`: `Allocator`, the source of chunks, and `Backing`, which
    holds it and records every call made to it, so that contracts can say
    exactly which chunks are requested and given back.
  - `rebump.rs`: `ReBump`, its invariant, and the laws proved of it.
- `app/` puts the library over real memory: chunks from the system allocator,
  headers written to and read from memory.
- `tests/` runs the library over a backing allocator that only hands out
  addresses.
