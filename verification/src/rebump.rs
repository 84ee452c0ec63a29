//! [`ReBump`]: a bump allocator that keeps deallocated blocks, one list per
//! power-of-two size class, and hands them out again.
use vstd::prelude::*;
use crate::allocator::{Allocator, Backing, BackingCall};
use crate::layout::Layout;
use crate::math;

verus! {

/// Amount of block classes skipped in the free-block table: the smallest
/// block is `2^BLOCK_CLASS_SKIP` bytes.
pub const BLOCK_CLASS_SKIP: usize = 3;

/// Align used both for chunks and for blocks.
pub const ALIGN: usize = 8;

/// Number of block classes in the free-block table: blocks of up to `2^35`
/// bytes, room for the largest request.
pub const CLASS_COUNT: usize = 33;

/// The largest request, in bytes, this allocator serves: `u32::MAX * 8`.
pub const MAX_SIZE: u64 = 0x7_FFFF_FFF8;

/// Written in memory just before an allocation whose alignment exceeds
/// [`ALIGN`]: how far the allocation lies from the start of its block, and the
/// class of the block.
#[derive(Clone, Copy, Debug, PartialEq, Eq, Structural)]
pub struct BlockHeader {
    pub ptr_offset: u32,
    pub block_class: u32,
}

/// Size in bytes of a [`BlockHeader`] as it is stored in memory.
pub const BLOCK_HEADER_SIZE: usize = 8;

/// What is kept of a chunk obtained from the backing allocator: `capacity`
/// bytes at `data`, of which the first `len` have been carved into blocks.
/// The chunk's memory starts [`chunk_header_size`] bytes before `data`: room
/// for the header, requested with every chunk.
#[derive(Clone, Copy, Debug, PartialEq, Eq, Structural)]
pub struct ChunkHeader {
    pub data: usize,
    pub len: usize,
    pub capacity: usize,
}

/// Memory handed out by [`ReBump::allocate`]: `len` bytes at `ptr`, and the
/// header to write just before `ptr` where there is one.
#[derive(Clone, Copy, Debug, PartialEq, Eq)]
pub struct Allocation {
    pub ptr: usize,
    pub len: usize,
    pub header: Option<BlockHeader>,
}

/// A block carved from chunk number `chunk`, at `offset` from its data, of
/// size class `class`.
pub struct Carved {
    pub chunk: nat,
    pub offset: nat,
    pub class: nat,
}

/// An allocation handed out and not yet given back, as recorded under the
/// address of its block: `len` bytes are in use from `ptr`; the block has
/// class `class`; `header` is what was handed out with it; `id` is the
/// block's number among the blocks carved.
pub struct LiveAlloc {
    pub ptr: usize,
    pub class: nat,
    pub len: nat,
    pub header: Option<BlockHeader>,
    pub id: nat,
}

/// The size in bytes of a block of class `class`.
pub open spec fn block_size_of(class: nat) -> nat {
    vstd::arithmetic::power2::pow2((class + BLOCK_CLASS_SKIP) as nat)
}

/// An allocation of `layout` needs no header: its alignment is at most
/// [`ALIGN`], which every block has.
pub open spec fn is_perfectly_aligned(layout: Layout) -> bool {
    layout.align() <= ALIGN
}

/// The alignment a request is served with: at least [`ALIGN`].
pub open spec fn corrected_align(layout: Layout) -> nat {
    if layout.align() <= ALIGN {
        ALIGN as nat
    } else {
        layout.align() as nat
    }
}

/// The size a request is served with: its size rounded up to the corrected
/// alignment.
pub open spec fn corrected_size(layout: Layout) -> nat {
    math::align_up_spec(layout.size() as int, corrected_align(layout) as int) as nat
}

/// The bytes a block must hold for `layout`: the corrected size, room to
/// align it, and the header where there is one. A zero-sized request that
/// needs no header takes the smallest block.
pub open spec fn block_request(layout: Layout) -> nat {
    let raw = corrected_size(layout) + corrected_align(layout) - ALIGN + if is_perfectly_aligned(
        layout,
    ) {
        0int
    } else {
        BLOCK_HEADER_SIZE as int
    };
    if raw == 0 {
        ALIGN as nat
    } else {
        raw as nat
    }
}

/// The exponent of the block size for `layout`.
pub open spec fn block_exp(layout: Layout) -> nat {
    math::ceil_log2(block_request(layout))
}

/// The size class of `layout`: its block has `2^(class + 3)` bytes.
pub open spec fn size_class(layout: Layout) -> nat {
    (block_exp(layout) - BLOCK_CLASS_SKIP) as nat
}

/// `layout` has a class in the free-block table, and its block size fits in
/// a `usize`.
pub open spec fn class_fits(layout: Layout) -> bool {
    &&& size_class(layout) < CLASS_COUNT
    &&& block_exp(layout) < usize::BITS
}

/// `layout` keeps a valid size once its alignment is raised to at least
/// [`ALIGN`]. Always so on a 64-bit target for a size up to [`MAX_SIZE`].
pub open spec fn correctable(layout: Layout) -> bool {
    Layout::valid_parts(layout.size() as int, corrected_align(layout) as int)
}

/// `layout` is served: its size is at most [`MAX_SIZE`] and it has a class.
pub open spec fn allocatable(layout: Layout) -> bool {
    &&& layout.size() <= MAX_SIZE
    &&& class_fits(layout)
}

/// Where in a block at `block` an allocation of `layout` starts.
pub open spec fn ptr_in_block(block: int, layout: Layout) -> int {
    if is_perfectly_aligned(layout) {
        block
    } else {
        math::align_up_spec(block + BLOCK_HEADER_SIZE, corrected_align(layout) as int)
    }
}

/// The header handed out with an allocation of `layout` in a block at
/// `block`: none where the layout is perfectly aligned. The offset is stored
/// in 32 bits.
pub open spec fn header_for(block: int, layout: Layout) -> Option<BlockHeader> {
    if is_perfectly_aligned(layout) {
        None
    } else {
        Some(
            BlockHeader {
                ptr_offset: (ptr_in_block(block, layout) - block) as u32,
                block_class: size_class(layout) as u32,
            },
        )
    }
}

/// The allocation of `layout` served from a block at `block`.
pub open spec fn allocation_for(block: int, layout: Layout) -> Allocation {
    Allocation {
        ptr: ptr_in_block(block, layout) as usize,
        len: corrected_size(layout) as usize,
        header: header_for(block, layout),
    }
}

/// The block and class that deallocating `ptr` with `layout` and `header`
/// gives back: for a perfectly aligned layout, `ptr` itself and the layout's
/// class; otherwise what the header says.
pub open spec fn dealloc_target(ptr: usize, layout: Layout, header: Option<BlockHeader>) -> Option<
    (int, nat),
> {
    if is_perfectly_aligned(layout) {
        Some((ptr as int, size_class(layout)))
    } else {
        match header {
            Some(h) => Some((ptr - h.ptr_offset, h.block_class as nat)),
            None => None,
        }
    }
}

/// The chunk blocks are carved from: the last one, or an empty chunk of no
/// capacity when there is none.
pub open spec fn root_chunk(chunks: Seq<ChunkHeader>) -> ChunkHeader {
    if chunks.len() == 0 {
        ChunkHeader { data: 0, len: 0, capacity: 0 }
    } else {
        chunks.last()
    }
}

/// A block of class `class` does not fit in what is left of the root chunk.
pub open spec fn needs_chunk(chunks: Seq<ChunkHeader>, class: nat) -> bool {
    root_chunk(chunks).len + block_size_of(class) > root_chunk(chunks).capacity
}

/// The block a request of class `class` is served from: the top of that
/// class's free list where it has one; or else the unused start of the root
/// chunk where the block fits there; or else the start of the chunk obtained
/// next, the last of `after`.
pub open spec fn handed_block(
    free: Seq<Seq<usize>>,
    before: Seq<ChunkHeader>,
    after: Seq<ChunkHeader>,
    class: nat,
) -> int {
    if free[class as int].len() > 0 {
        free[class as int].last() as int
    } else if !needs_chunk(before, class) {
        root_chunk(before).data + root_chunk(before).len
    } else {
        after.last().data as int
    }
}

/// A request of class `class` is served from a new chunk, asked of the
/// backing allocator: its free list is empty, the root chunk has no room
/// for its block, and the new chunk's layout is valid.
pub open spec fn needs_backing(free: Seq<Seq<usize>>, chunks: Seq<ChunkHeader>, class: nat) -> bool {
    &&& free[class as int].len() == 0
    &&& needs_chunk(chunks, class)
    &&& chunk_capacity_ok(grown_capacity(chunks, class))
}

/// The capacity of the chunk allocated when a block of class `class` does not
/// fit: the root's used length plus the block, rounded up to even, or twice
/// the root's capacity, whichever is larger.
pub open spec fn grown_capacity(chunks: Seq<ChunkHeader>, class: nat) -> int {
    let requested = root_chunk(chunks).len + block_size_of(class);
    let rounded = math::align_up_spec(requested, 2);
    let doubled = root_chunk(chunks).capacity * 2;
    if rounded >= doubled {
        rounded
    } else {
        doubled
    }
}

/// Bytes taken in front of a chunk's data by the chunk's header: three
/// machine words, rounded up to [`ALIGN`].
pub open spec fn chunk_header_size_spec() -> usize {
    if usize::BITS == 64 {
        24
    } else {
        16
    }
}

/// Bytes taken in front of a chunk's data by the chunk's header: three
/// machine words, rounded up to [`ALIGN`]. Every chunk is requested with this
/// room in front of its data; what is kept of the chunk lives in the
/// allocator's own list.
#[verifier::when_used_as_spec(chunk_header_size_spec)]
pub fn chunk_header_size() -> (r: usize)
    ensures
        r == chunk_header_size_spec(),
{
    if usize::BITS == 64 {
        24
    } else {
        16
    }
}

/// A chunk with `capacity` bytes of data is requested with a valid layout:
/// its header and data, aligned to [`ALIGN`].
pub open spec fn chunk_capacity_ok(capacity: int) -> bool {
    chunk_header_size() + capacity + ALIGN - 1 <= isize::MAX
}

/// What holds of each chunk: aligned data past the header's room, used
/// length and capacity multiples of [`ALIGN`], the memory within the address
/// space, and a capacity its layout can be built with.
pub open spec fn chunk_ok(c: ChunkHeader) -> bool {
    &&& c.data as int % ALIGN as int == 0
    &&& c.data >= chunk_header_size()
    &&& c.len <= c.capacity
    &&& c.len as int % ALIGN as int == 0
    &&& c.capacity as int % ALIGN as int == 0
    &&& 0 < c.capacity
    &&& c.data + c.capacity <= usize::MAX
    &&& chunk_capacity_ok(c.capacity as int)
}

/// The memory obtained from the backing allocator for chunk `c`, as an
/// `(address, size)` pair: the header's room and the data.
pub open spec fn chunk_region(c: ChunkHeader) -> (usize, usize) {
    ((c.data - chunk_header_size()) as usize, (chunk_header_size() + c.capacity) as usize)
}

/// The call that requests a chunk with `capacity` bytes of data, answered
/// `result`.
pub open spec fn chunk_request(capacity: int, result: Option<usize>) -> BackingCall {
    BackingCall::Allocate { size: (chunk_header_size() + capacity) as usize, align: ALIGN, result }
}

/// The call that gives chunk `c` back, with the layout it was requested with.
pub open spec fn chunk_release(c: ChunkHeader) -> BackingCall {
    BackingCall::Deallocate { addr: chunk_region(c).0, size: chunk_region(c).1, align: ALIGN }
}

/// The calls that give back `chunks`, the newest (last) first.
pub open spec fn chunks_released(chunks: Seq<ChunkHeader>) -> Seq<BackingCall> {
    Seq::new(chunks.len(), |i: int| chunk_release(chunks[chunks.len() - 1 - i]))
}

/// No two chunks share a byte: their memory, header included, is disjoint.
pub open spec fn chunks_disjoint(chunks: Seq<ChunkHeader>) -> bool {
    forall|i: int, j: int|
        0 <= i < chunks.len() && 0 <= j < chunks.len() && i != j ==> chunk_region(
            #[trigger] chunks[i],
        ).0 + chunk_region(chunks[i]).1 <= chunk_region(#[trigger] chunks[j]).0 || chunk_region(
            chunks[j],
        ).0 + chunk_region(chunks[j]).1 <= chunk_region(chunks[i]).0
}

/// [`ALIGN`] is a power of two.
pub proof fn lemma_align_is_pow2()
    ensures
        math::is_pow2(ALIGN as int),
{
    vstd::arithmetic::power2::lemma2_to64();
    assert(ALIGN == vstd::arithmetic::power2::pow2(3));
}

impl ChunkHeader {
    /// The address of the chunk's data, past its header's room.
    pub fn data_ptr(&self) -> (r: usize)
        ensures
            r == self.data,
    {
        self.data
    }

    /// Obtains from `backing` a chunk with `capacity` bytes of data, aligned
    /// to [`ALIGN`], behind the room for its header: one request, recorded by
    /// `backing`. The chunk's data starts past that room in the memory
    /// `backing` handed out; `None` when `backing` has no memory.
    pub fn allocate_chunk<A: Allocator>(backing: &mut Backing<A>, capacity: usize) -> (r: Option<
        ChunkHeader,
    >)
        requires
            chunk_capacity_ok(capacity as int),
        ensures
            final(backing).allocator() == old(backing).allocator(),
            final(backing).calls() == old(backing).calls().push(
                chunk_request(
                    capacity as int,
                    match r {
                        Some(c) => Some(chunk_region(c).0),
                        None => None,
                    },
                ),
            ),
            r matches Some(c) ==> {
                &&& c.len == 0
                &&& c.capacity == capacity
                &&& c.data as int % ALIGN as int == 0
                &&& c.data >= chunk_header_size()
                &&& c.data + c.capacity <= usize::MAX
                &&& (capacity > 0 && capacity as int % ALIGN as int == 0 ==> chunk_ok(c))
            },
    {
        proof {
            lemma_align_is_pow2();
        }
        let size = chunk_header_size() + capacity;
        let layout = match Layout::from_size_align(size, ALIGN) {
            Some(l) => l,
            None => return None,
        };
        match backing.allocate(layout) {
            Some(addr) => {
                proof {
                    vstd::arithmetic::div_mod::lemma_fundamental_div_mod(addr as int, 8);
                    vstd::arithmetic::div_mod::lemma_mod_multiples_basic(addr as int / 8 + 3, 8);
                    vstd::arithmetic::div_mod::lemma_mod_multiples_basic(addr as int / 8 + 2, 8);
                }
                Some(ChunkHeader { data: addr + chunk_header_size(), len: 0, capacity })
            },
            None => None,
        }
    }

    /// Gives the chunk's memory back to `backing`, with the layout it was
    /// obtained with: one call, recorded by `backing`.
    pub fn deallocate_chunk<A: Allocator>(backing: &mut Backing<A>, chunk: ChunkHeader)
        requires
            chunk.data >= chunk_header_size(),
            chunk_capacity_ok(chunk.capacity as int),
        ensures
            final(backing).allocator() == old(backing).allocator(),
            final(backing).calls() == old(backing).calls().push(chunk_release(chunk)),
    {
        proof {
            lemma_align_is_pow2();
        }
        let layout = Layout::from_size_align_unchecked(
            chunk_header_size() + chunk.capacity,
            ALIGN,
        );
        backing.deallocate(chunk.data - chunk_header_size(), layout);
    }
}

/// A recyclable bump allocator over the chunks of a backing allocator `A`.
///
/// Each request is served with a block of a power-of-two size. A block given
/// back goes to the list of its size class, and the next request of that class
/// takes it from there; otherwise the block is carved from the end of the
/// root chunk, and a new, larger chunk is obtained when the root is full.
pub struct ReBump<A: Allocator> {
    backing: Backing<A>,
    /// Chunks in the order they were obtained; the last one is the root.
    chunks: Vec<ChunkHeader>,
    /// For each class, the blocks given back, most recent last.
    free_blocks: Vec<Vec<usize>>,
    /// Every block carved since the last reset, in carving order.
    carved: Ghost<Seq<Carved>>,
    /// For each class, the numbers of the blocks in its free list.
    free_ids: Ghost<Seq<Seq<nat>>>,
    /// The allocations handed out and not given back, by block address.
    live: Ghost<Map<int, LiveAlloc>>,
}

impl<A: Allocator> ReBump<A> {
    /// The backing allocator, with the record of the calls made to it.
    pub closed spec fn backing(&self) -> Backing<A> {
        self.backing
    }

    /// The chunks obtained, oldest first; the last is the root.
    pub closed spec fn chunks(&self) -> Seq<ChunkHeader> {
        self.chunks@
    }

    /// For each class, the addresses of its free blocks, most recent last.
    pub closed spec fn free_lists(&self) -> Seq<Seq<usize>> {
        Seq::new(self.free_blocks@.len(), |c: int| self.free_blocks@[c]@)
    }

    /// The allocations handed out and not given back, by the address of
    /// their block.
    pub closed spec fn live(&self) -> Map<int, LiveAlloc> {
        self.live@
    }

    /// The address of carved block number `k`.
    closed spec fn carved_addr(&self, k: int) -> int {
        self.chunks@[self.carved@[k].chunk as int].data + self.carved@[k].offset
    }

    /// One free list per class, each paired with the numbers of its blocks,
    /// none twice.
    spec fn wf_lists(&self) -> bool {
        &&& self.free_blocks@.len() == CLASS_COUNT
        &&& self.free_ids@.len() == CLASS_COUNT
        &&& forall|c: int|
            0 <= c < CLASS_COUNT ==> #[trigger] self.free_ids@[c].len()
                == self.free_blocks@[c]@.len() && self.free_ids@[c].no_duplicates()
    }

    /// Every chunk meets [`chunk_ok`].
    spec fn wf_chunks(&self) -> bool {
        forall|i: int| 0 <= i < self.chunks@.len() ==> chunk_ok(#[trigger] self.chunks@[i])
    }

    /// Every carved block lies in the carved part of its chunk, aligned, and
    /// after the blocks carved before it from the same chunk.
    spec fn wf_carved(&self) -> bool {
        &&& forall|k: int|
            0 <= k < self.carved@.len() ==> {
                let b = #[trigger] self.carved@[k];
                &&& b.chunk < self.chunks@.len()
                &&& b.class < CLASS_COUNT
                &&& b.offset % ALIGN as nat == 0
                &&& b.offset + block_size_of(b.class) <= self.chunks@[b.chunk as int].len
            }
        &&& forall|k: int, j: int|
            0 <= k < j < self.carved@.len() && (#[trigger] self.carved@[k]).chunk == (
            #[trigger] self.carved@[j]).chunk ==> self.carved@[k].offset + block_size_of(
                self.carved@[k].class,
            ) <= self.carved@[j].offset
    }

    /// Every free block is a carved block of its list's class, at the
    /// address the list holds.
    spec fn wf_free(&self) -> bool {
        forall|c: int, i: int|
            0 <= c < CLASS_COUNT && 0 <= i < self.free_ids@[c].len() ==> {
                let k = #[trigger] self.free_ids@[c][i];
                &&& k < self.carved@.len()
                &&& self.carved@[k as int].class == c
                &&& self.free_blocks@[c]@[i] == self.carved_addr(k as int)
            }
    }

    /// Every allocation handed out lies in a carved block of its class,
    /// recorded under that block's address, and its block is not free.
    spec fn wf_live(&self) -> bool {
        forall|b: int|
            #[trigger] self.live@.contains_key(b) ==> {
                let la = self.live@[b];
                &&& la.id < self.carved@.len()
                &&& self.carved@[la.id as int].class == la.class
                &&& self.carved_addr(la.id as int) == b
                &&& b <= la.ptr
                &&& la.ptr + la.len <= b + block_size_of(la.class)
                &&& forall|c: int, i: int|
                    0 <= c < CLASS_COUNT && 0 <= i < self.free_ids@[c].len()
                        ==> #[trigger] self.free_ids@[c][i] != la.id
            }
    }

    /// The allocator's internal invariant: what every operation keeps.
    #[verifier::opaque]
    pub closed spec fn wf(&self) -> bool {
        &&& self.wf_lists()
        &&& self.wf_chunks()
        &&& self.wf_carved()
        &&& self.wf_free()
        &&& self.wf_live()
    }

    /// Carved block number `k`, at `b`, of class `class`, is neither free nor
    /// handed out.
    closed spec fn unused_block(&self, k: nat, b: int, class: nat) -> bool {
        &&& 0 <= b
        &&& b % ALIGN as int == 0
        &&& b + block_size_of(class) <= usize::MAX
        &&& class < CLASS_COUNT
        &&& k < self.carved@.len()
        &&& self.carved_addr(k as int) == b
        &&& self.carved@[k as int].class == class
        &&& forall|c: int, i: int|
            0 <= c < CLASS_COUNT && 0 <= i < self.free_ids@[c].len() ==> #[trigger] self.free_ids@[c][i]
                != k
        &&& forall|q: int| #[trigger] self.live@.contains_key(q) ==> self.live@[q].id != k
    }

    /// `layout` with its alignment raised to at least [`ALIGN`] and its size
    /// padded to a multiple of that alignment.
    fn correct_layout(layout: Layout) -> (r: Layout)
        requires
            layout.valid(),
            correctable(layout),
        ensures
            r.size() == corrected_size(layout),
            r.align() == corrected_align(layout),
    {
        proof {
            lemma_corrected(layout);
            math::lemma_pow2_at_most_half(layout.align() as int);
        }
        let align = if layout.align() > ALIGN {
            layout.align()
        } else {
            ALIGN
        };
        Layout::from_size_align_unchecked(layout.size(), align).pad_to_align()
    }

    /// Perfectly aligned data does not need a [`BlockHeader`].
    pub fn perfectly_aligned(layout: Layout) -> (r: bool)
        ensures
            r == is_perfectly_aligned(layout),
    {
        layout.align() <= ALIGN
    }

    /// The exponent of the size of the block that serves `layout`.
    fn block_size_exp(layout: Layout) -> (r: usize)
        requires
            layout.valid(),
            correctable(layout),
        ensures
            r == block_exp(layout),
            BLOCK_CLASS_SKIP <= r <= usize::BITS,
    {
        proof {
            lemma_corrected(layout);
            lemma_block_request(layout);
        }
        let perfectly_aligned = Self::perfectly_aligned(layout);
        let layout = Self::correct_layout(layout);
        let max_padding_offset = layout.align() - ALIGN;
        let block_header_size = if !perfectly_aligned {
            BLOCK_HEADER_SIZE
        } else {
            0
        };
        let block_size = layout.size() + max_padding_offset + block_header_size;
        let block_size = if block_size == 0 {
            ALIGN
        } else {
            block_size
        };
        math::ilog2_ceil(block_size) as usize
    }

    /// Takes the most recently given-back block of class `class`, if any.
    fn pop_free_block(&mut self, class: usize) -> (r: Option<(usize, Ghost<nat>)>)
        requires
            old(self).wf(),
            class < CLASS_COUNT,
        ensures
            final(self).wf(),
            final(self).backing == old(self).backing,
            final(self).chunks == old(self).chunks,
            final(self).carved == old(self).carved,
            final(self).live == old(self).live,
            old(self).free_lists()[class as int].len() == 0 ==> r is None && final(self).free_lists()
                == old(self).free_lists(),
            old(self).free_lists()[class as int].len() > 0 ==> (r matches Some((b, id)) && b == old(
                self,
            ).free_lists()[class as int].last() && final(self).free_lists() == old(
                self,
            ).free_lists().update(class as int, old(self).free_lists()[class as int].drop_last())
                && final(self).unused_block(id@, b as int, class as nat)),
    {
        proof {
            reveal(ReBump::wf);
        }
        if self.free_blocks[class].len() == 0 {
            return None;
        }
        let b = self.free_blocks[class].pop().unwrap();
        let ghost id = self.free_ids@[class as int].last();
        self.free_ids = Ghost(
            self.free_ids@.update(class as int, self.free_ids@[class as int].drop_last()),
        );
        Some((b, Ghost(id)))
    }

    /// Obtains from the backing allocator a new root chunk with `capacity`
    /// bytes of data; `false` when the backing allocator has no memory.
    fn push_chunk(&mut self, capacity: usize) -> (ok: bool)
        requires
            old(self).wf(),
            capacity > 0,
            capacity as int % ALIGN as int == 0,
            chunk_capacity_ok(capacity as int),
        ensures
            final(self).wf(),
            final(self).free_blocks == old(self).free_blocks,
            final(self).free_ids == old(self).free_ids,
            final(self).live == old(self).live,
            final(self).carved == old(self).carved,
            final(self).backing.calls() == old(self).backing.calls().push(
                chunk_request(
                    capacity as int,
                    if ok {
                        Some(chunk_region(final(self).chunks@.last()).0)
                    } else {
                        None
                    },
                ),
            ),
            final(self).backing.allocator() == old(self).backing.allocator(),
            !ok ==> final(self).chunks == old(self).chunks,
            ok ==> {
                &&& final(self).chunks@.len() == old(self).chunks@.len() + 1
                &&& final(self).chunks@.drop_last() == old(self).chunks@
                &&& final(self).chunks@.last().len == 0
                &&& final(self).chunks@.last().capacity == capacity
            },
    {
        proof {
            reveal(ReBump::wf);
        }
        let chunk = match ChunkHeader::allocate_chunk(&mut self.backing, capacity) {
            Some(c) => c,
            None => return false,
        };
        self.chunks.push(chunk);
        proof {
            assert(self.chunks@.drop_last() =~= old(self).chunks@);
            assert forall|k: int| 0 <= k < self.carved@.len() implies self.carved_addr(k)
                == old(self).carved_addr(k) by {
                assert(self.carved@[k].chunk < old(self).chunks@.len());
            }
        }
        true
    }

    /// Carves a block of class `class`, of `block_size` bytes, from the end of
    /// the used part of the root chunk, which has room for it.
    fn carve(&mut self, class: usize, block_size: usize) -> (r: (usize, Ghost<nat>))
        requires
            old(self).wf(),
            class < CLASS_COUNT,
            block_size == block_size_of(class as nat),
            old(self).chunks@.len() > 0,
            old(self).chunks@.last().len + block_size <= old(self).chunks@.last().capacity,
        ensures
            final(self).wf(),
            final(self).backing == old(self).backing,
            final(self).free_blocks == old(self).free_blocks,
            final(self).free_ids == old(self).free_ids,
            final(self).live == old(self).live,
            ({
                let root = old(self).chunks@.last();
                &&& r.0 == root.data + root.len
                &&& final(self).chunks@ == old(self).chunks@.update(
                    old(self).chunks@.len() - 1,
                    ChunkHeader { len: (root.len + block_size) as usize, ..root },
                )
                &&& final(self).unused_block(r.1@, r.0 as int, class as nat)
            }),
    {
        proof {
            reveal(ReBump::wf);
            lemma_block_size(class as nat);
        }
        let last = self.chunks.len() - 1;
        let chunk = self.chunks[last];
        let start = chunk.len;
        self.chunks.set(last, ChunkHeader { data: chunk.data, len: start + block_size, capacity: chunk.capacity });
        let ghost id = self.carved@.len();
        self.carved = Ghost(
            self.carved@.push(Carved { chunk: last as nat, offset: start as nat, class: class as nat }),
        );
        proof {
            assert forall|i: int| 0 <= i < self.chunks@.len() implies chunk_region(
                #[trigger] self.chunks@[i],
            ) == chunk_region(old(self).chunks@[i]) by {}
        }
        (chunk.data + start, Ghost(id))
    }

    /// Carves a block of class `class` from the root chunk, obtaining a new
    /// root first when the block does not fit in it.
    #[verifier::spinoff_prover]
    fn bump(&mut self, class: usize, exp: usize) -> (r: Option<(usize, Ghost<nat>)>)
        requires
            old(self).wf(),
            class < CLASS_COUNT,
            exp == class + BLOCK_CLASS_SKIP,
            exp < usize::BITS,
        ensures
            final(self).wf(),
            final(self).free_blocks == old(self).free_blocks,
            final(self).free_ids == old(self).free_ids,
            final(self).live == old(self).live,
            !(needs_chunk(old(self).chunks(), class as nat) && chunk_capacity_ok(
                grown_capacity(old(self).chunks(), class as nat),
            )) ==> final(self).backing == old(self).backing,
            final(self).backing.allocator() == old(self).backing.allocator(),
            !needs_chunk(old(self).chunks(), class as nat) ==> (r matches Some((b, id)) && {
                let root = root_chunk(old(self).chunks());
                &&& b == root.data + root.len
                &&& final(self).chunks() == old(self).chunks().update(
                    old(self).chunks().len() - 1,
                    ChunkHeader { len: (root.len + block_size_of(class as nat)) as usize, ..root },
                )
                &&& final(self).unused_block(id@, b as int, class as nat)
            }),
            needs_chunk(old(self).chunks(), class as nat) ==> match r {
                None => final(self).chunks() == old(self).chunks(),
                Some((b, id)) => {
                    &&& final(self).chunks().len() == old(self).chunks().len() + 1
                    &&& final(self).chunks().drop_last() == old(self).chunks()
                    &&& final(self).chunks().last().len == block_size_of(class as nat)
                    &&& final(self).chunks().last().capacity == grown_capacity(
                        old(self).chunks(),
                        class as nat,
                    )
                    &&& b == final(self).chunks().last().data
                    &&& final(self).unused_block(id@, b as int, class as nat)
                },
            },
            needs_chunk(old(self).chunks(), class as nat) && chunk_capacity_ok(
                grown_capacity(old(self).chunks(), class as nat),
            ) ==> final(self).backing.calls() == old(self).backing.calls().push(
                chunk_request(
                    grown_capacity(old(self).chunks(), class as nat),
                    match r {
                        Some(_) => Some(chunk_region(final(self).chunks().last()).0),
                        None => None,
                    },
                ),
            ),
            needs_chunk(old(self).chunks(), class as nat) && !chunk_capacity_ok(
                grown_capacity(old(self).chunks(), class as nat),
            ) ==> r is None,
    {
        proof {
            reveal(ReBump::wf);
        }
        proof {
            lemma_block_size(class as nat);
            vstd::bits::lemma_usize_pow2_no_overflow(exp as nat);
            vstd::bits::lemma_usize_shl_is_mul(1, exp);
            math::lemma_pow2_bits();
            if exp + 1 < usize::BITS {
                vstd::arithmetic::power2::lemma_pow2_strictly_increases(
                    exp as nat,
                    (usize::BITS - 1) as nat,
                );
            }
            vstd::arithmetic::power2::lemma_pow2_unfold(usize::BITS as nat);
        }
        let block_size = 1usize << exp;
        assert(block_size == block_size_of(class as nat));
        let n = self.chunks.len();
        let (root_len, root_capacity) = if n == 0 {
            (0usize, 0usize)
        } else {
            let c = self.chunks[n - 1];
            (c.len, c.capacity)
        };
        assert(root_len == root_chunk(self.chunks@).len);
        assert(root_capacity == root_chunk(self.chunks@).capacity);
        let requested_len = root_len + block_size;
        if requested_len > root_capacity {
            proof {
                math::lemma_align_up(requested_len as int, 2);
                vstd::arithmetic::div_mod::lemma_fundamental_div_mod(requested_len as int, 8);
                math::lemma_align_up_aligned(requested_len as int, 2);
                math::lemma_two_is_pow2();
            }
            let rounded = math::align_up::<2>(requested_len);
            let doubled = root_capacity * 2;
            let new_capacity = if rounded >= doubled {
                rounded
            } else {
                doubled
            };
            if new_capacity > isize::MAX as usize - (ALIGN - 1) - chunk_header_size() {
                // No valid layout has that size.
                return None;
            }
            if !self.push_chunk(new_capacity) {
                return None;
            }
        }
        Some(self.carve(class, block_size))
    }

    /// Records that the allocation `la` was handed out from the unused block
    /// at `b`.
    fn record_live(&mut self, Ghost(b): Ghost<int>, Ghost(la): Ghost<LiveAlloc>)
        requires
            old(self).wf(),
            old(self).unused_block(la.id, b, la.class),
            b <= la.ptr,
            la.ptr + la.len <= b + block_size_of(la.class),
        ensures
            final(self).wf(),
            final(self).backing == old(self).backing,
            final(self).chunks == old(self).chunks,
            final(self).free_blocks == old(self).free_blocks,
            final(self).live@ == old(self).live@.insert(b, la),
    {
        proof {
            reveal(ReBump::wf);
        }
        self.live = Ghost(self.live@.insert(b, la));
        proof {
            let old_live = old(self).live@;
            assert forall|q: int| #[trigger] self.live@.contains_key(q) implies {
                let la2 = self.live@[q];
                &&& la2.id < self.carved@.len()
                &&& self.carved@[la2.id as int].class == la2.class
                &&& self.carved_addr(la2.id as int) == q
                &&& q <= la2.ptr
                &&& la2.ptr + la2.len <= q + block_size_of(la2.class)
                &&& forall|c: int, i: int|
                    0 <= c < CLASS_COUNT && 0 <= i < self.free_ids@[c].len()
                        ==> #[trigger] self.free_ids@[c][i] != la2.id
            } by {
                if q != b {
                    assert(old_live.contains_key(q));
                }
            }
        }
    }

    /// An unused block does not overlap the block of any allocation handed
    /// out, as long as the chunks do not overlap.
    proof fn lemma_unused_block_fresh(&self, k: nat, b: int, class: nat)
        requires
            self.wf(),
            chunks_disjoint(self.chunks()),
            self.unused_block(k, b, class),
        ensures
            forall|q: int| #[trigger]
                self.live().contains_key(q) ==> q + block_size_of(self.live()[q].class) <= b || b
                    + block_size_of(class) <= q,
    {
        reveal(ReBump::wf);
        assert forall|q: int| #[trigger] self.live().contains_key(q) implies q + block_size_of(
            self.live()[q].class,
        ) <= b || b + block_size_of(class) <= q by {
            let j = self.live@[q].id as int;
            self.lemma_carved_disjoint(k as int, j);
        }
    }

    /// Two blocks carved from the chunks do not overlap, as long as the chunks
    /// do not.
    proof fn lemma_carved_disjoint(&self, k: int, j: int)
        requires
            self.wf(),
            chunks_disjoint(self.chunks()),
            0 <= k < self.carved@.len(),
            0 <= j < self.carved@.len(),
            k != j,
        ensures
            self.carved_addr(k) + block_size_of(self.carved@[k].class) <= self.carved_addr(j)
                || self.carved_addr(j) + block_size_of(self.carved@[j].class) <= self.carved_addr(
                k,
            ),
    {
        reveal(ReBump::wf);
        let bk = self.carved@[k];
        let bj = self.carved@[j];
        if bk.chunk == bj.chunk {
            if k < j {
                assert(bk.offset + block_size_of(bk.class) <= bj.offset);
            } else {
                assert(bj.offset + block_size_of(bj.class) <= bk.offset);
            }
        } else {
            let ck = self.chunks@[bk.chunk as int];
            let cj = self.chunks@[bj.chunk as int];
            assert(chunk_ok(ck) && chunk_ok(cj));
            assert(chunk_region(ck).0 + chunk_region(ck).1 <= chunk_region(cj).0 || chunk_region(
                cj,
            ).0 + chunk_region(cj).1 <= chunk_region(ck).0);
        }
    }

    /// Takes a block of class `class` (of `2^exp` bytes) from its free list,
    /// or else carves one from the root chunk.
    fn take_block(&mut self, class: usize, exp: usize) -> (r: Option<(usize, Ghost<nat>)>)
        requires
            old(self).wf(),
            class < CLASS_COUNT,
            exp == class + BLOCK_CLASS_SKIP,
            exp < usize::BITS,
        ensures
            final(self).wf(),
            !needs_backing(old(self).free_lists(), old(self).chunks(), class as nat) ==> final(self).backing == old(self).backing,
            final(self).live == old(self).live,
            r matches Some((b, id)) ==> final(self).unused_block(id@, b as int, class as nat),
            final(self).backing.allocator() == old(self).backing.allocator(),
            r is None ==> final(self).chunks() == old(self).chunks() && final(self).free_lists()
                == old(self).free_lists(),
            old(self).free_lists()[class as int].len() > 0 ==> {
                let b = old(self).free_lists()[class as int].last();
                &&& r matches Some((rb, _)) && rb == b
                &&& final(self).chunks() == old(self).chunks()
                &&& final(self).free_lists() == old(self).free_lists().update(
                    class as int,
                    old(self).free_lists()[class as int].drop_last(),
                )
            },
            old(self).free_lists()[class as int].len() == 0 && !needs_chunk(
                old(self).chunks(),
                class as nat,
            ) ==> {
                let root = root_chunk(old(self).chunks());
                &&& r matches Some((rb, _)) && rb == root.data + root.len
                &&& final(self).chunks() == old(self).chunks().update(
                    old(self).chunks().len() - 1,
                    ChunkHeader { len: (root.len + block_size_of(class as nat)) as usize, ..root },
                )
                &&& final(self).free_lists() == old(self).free_lists()
            },
            old(self).free_lists()[class as int].len() == 0 && needs_chunk(
                old(self).chunks(),
                class as nat,
            ) && r is Some ==> (r matches Some((rb, _)) && {
                &&& final(self).chunks().len() == old(self).chunks().len() + 1
                &&& final(self).chunks().drop_last() == old(self).chunks()
                &&& final(self).chunks().last().len == block_size_of(class as nat)
                &&& final(self).chunks().last().capacity == grown_capacity(
                    old(self).chunks(),
                    class as nat,
                )
                &&& rb == final(self).chunks().last().data
                &&& final(self).free_lists() == old(self).free_lists()
            }),
            needs_backing(old(self).free_lists(), old(self).chunks(), class as nat) ==> final(self).backing.calls() == old(self).backing.calls().push(
                chunk_request(
                    grown_capacity(old(self).chunks(), class as nat),
                    match r {
                        Some(_) => Some(chunk_region(final(self).chunks().last()).0),
                        None => None,
                    },
                ),
            ),
            old(self).free_lists()[class as int].len() == 0 && needs_chunk(
                old(self).chunks(),
                class as nat,
            ) && !chunk_capacity_ok(grown_capacity(old(self).chunks(), class as nat)) ==> r is None,
    {
        // 1. Try `free_blocks` first.
        match self.pop_free_block(class) {
            Some(found) => Some(found),
            // 2. "Allocate" in the root chunk.
            None => self.bump(class, exp),
        }
    }

    /// Allocates memory for `layout`: a block of the layout's size class is
    /// taken from that class's free list where it has one, or else carved
    /// from the root chunk, a new chunk being obtained from the backing
    /// allocator when the root is full. Returns `None` when the request is
    /// larger than [`MAX_SIZE`] or too large for any class, or when a needed
    /// chunk cannot be obtained.
    ///
    /// A request up to [`MAX_SIZE`] must stay valid with its alignment
    /// raised to [`ALIGN`]; on a 64-bit target every such request does.
    #[verifier::spinoff_prover]
    pub fn allocate(&mut self, layout: Layout) -> (r: Option<Allocation>)
        requires
            old(self).wf(),
            layout.valid(),
            layout.size() <= MAX_SIZE ==> correctable(layout),
        ensures
            final(self).wf(),
            !(allocatable(layout) && needs_backing(
                old(self).free_lists(),
                old(self).chunks(),
                size_class(layout),
            )) ==> final(self).backing() == old(self).backing(),
            final(self).backing().allocator() == old(self).backing().allocator(),
            allocatable(layout) && needs_backing(
                old(self).free_lists(),
                old(self).chunks(),
                size_class(layout),
            ) ==> final(self).backing().calls() == old(self).backing().calls().push(
                chunk_request(
                    grown_capacity(old(self).chunks(), size_class(layout)),
                    match r {
                        Some(_) => Some(chunk_region(final(self).chunks().last()).0),
                        None => None,
                    },
                ),
            ),
            !allocatable(layout) ==> r is None,
            r is None ==> final(self).chunks() == old(self).chunks() && final(self).free_lists() == old(
                self,
            ).free_lists() && final(self).live() == old(self).live(),
            allocatable(layout) && old(self).free_lists()[size_class(layout) as int].len() > 0 ==> {
                let c = size_class(layout) as int;
                &&& r is Some
                &&& final(self).chunks() == old(self).chunks()
                &&& final(self).free_lists() == old(self).free_lists().update(
                    c,
                    old(self).free_lists()[c].drop_last(),
                )
            },
            allocatable(layout) && old(self).free_lists()[size_class(layout) as int].len() == 0
                && !needs_chunk(old(self).chunks(), size_class(layout)) ==> {
                let root = root_chunk(old(self).chunks());
                &&& r is Some
                &&& final(self).chunks() == old(self).chunks().update(
                    old(self).chunks().len() - 1,
                    ChunkHeader { len: (root.len + block_size_of(size_class(layout))) as usize, ..root },
                )
                &&& final(self).free_lists() == old(self).free_lists()
            },
            allocatable(layout) && old(self).free_lists()[size_class(layout) as int].len() == 0
                && needs_chunk(old(self).chunks(), size_class(layout)) && r is Some ==> {
                let c = size_class(layout);
                &&& final(self).chunks().len() == old(self).chunks().len() + 1
                &&& final(self).chunks().drop_last() == old(self).chunks()
                &&& final(self).chunks().last().len == block_size_of(c)
                &&& final(self).chunks().last().capacity == grown_capacity(old(self).chunks(), c)
                &&& final(self).free_lists() == old(self).free_lists()
            },
            allocatable(layout) && old(self).free_lists()[size_class(layout) as int].len() == 0
                && needs_chunk(old(self).chunks(), size_class(layout)) && !chunk_capacity_ok(
                grown_capacity(old(self).chunks(), size_class(layout)),
            ) ==> r is None,
            r matches Some(a) ==> {
                let b = handed_block(
                    old(self).free_lists(),
                    old(self).chunks(),
                    final(self).chunks(),
                    size_class(layout),
                );
                &&& a == allocation_for(b, layout)
                &&& a.ptr as int % layout.align() as int == 0
                &&& a.len == corrected_size(layout)
                &&& a.len >= layout.size()
                &&& final(self).live().contains_key(b)
                &&& final(self).live().remove(b) == old(self).live().remove(b)
                &&& final(self).live()[b].ptr == a.ptr
                &&& final(self).live()[b].class == size_class(layout)
                &&& final(self).live()[b].len == a.len
                &&& final(self).live()[b].header == a.header
                &&& (dealloc_target(a.ptr, layout, a.header) == Some((b, size_class(layout))) <==> (
                is_perfectly_aligned(layout) || a.ptr - b <= u32::MAX))
                &&& chunks_disjoint(final(self).chunks()) ==> forall|q: int| #[trigger]
                    old(self).live().contains_key(q) ==> q + block_size_of(old(self).live()[q].class)
                        <= b || b + block_size_of(size_class(layout)) <= q
            },
    {
        proof {
            lemma_block_request(layout);
            lemma_corrected(layout);
        }
        if layout.size() as u64 > MAX_SIZE {
            // Larger than any request this allocator serves.
            return None;
        }
        let block_size_exp = Self::block_size_exp(layout);
        let block_class_index = block_size_exp - BLOCK_CLASS_SKIP;
        if block_class_index >= CLASS_COUNT || block_size_exp >= usize::BITS as usize {
            // Required layout size is too big.
            return None;
        }
        let (block_ptr, id) = match self.take_block(block_class_index, block_size_exp) {
            Some(taken) => taken,
            None => return None,
        };
        let perfectly_aligned = Self::perfectly_aligned(layout);
        let corrected = Self::correct_layout(layout);
        proof {
            lemma_allocation_in_block(block_ptr as int, layout);
        }
        let (ptr, header) = if perfectly_aligned {
            // Don't add a BlockHeader if we're perfectly aligned.
            (block_ptr, None)
        } else {
            let ptr = math::align_up_addr(block_ptr + BLOCK_HEADER_SIZE, corrected.align());
            let header = BlockHeader {
                ptr_offset: (ptr - block_ptr) as u32,
                block_class: block_class_index as u32,
            };
            (ptr, Some(header))
        };
        let allocation = Allocation { ptr, len: corrected.size(), header };
        proof {
            if chunks_disjoint(self.chunks()) {
                self.lemma_unused_block_fresh(id@, block_ptr as int, block_class_index as nat);
            }
        }
        self.record_live(
            Ghost(block_ptr as int),
            Ghost(
                LiveAlloc {
                    ptr,
                    class: block_class_index as nat,
                    len: corrected.size() as nat,
                    header,
                    id: id@,
                },
            ),
        );
        Some(allocation)
    }

    /// Puts the block at `b`, of class `class`, on its class's free list, as
    /// the allocation it was handed out for is given back.
    fn push_free_block(&mut self, class: usize, b: usize)
        requires
            old(self).wf(),
            class < CLASS_COUNT,
            old(self).live().contains_key(b as int),
            old(self).live()[b as int].class == class,
        ensures
            final(self).wf(),
            final(self).backing == old(self).backing,
            final(self).chunks == old(self).chunks,
            final(self).free_lists() == old(self).free_lists().update(
                class as int,
                old(self).free_lists()[class as int].push(b),
            ),
            final(self).live() == old(self).live().remove(b as int),
    {
        proof {
            reveal(ReBump::wf);
        }
        let ghost id = self.live@[b as int].id;
        self.free_blocks[class].push(b);
        self.free_ids = Ghost(self.free_ids@.update(class as int, self.free_ids@[class as int].push(id)));
        self.live = Ghost(self.live@.remove(b as int));
        proof {
            let old_ids = old(self).free_ids@;
            assert(!old_ids[class as int].contains(id));
            assert forall|c: int, i: int|
                0 <= c < CLASS_COUNT && 0 <= i < self.free_ids@[c].len() implies {
                let k = #[trigger] self.free_ids@[c][i];
                &&& k < self.carved@.len()
                &&& self.carved@[k as int].class == c
                &&& self.free_blocks@[c]@[i] == self.carved_addr(k as int)
            } by {
                if c == class && i == old_ids[c].len() {
                } else {
                    assert(self.free_ids@[c][i] == old_ids[c][i]);
                }
            }
            assert forall|q: int| #[trigger] self.live@.contains_key(q) implies {
                let la = self.live@[q];
                &&& forall|c: int, i: int|
                    0 <= c < CLASS_COUNT && 0 <= i < self.free_ids@[c].len()
                        ==> #[trigger] self.free_ids@[c][i] != la.id
            } by {
                assert(old(self).live@.contains_key(q));
                assert(self.live@[q].id != id);
                assert forall|c: int, i: int|
                    0 <= c < CLASS_COUNT && 0 <= i < self.free_ids@[c].len()
                        implies #[trigger] self.free_ids@[c][i] != self.live@[q].id by {
                    if c == class && i == old_ids[c].len() {
                    } else {
                        assert(self.free_ids@[c][i] == old_ids[c][i]);
                    }
                }
            }
            assert(self.free_lists() =~= old(self).free_lists().update(
                class as int,
                old(self).free_lists()[class as int].push(b),
            ));
        }
    }

    /// Gives back the allocation at `ptr`, made for `layout`: its block goes
    /// on the free list of its class, to be handed out again by the next
    /// request of that class. `header` is the header stored just before
    /// `ptr` where the layout needs one.
    ///
    /// The allocation must be one handed out and not yet given back: `layout`
    /// and `header` must lead back to its block and class.
    pub fn deallocate(&mut self, ptr: usize, layout: Layout, header: Option<BlockHeader>)
        requires
            old(self).wf(),
            layout.valid(),
            dealloc_target(ptr, layout, header) matches Some((b, c)) && old(
                self,
            ).live().contains_key(b) && old(self).live()[b].ptr == ptr && old(self).live()[b].class
                == c,
        ensures
            final(self).wf(),
            final(self).backing() == old(self).backing(),
            final(self).chunks() == old(self).chunks(),
            dealloc_target(ptr, layout, header) matches Some((b, c)) && final(self).free_lists()
                == old(self).free_lists().update(c as int, old(self).free_lists()[c as int].push(
                b as usize,
            )) && final(self).live() == old(self).live().remove(b),
    {
        proof {
            self.lemma_wf_shape();
            let (b, c) = dealloc_target(ptr, layout, header).unwrap();
            assert(self.live().contains_key(b));
        }
        let (block_class_index, block_ptr) = if Self::perfectly_aligned(layout) {
            // We're perfectly aligned, we don't have a BlockHeader:
            // the class follows from the layout.
            proof {
                // The layout's block lies in a chunk, whose size is valid.
                let i = self.lemma_live_allocation_in_chunk(ptr as int);
                lemma_block_request(layout);
                lemma_corrected(layout);
                assert(chunk_ok(self.chunks()[i]));
            }
            let block_size_exp = Self::block_size_exp(layout);
            (block_size_exp - BLOCK_CLASS_SKIP, ptr)
        } else {
            match header {
                Some(h) => (h.block_class as usize, ptr - h.ptr_offset as usize),
                None => {
                    proof {
                        assert(false);
                    }
                    return;
                },
            }
        };
        self.push_free_block(block_class_index, block_ptr);
    }

    /// Gives each chunk in `chunks` back to `backing`, the newest first.
    fn drop_chunk_chain(backing: &mut Backing<A>, chunks: &mut Vec<ChunkHeader>)
        requires
            forall|i: int| 0 <= i < old(chunks)@.len() ==> chunk_ok(#[trigger] old(chunks)@[i]),
        ensures
            final(chunks)@ == Seq::<ChunkHeader>::empty(),
            final(backing).allocator() == old(backing).allocator(),
            final(backing).calls() == old(backing).calls() + chunks_released(old(chunks)@),
    {
        let ghost all = chunks@;
        let ghost n = all.len() as int;
        let ghost calls0 = backing.calls();
        proof {
            assert(chunks_released(all).subrange(0, 0) =~= Seq::<BackingCall>::empty());
            assert(backing.calls() =~= calls0 + chunks_released(all).subrange(0, 0));
        }
        while chunks.len() > 0
            invariant
                chunks@ == all.subrange(0, chunks@.len() as int),
                chunks@.len() <= all.len(),
                n == all.len(),
                forall|i: int| 0 <= i < all.len() ==> chunk_ok(#[trigger] all[i]),
                backing.allocator() == old(backing).allocator(),
                backing.calls() == calls0 + chunks_released(all).subrange(
                    0,
                    n - chunks@.len(),
                ),
            decreases chunks@.len(),
        {
            let ghost k = chunks@.len() as int;
            let chunk = chunks.pop().unwrap();
            assert(chunk == all[k - 1]);
            ChunkHeader::deallocate_chunk(backing, chunk);
            proof {
                assert(chunks_released(all)[n - k] == chunk_release(all[k - 1]));
                assert(chunks_released(all).subrange(0, n - k + 1) =~= chunks_released(
                    all,
                ).subrange(0, n - k).push(chunk_release(all[k - 1])));
                assert(backing.calls() =~= calls0 + chunks_released(all).subrange(
                    0,
                    n - (k - 1),
                ));
            }
        }
        proof {
            assert(chunks_released(all).subrange(0, n) =~= chunks_released(all));
            assert(all.subrange(0, n) =~= all);
        }
    }

    /// One empty free list per class.
    fn empty_free_lists() -> (r: Vec<Vec<usize>>)
        ensures
            r@.len() == CLASS_COUNT,
            forall|c: int| 0 <= c < CLASS_COUNT ==> (#[trigger] r@[c])@ == Seq::<usize>::empty(),
    {
        let mut free_blocks: Vec<Vec<usize>> = Vec::new();
        let mut c: usize = 0;
        while c < CLASS_COUNT
            invariant
                c <= CLASS_COUNT,
                free_blocks@.len() == c,
                forall|i: int| 0 <= i < c ==> (#[trigger] free_blocks@[i])@ == Seq::<usize>::empty(),
            decreases CLASS_COUNT - c,
        {
            free_blocks.push(Vec::new());
            c = c + 1;
        }
        free_blocks
    }

    /// The free lists of [`Self::empty_free_lists`].
    proof fn lemma_no_free_blocks(free_blocks: Vec<Vec<usize>>)
        requires
            free_blocks@.len() == CLASS_COUNT,
            forall|c: int| 0 <= c < CLASS_COUNT ==> (#[trigger] free_blocks@[c])@ == Seq::<usize>::empty(),
        ensures
            Seq::new(free_blocks@.len(), |c: int| free_blocks@[c]@) == Seq::new(
                CLASS_COUNT as nat,
                |c: int| Seq::<usize>::empty(),
            ),
    {
        assert(Seq::new(free_blocks@.len(), |c: int| free_blocks@[c]@) =~= Seq::new(
            CLASS_COUNT as nat,
            |c: int| Seq::<usize>::empty(),
        ));
    }

    /// Drops all chunks, but the very last one, whose blocks are all
    /// forgotten; drops all free blocks. Every allocation handed out is
    /// invalid afterwards. With no chunk, nothing changes.
    ///
    /// In most cases this is not needed, since all freed blocks are reused:
    /// only when memory was allocated in one size class and will from now on
    /// be requested in another, or when memory is tight.
    pub fn reset(&mut self)
        requires
            old(self).wf(),
        ensures
            final(self).wf(),
            old(self).chunks().len() == 0 ==> final(self).chunks() == old(self).chunks() && final(self).backing() == old(self).backing(),
            old(self).chunks().len() > 0 ==> {
                let older = old(self).chunks().drop_last();
                &&& final(self).chunks() == seq![
                    ChunkHeader { len: 0, ..old(self).chunks().last() },
                ]
                &&& final(self).backing().calls() == old(self).backing().calls()
                    + chunks_released(older)
            },
            final(self).backing().allocator() == old(self).backing().allocator(),
            final(self).free_lists() == Seq::new(CLASS_COUNT as nat, |c: int| Seq::<usize>::empty()),
            final(self).live() == Map::<int, LiveAlloc>::empty(),
    {
        proof {
            reveal(ReBump::wf);
        }
        let n = self.chunks.len();
        if n == 0 {
            // Not a single chunk allocated: nothing was carved, nothing is free.
            proof {
                assert(self.carved@.len() == 0) by {
                    if self.carved@.len() > 0 {
                        assert(self.carved@[0].chunk < self.chunks@.len());
                    }
                }
                assert forall|c: int| 0 <= c < CLASS_COUNT implies (
                #[trigger] self.free_blocks@[c])@ == Seq::<usize>::empty() by {
                    if self.free_ids@[c].len() > 0 {
                        assert(self.free_ids@[c][0] < self.carved@.len());
                    }
                }
                Self::lemma_no_free_blocks(self.free_blocks);
                assert(self.live@ =~= Map::<int, LiveAlloc>::empty()) by {
                    assert forall|q: int| !self.live@.contains_key(q) by {
                        if self.live@.contains_key(q) {
                            assert(self.live@[q].id < self.carved@.len());
                        }
                    }
                }
            }
            return;
        }
        // 1. Drop the chunk chain, starting from the chunk before the root.
        let root = self.chunks.pop().unwrap();
        let ghost older = self.chunks@;
        proof {
            assert(older =~= old(self).chunks@.drop_last());
            assert forall|i: int| 0 <= i < older.len() implies #[trigger] chunk_ok(older[i]) by {
                assert(older[i] == old(self).chunks@[i]);
            }
        }
        Self::drop_chunk_chain(&mut self.backing, &mut self.chunks);
        // 1.1 The root is now the only chunk, and nothing is carved from it.
        self.chunks.push(ChunkHeader { data: root.data, len: 0, capacity: root.capacity });
        // 2. Clear free block "chains".
        self.free_blocks = Self::empty_free_lists();
        self.free_ids = Ghost(Seq::new(CLASS_COUNT as nat, |c: int| Seq::<nat>::empty()));
        self.carved = Ghost(Seq::empty());
        self.live = Ghost(Map::empty());
        proof {
            Self::lemma_no_free_blocks(self.free_blocks);
            assert(self.chunks@ =~= seq![ChunkHeader { len: 0, ..old(self).chunks@.last() }]);
        }
    }

    /// Gives every chunk back to the backing allocator, leaving the allocator
    /// as [`ReBump::new`] made it. Every allocation handed out is invalid
    /// afterwards.
    pub fn release(&mut self)
        requires
            old(self).wf(),
        ensures
            final(self).wf(),
            final(self).chunks() == Seq::<ChunkHeader>::empty(),
            final(self).free_lists() == Seq::new(CLASS_COUNT as nat, |c: int| Seq::<usize>::empty()),
            final(self).live() == Map::<int, LiveAlloc>::empty(),
            final(self).backing().allocator() == old(self).backing().allocator(),
            final(self).backing().calls() == old(self).backing().calls() + chunks_released(
                old(self).chunks(),
            ),
    {
        proof {
            reveal(ReBump::wf);
        }
        Self::drop_chunk_chain(&mut self.backing, &mut self.chunks);
        self.free_blocks = Self::empty_free_lists();
        self.free_ids = Ghost(Seq::new(CLASS_COUNT as nat, |c: int| Seq::<nat>::empty()));
        self.carved = Ghost(Seq::empty());
        self.live = Ghost(Map::empty());
        proof {
            Self::lemma_no_free_blocks(self.free_blocks);
        }
    }

    /// There is one free list per class, each chunk meets [`chunk_ok`], and
    /// the block of each allocation handed out is aligned to [`ALIGN`], of a
    /// class in the table, within the address space, and holds the
    /// allocation.
    pub proof fn lemma_wf_shape(&self)
        requires
            self.wf(),
        ensures
            self.free_lists().len() == CLASS_COUNT,
            forall|i: int| 0 <= i < self.chunks().len() ==> chunk_ok(#[trigger] self.chunks()[i]),
            forall|b: int| #[trigger]
                self.live().contains_key(b) ==> {
                    let la = self.live()[b];
                    &&& 0 <= b <= la.ptr
                    &&& b % ALIGN as int == 0
                    &&& la.class < CLASS_COUNT
                    &&& la.ptr + la.len <= b + block_size_of(la.class)
                    &&& b + block_size_of(la.class) <= usize::MAX
                },
    {
        reveal(ReBump::wf);
        assert forall|b: int| #[trigger] self.live().contains_key(b) implies {
            let la = self.live()[b];
            &&& 0 <= b <= la.ptr
            &&& b % ALIGN as int == 0
            &&& la.class < CLASS_COUNT
            &&& la.ptr + la.len <= b + block_size_of(la.class)
            &&& b + block_size_of(la.class) <= usize::MAX
        } by {
            let k = self.live@[b].id as int;
            let blk = self.carved@[k];
            let ch = self.chunks@[blk.chunk as int];
            assert(chunk_ok(ch));
            vstd::arithmetic::div_mod::lemma_fundamental_div_mod(ch.data as int, 8);
            vstd::arithmetic::div_mod::lemma_fundamental_div_mod(blk.offset as int, 8);
            vstd::arithmetic::div_mod::lemma_mod_multiples_basic(
                ch.data as int / 8 + blk.offset as int / 8,
                8,
            );
        }
    }

    /// The block of every allocation handed out and not given back lies
    /// within the carved part of a chunk obtained from the backing allocator;
    /// the chunk's number is returned.
    pub proof fn lemma_live_allocation_in_chunk(&self, b: int) -> (i: int)
        requires
            self.wf(),
            self.live().contains_key(b),
        ensures
            0 <= i < self.chunks().len(),
            self.chunks()[i].data <= b,
            b + block_size_of(self.live()[b].class) <= self.chunks()[i].data + self.chunks()[i].len,
    {
        reveal(ReBump::wf);
        let k = self.live@[b].id as int;
        assert(self.live@.contains_key(b));
        let blk = self.carved@[k];
        blk.chunk as int
    }

    /// The blocks of two allocations handed out and not given back do not
    /// overlap, and neither do the allocations, as long as the chunks
    /// obtained from the backing allocator do not.
    pub proof fn lemma_live_allocations_disjoint(&self, b1: int, b2: int)
        requires
            self.wf(),
            chunks_disjoint(self.chunks()),
            self.live().contains_key(b1),
            self.live().contains_key(b2),
            b1 != b2,
        ensures
            b1 + block_size_of(self.live()[b1].class) <= b2 || b2 + block_size_of(
                self.live()[b2].class,
            ) <= b1,
            self.live()[b1].ptr + self.live()[b1].len <= self.live()[b2].ptr || self.live()[b2].ptr
                + self.live()[b2].len <= self.live()[b1].ptr,
    {
        reveal(ReBump::wf);
        assert(self.live@.contains_key(b1) && self.live@.contains_key(b2));
        let k = self.live@[b1].id as int;
        let j = self.live@[b2].id as int;
        self.lemma_carved_disjoint(k, j);
    }

    /// A free block does not overlap the block of any allocation handed out
    /// and not given back, as long as the chunks obtained from the backing
    /// allocator do not.
    pub proof fn lemma_free_block_not_in_use(&self, c: int, i: int, b: int)
        requires
            self.wf(),
            chunks_disjoint(self.chunks()),
            0 <= c < CLASS_COUNT,
            0 <= i < self.free_lists()[c].len(),
            self.live().contains_key(b),
        ensures
            self.free_lists()[c][i] + block_size_of(c as nat) <= b || b + block_size_of(
                self.live()[b].class,
            ) <= self.free_lists()[c][i],
    {
        reveal(ReBump::wf);
        assert(self.live@.contains_key(b));
        let k = self.free_ids@[c][i] as int;
        let j = self.live@[b].id as int;
        assert(self.free_ids@[c][i] != self.live@[b].id);
        self.lemma_carved_disjoint(k, j);
    }

    /// An allocator with no chunk and no free block, over `backing`.
    pub fn new(backing: A) -> (r: Self)
        ensures
            r.wf(),
            r.backing().allocator() == backing,
            r.backing().calls() == Seq::<BackingCall>::empty(),
            r.chunks() == Seq::<ChunkHeader>::empty(),
            r.free_lists() == Seq::new(CLASS_COUNT as nat, |c: int| Seq::<usize>::empty()),
            r.live() == Map::<int, LiveAlloc>::empty(),
    {
        proof {
            reveal(ReBump::wf);
        }
        let free_blocks = Self::empty_free_lists();
        let r = ReBump {
            backing: Backing::new(backing),
            chunks: Vec::new(),
            free_blocks,
            carved: Ghost(Seq::empty()),
            free_ids: Ghost(Seq::new(CLASS_COUNT as nat, |c: int| Seq::<nat>::empty())),
            live: Ghost(Map::empty()),
        };
        proof {
            Self::lemma_no_free_blocks(r.free_blocks);
        }
        r
    }
}


/// The size of a block of class `class` is a multiple of [`ALIGN`], at least
/// [`ALIGN`], and `2^(class + 3)`.
pub proof fn lemma_block_size(class: nat)
    ensures
        block_size_of(class) % ALIGN as nat == 0,
        block_size_of(class) >= ALIGN,
{
    vstd::arithmetic::power2::lemma2_to64();
    vstd::arithmetic::power2::lemma_pow2_adds(class, 3);
    vstd::arithmetic::power2::lemma_pow2_pos(class);
    let q = vstd::arithmetic::power2::pow2(class) as int;
    assert(block_size_of(class) == q * 8);
    vstd::arithmetic::div_mod::lemma_mod_multiples_basic(q, 8);
}

/// The corrected alignment is a power of two, and the corrected size a
/// multiple of it that is at least the requested size and at most
/// `isize::MAX + 7`.
pub proof fn lemma_corrected(layout: Layout)
    requires
        layout.valid(),
    ensures
        math::is_pow2(corrected_align(layout) as int),
        corrected_align(layout) >= ALIGN,
        corrected_align(layout) <= isize::MAX + 1,
        corrected_size(layout) as int % corrected_align(layout) as int == 0,
        corrected_size(layout) as int % ALIGN as int == 0,
        layout.size() <= corrected_size(layout) < layout.size() + corrected_align(layout),
        is_perfectly_aligned(layout) ==> corrected_size(layout) <= isize::MAX + 7,
        !is_perfectly_aligned(layout) ==> corrected_size(layout) <= isize::MAX,
{
    vstd::arithmetic::power2::lemma2_to64();
    lemma_align_is_pow2();
    math::lemma_pow2_at_most_half(layout.align() as int);
    math::lemma_pow2_at_most_half(corrected_align(layout) as int);
    math::lemma_align_up(layout.size() as int, corrected_align(layout) as int);
    math::lemma_pow2_vs_8(corrected_align(layout) as int);
    let a = corrected_align(layout) as int;
    let s = corrected_size(layout) as int;
    if a == 8 {
    } else {
        // s is a multiple of a, and a of 8
        vstd::arithmetic::div_mod::lemma_fundamental_div_mod(s, a);
        vstd::arithmetic::div_mod::lemma_fundamental_div_mod(a, 8);
        let qs = s / a;
        let qa = a / 8;
        assert(s == 8 * (qs * qa)) by (nonlinear_arith)
            requires
                s == a * qs,
                a == 8 * qa,
        ;
        vstd::arithmetic::div_mod::lemma_mod_multiples_basic(qs * qa, 8);
    }
}

/// The block requested for `layout` is at least [`ALIGN`] bytes, and its
/// exponent at least 3; where the class fits, the block holds the request.
pub proof fn lemma_block_request(layout: Layout)
    requires
        layout.valid(),
    ensures
        block_request(layout) >= ALIGN,
        block_request(layout) <= usize::MAX,
        block_exp(layout) >= BLOCK_CLASS_SKIP,
        size_class(layout) + BLOCK_CLASS_SKIP == block_exp(layout),
        block_size_of(size_class(layout)) >= block_request(layout),
        block_request(layout) as int % ALIGN as int == 0,
{
    lemma_corrected(layout);
    vstd::arithmetic::power2::lemma2_to64();
    let x = block_request(layout);
    let s = corrected_size(layout) as int;
    let a = corrected_align(layout) as int;
    if is_perfectly_aligned(layout) {
        assert(a == 8);
        if s == 0 {
            assert(x == 8);
        } else {
            assert(x == s);
            vstd::arithmetic::div_mod::lemma_fundamental_div_mod(s, 8);
        }
    } else {
        math::lemma_pow2_vs_8(a);
        assert(x == s + a);
        vstd::arithmetic::div_mod::lemma_mod_adds(s, a, 8);
    }
    math::lemma_ceil_log2_unique(8, 3);
    math::lemma_ceil_log2_monotone(8, x);
    math::lemma_ceil_log2_bounds(x);
}

/// Where an allocation of `layout` lies in a block at `block` with room for
/// it: inside the block, aligned as requested, at least as long as
/// requested; with a header, at least a header's size past the block's start
/// and at most the corrected alignment past it.
pub proof fn lemma_allocation_in_block(block: int, layout: Layout)
    requires
        layout.valid(),
        class_fits(layout),
        block >= 0,
        block % ALIGN as int == 0,
        block + block_size_of(size_class(layout)) <= usize::MAX,
    ensures
        block <= ptr_in_block(block, layout),
        ptr_in_block(block, layout) + corrected_size(layout) <= block + block_size_of(size_class(layout)),
        ptr_in_block(block, layout) % layout.align() as int == 0,
        corrected_size(layout) >= layout.size(),
        !is_perfectly_aligned(layout) ==> block + BLOCK_HEADER_SIZE <= ptr_in_block(block, layout)
            <= block + corrected_align(layout),
{
    lemma_corrected(layout);
    lemma_block_request(layout);
    let a = corrected_align(layout) as int;
    let s = corrected_size(layout) as int;
    let p = ptr_in_block(block, layout);
    if is_perfectly_aligned(layout) {
        math::lemma_pow2_vs_8(layout.align() as int);
        math::lemma_pow2_positive(layout.align() as int);
        let al = layout.align() as int;
        vstd::arithmetic::div_mod::lemma_fundamental_div_mod(block, 8);
        vstd::arithmetic::div_mod::lemma_fundamental_div_mod(8, al);
        let qb = block / 8;
        let q8 = 8int / al;
        assert(block == (q8 * qb) * al) by (nonlinear_arith)
            requires
                block == 8 * qb,
                8 == al * q8,
        ;
        vstd::arithmetic::div_mod::lemma_mod_multiples_basic(q8 * qb, al);
    } else {
        math::lemma_pow2_vs_8(a);
        math::lemma_align_up(block + 8, a);
        // p - (block + 8) is a multiple of 8 below a
        let d = p - (block + 8);
        vstd::arithmetic::div_mod::lemma_fundamental_div_mod(p, a);
        vstd::arithmetic::div_mod::lemma_fundamental_div_mod(a, 8);
        vstd::arithmetic::div_mod::lemma_fundamental_div_mod(block, 8);
        let qp = p / a;
        let qa = a / 8;
        let qb = block / 8;
        assert(d == 8 * (qp * qa - qb - 1)) by (nonlinear_arith)
            requires
                p == a * qp,
                a == 8 * qa,
                block == 8 * qb,
                d == p - (block + 8),
        ;
        let m = qp * qa - qb - 1;
        assert(m <= qa - 1) by (nonlinear_arith)
            requires
                d == 8 * m,
                d < a,
                a == 8 * qa,
        ;
    }
}

/// Giving back an allocation of `layout` served from a block at `block`
/// leads back to that block and the layout's class; the block then goes on
/// top of its class's free list, where the next request of the same layout
/// takes it and is handed the very same allocation, the free lists being left
/// as they were. This holds where the header's offset fits in its 32 bits.
pub proof fn lemma_deallocate_then_allocate(free: Seq<Seq<usize>>, block: int, layout: Layout)
    requires
        layout.valid(),
        class_fits(layout),
        free.len() == CLASS_COUNT,
        block >= 0,
        block % ALIGN as int == 0,
        block + block_size_of(size_class(layout)) <= usize::MAX,
        corrected_align(layout) <= u32::MAX,
    ensures
        ({
            let a = allocation_for(block, layout);
            let c = size_class(layout) as int;
            let after = free.update(c, free[c].push(block as usize));
            &&& dealloc_target(a.ptr, layout, a.header) == Some((block, size_class(layout)))
            &&& after[c].len() > 0
            &&& allocation_for(after[c].last() as int, layout) == a
            &&& after.update(c, after[c].drop_last()) == free
        }),
{
    lemma_allocation_in_block(block, layout);
    let c = size_class(layout) as int;
    let after = free.update(c, free[c].push(block as usize));
    assert(after[c].drop_last() =~= free[c]);
    assert(after.update(c, after[c].drop_last()) =~= free);
}

/// A request whose alignment is at most [`ALIGN`] is served exactly when its
/// size is at most `u32::MAX * 8` bytes.
pub proof fn lemma_max_size(layout: Layout)
    requires
        layout.valid(),
        layout.align() <= ALIGN,
    ensures
        allocatable(layout) <==> layout.size() <= MAX_SIZE,
{
    if layout.size() <= MAX_SIZE {
        lemma_block_request(layout);
        lemma_corrected(layout);
        vstd::arithmetic::power2::lemma2_to64();
        let x = block_request(layout);
        let s = corrected_size(layout) as int;
        assert(corrected_align(layout) == 8);
        math::lemma_align_up_least(layout.size() as int, 8, MAX_SIZE as int);
        math::lemma_align_up_least(layout.size() as int, 8, isize::MAX + 1);
        vstd::arithmetic::power2::lemma_pow2_unfold(35);
        vstd::arithmetic::power2::lemma_pow2_unfold(34);
        vstd::arithmetic::power2::lemma_pow2_unfold(33);
        assert(vstd::arithmetic::power2::pow2(35) == 0x8_0000_0000);
        let top: nat = if usize::BITS == 64 { 35 } else { 31 };
        vstd::arithmetic::power2::lemma_pow2_unfold(usize::BITS as nat);
        assert(vstd::arithmetic::power2::pow2(top) >= x);
        math::lemma_ceil_log2_monotone(x, vstd::arithmetic::power2::pow2(top));
        math::lemma_ceil_log2_pow2(top);
    }
}

/// A request of at most [`ALIGN`] bytes with an alignment of at most
/// [`ALIGN`], a zero-sized one included, is served with the smallest block.
pub proof fn lemma_small_request_smallest_block(layout: Layout)
    requires
        layout.valid(),
        layout.size() <= ALIGN,
        layout.align() <= ALIGN,
    ensures
        size_class(layout) == 0,
        block_size_of(0) == ALIGN,
        class_fits(layout),
{
    lemma_corrected(layout);
    vstd::arithmetic::power2::lemma2_to64();
    assert(block_request(layout) == 8);
    math::lemma_ceil_log2_unique(8, 3);
}

/// Giving an allocation back with any layout that fits it (the alignment it
/// was requested with, and a size between the one requested and the length
/// handed out) leads to the same block and class as the layout it was
/// requested with.
pub proof fn lemma_fitting_layout(
    requested: Layout,
    given: Layout,
    ptr: usize,
    header: Option<BlockHeader>,
)
    requires
        requested.valid(),
        given.valid(),
        given.align() == requested.align(),
        requested.size() <= given.size() <= corrected_size(requested),
    ensures
        corrected_size(given) == corrected_size(requested),
        size_class(given) == size_class(requested),
        dealloc_target(ptr, given, header) == dealloc_target(ptr, requested, header),
{
    lemma_corrected(requested);
    lemma_corrected(given);
    let a = corrected_align(requested) as int;
    math::lemma_align_up_least(given.size() as int, a, corrected_size(requested) as int);
    math::lemma_align_up_least(requested.size() as int, a, corrected_size(given) as int);
}

/// Correcting a corrected layout changes nothing: its alignment and size are
/// already those it is served with, and its block and class are the same.
pub proof fn lemma_correction_idempotent(layout: Layout, corrected: Layout)
    requires
        layout.valid(),
        corrected.size() == corrected_size(layout),
        corrected.align() == corrected_align(layout),
    ensures
        corrected_align(corrected) == corrected.align(),
        corrected_size(corrected) == corrected.size(),
        is_perfectly_aligned(corrected) == is_perfectly_aligned(layout),
        block_request(corrected) == block_request(layout),
        size_class(corrected) == size_class(layout),
{
    lemma_corrected(layout);
    math::lemma_align_up_aligned(corrected.size() as int, corrected.align() as int);
}

/// Free blocks of a class are handed out most recent first: after two blocks
/// of a class are given back, the next two requests of that class take them
/// in reverse order, and the free lists are left as they were.
pub proof fn lemma_free_list_lifo(free: Seq<Seq<usize>>, c: int, b1: usize, b2: usize)
    requires
        0 <= c < free.len(),
    ensures
        ({
            let f1 = free.update(c, free[c].push(b1));
            let f2 = f1.update(c, f1[c].push(b2));
            let f3 = f2.update(c, f2[c].drop_last());
            &&& f2[c].last() == b2
            &&& f3[c].last() == b1
            &&& f3.update(c, f3[c].drop_last()) == free
        }),
{
    let f1 = free.update(c, free[c].push(b1));
    let f2 = f1.update(c, f1[c].push(b2));
    let f3 = f2.update(c, f2[c].drop_last());
    assert(f2[c].drop_last() =~= f1[c]);
    assert(f3[c].drop_last() =~= free[c]);
    assert(f3.update(c, f3[c].drop_last()) =~= free);
}

/// Chunks double. With no chunk yet, the chunk obtained for a block holds
/// exactly that block; once the root chunk is full, the next one is twice
/// its size, where the block fits in that. So a run of requests of one class
/// asks for chunks of `B`, `2B`, `4B`, ... bytes of data, `B` the block size.
pub proof fn lemma_chunk_doubling(chunks: Seq<ChunkHeader>, class: nat)
    ensures
        chunks.len() == 0 ==> grown_capacity(chunks, class) == block_size_of(class),
        chunks.len() > 0 && chunks.last().len == chunks.last().capacity && block_size_of(class)
            <= chunks.last().capacity ==> grown_capacity(chunks, class) == 2
            * chunks.last().capacity,
{
    lemma_block_size(class);
    let b = block_size_of(class) as int;
    assert(b % 2 == 0);
    if chunks.len() == 0 {
        math::lemma_align_up_aligned(b, 2);
    }
    if chunks.len() > 0 && chunks.last().len == chunks.last().capacity && b
        <= chunks.last().capacity {
        let cap = chunks.last().capacity as int;
        math::lemma_align_up_least(cap + b, 2, 2 * cap);
        math::lemma_align_up(cap + b, 2);
    }
}

/// How much a new chunk holds: the least even number of bytes that is at
/// least twice the root's capacity and at least the root's used length plus
/// the block. So chunks always at least double, whether the root is full or
/// not, and grow further only as far as the block needs.
pub proof fn lemma_chunk_growth(chunks: Seq<ChunkHeader>, class: nat)
    ensures
        grown_capacity(chunks, class) >= 2 * root_chunk(chunks).capacity,
        grown_capacity(chunks, class) >= root_chunk(chunks).len + block_size_of(class),
        grown_capacity(chunks, class) % 2 == 0,
        grown_capacity(chunks, class) == 2 * root_chunk(chunks).capacity
            || grown_capacity(chunks, class) < root_chunk(chunks).len + block_size_of(class) + 2,
{
    let root = root_chunk(chunks);
    let x = root.len + block_size_of(class);
    math::lemma_align_up(x, 2);
    vstd::arithmetic::div_mod::lemma_mod_multiples_basic(root.capacity as int, 2);
}

/// Every request of any alignment whose size is at most [`MAX_SIZE`] is
/// served, as long as its size, twice its alignment and a header's room fit
/// in the largest block (`2^35` bytes) and in half the address space.
pub proof fn lemma_allocatable_any_align(layout: Layout)
    requires
        layout.valid(),
        layout.size() <= MAX_SIZE,
        layout.size() + 2 * layout.align() + 8 <= 0x8_0000_0000,
        layout.size() + 2 * layout.align() + 8 <= isize::MAX + 1,
    ensures
        allocatable(layout),
{
    lemma_block_request(layout);
    lemma_corrected(layout);
    vstd::arithmetic::power2::lemma2_to64();
    let x = block_request(layout);
    assert(x <= layout.size() + 2 * layout.align() + 8);
    vstd::arithmetic::power2::lemma_pow2_unfold(35);
    vstd::arithmetic::power2::lemma_pow2_unfold(34);
    vstd::arithmetic::power2::lemma_pow2_unfold(33);
    assert(vstd::arithmetic::power2::pow2(35) == 0x8_0000_0000);
    let top: nat = if usize::BITS == 64 { 35 } else { 31 };
    vstd::arithmetic::power2::lemma_pow2_unfold(usize::BITS as nat);
    assert(vstd::arithmetic::power2::pow2(top) >= x);
    math::lemma_ceil_log2_monotone(x, vstd::arithmetic::power2::pow2(top));
    math::lemma_ceil_log2_pow2(top);
}

} // verus!
