use std::cell::{Cell, RefCell};
use std::rc::Rc;

use bump_recycle::rebump::chunk_header_size;
use bump_recycle::{
    align_up, align_up_addr, ilog2_ceil, Allocation, Allocator, BlockHeader, Layout, ReBump,
    MAX_SIZE,
};

/// What the backing allocator has done: it hands out addresses from an
/// ever-growing counter, and records every chunk it gives and takes back.
struct Record {
    next: Cell<usize>,
    allocated: RefCell<Vec<(usize, usize)>>,
    deallocated: RefCell<Vec<(usize, usize)>>,
    refuse: Cell<bool>,
}

#[derive(Clone)]
struct Backing(Rc<Record>);

impl Backing {
    fn new() -> Backing {
        Backing(Rc::new(Record {
            next: Cell::new(0x1_0000),
            allocated: RefCell::new(Vec::new()),
            deallocated: RefCell::new(Vec::new()),
            refuse: Cell::new(false),
        }))
    }

    fn allocated(&self) -> Vec<(usize, usize)> {
        self.0.allocated.borrow().clone()
    }

    fn deallocated(&self) -> Vec<(usize, usize)> {
        self.0.deallocated.borrow().clone()
    }
}

impl Allocator for Backing {
    fn allocate_non_zst(&self, layout: Layout) -> Option<usize> {
        if self.0.refuse.get() {
            return None;
        }
        let align = layout.align();
        let addr = (self.0.next.get() + align - 1) / align * align;
        // Leave a gap, so that chunks never touch.
        self.0.next.set(addr + layout.size() + 4096);
        self.0.allocated.borrow_mut().push((addr, layout.size()));
        Some(addr)
    }

    fn deallocate_non_zst(&self, addr: usize, layout: Layout) {
        self.0.deallocated.borrow_mut().push((addr, layout.size()));
    }
}

fn layout(size: usize, align: usize) -> Layout {
    Layout::from_size_align(size, align).unwrap()
}

/// A growable array whose buffer comes from a `ReBump`, grown and shrunk the
/// way `Vec` does it: a new buffer first, then the old one given back.
struct ModelVec<T> {
    elem_size: usize,
    elem_align: usize,
    cap: usize,
    buf: Option<(Allocation, Layout)>,
    items: Vec<T>,
    buffers: Vec<usize>,
}

impl<T: Clone> ModelVec<T> {
    fn new(elem_size: usize, elem_align: usize) -> ModelVec<T> {
        ModelVec { elem_size, elem_align, cap: 0, buf: None, items: Vec::new(), buffers: Vec::new() }
    }

    fn push(&mut self, rb: &mut ReBump<Backing>, value: T) {
        if self.elem_size != 0 && self.items.len() == self.cap {
            let min_cap = if self.elem_size == 1 {
                8
            } else if self.elem_size <= 1024 {
                4
            } else {
                1
            };
            let new_cap = std::cmp::max(std::cmp::max(self.cap * 2, self.items.len() + 1), min_cap);
            let new_layout = layout(new_cap * self.elem_size, self.elem_align);
            let a = rb.allocate(new_layout).unwrap();
            assert_eq!(a.ptr % self.elem_align, 0);
            assert!(a.len >= new_cap * self.elem_size);
            if let Some((old, old_layout)) = self.buf.take() {
                assert!(a.ptr + a.len <= old.ptr || old.ptr + old.len <= a.ptr);
                rb.deallocate(old.ptr, old_layout, old.header);
            }
            self.buffers.push(a.ptr);
            self.buf = Some((a, new_layout));
            self.cap = new_cap;
        }
        self.items.push(value);
    }

    fn clear_and_shrink(&mut self, rb: &mut ReBump<Backing>) {
        self.items.clear();
        if let Some((old, old_layout)) = self.buf.take() {
            rb.deallocate(old.ptr, old_layout, old.header);
        }
        self.cap = 0;
    }
}

#[test]
fn test() {
    let backing = Backing::new();
    let mut rb = ReBump::new(backing.clone());
    let mut vec: ModelVec<i32> = ModelVec::new(4, 4);
    for i in 0..80 {
        vec.push(&mut rb, i);
    }
    assert_eq!(vec.items, (0..80).collect::<Vec<i32>>());
}

#[test]
fn test_block_reuse() {
    const SIZE: usize = 32_000;
    let backing = Backing::new();
    let mut rb = ReBump::new(backing.clone());
    let mut vec: ModelVec<usize> = ModelVec::new(8, 8);
    for i in 0..SIZE {
        vec.push(&mut rb, i);
    }
    assert_eq!(vec.items, (0..SIZE).collect::<Vec<usize>>());
    vec.clear_and_shrink(&mut rb);
    let chunks_before = backing.allocated();
    let first_buffers = std::mem::take(&mut vec.buffers);

    // This run should reuse blocks.
    for i in 0..SIZE {
        vec.push(&mut rb, i);
    }
    assert_eq!(vec.items, (0..SIZE).collect::<Vec<usize>>());
    assert_eq!(backing.allocated(), chunks_before);
    assert_eq!(vec.buffers, first_buffers);
}

#[test]
fn test_block_reuse_w_header() {
    const SIZE: u128 = 32_000;
    let backing = Backing::new();
    let mut rb = ReBump::new(backing.clone());
    // u128 is given align 16 here: this makes ReBump use a BlockHeader.
    let mut vec: ModelVec<u128> = ModelVec::new(16, 16);
    for i in 0..SIZE {
        vec.push(&mut rb, i);
    }
    assert_eq!(vec.items, (0..SIZE).collect::<Vec<u128>>());
    vec.clear_and_shrink(&mut rb);
    let chunks_before = backing.allocated();
    let first_buffers = std::mem::take(&mut vec.buffers);

    // This run should reuse blocks.
    for i in 0..SIZE {
        vec.push(&mut rb, i);
    }
    assert_eq!(vec.items, (0..SIZE).collect::<Vec<u128>>());
    assert_eq!(backing.allocated(), chunks_before);
    assert_eq!(vec.buffers, first_buffers);
}

#[test]
fn test_zst() {
    const SIZE: usize = 2_000;
    let backing = Backing::new();
    let mut rb = ReBump::new(backing.clone());
    // A zero-sized element needs no buffer at all.
    let mut vec: ModelVec<()> = ModelVec::new(0, 1);
    for _ in 0..SIZE {
        vec.push(&mut rb, ());
    }
    assert_eq!(vec.items, (0..SIZE).map(|_| ()).collect::<Vec<()>>());
    vec.clear_and_shrink(&mut rb);

    // This run should reuse blocks.
    for _ in 0..SIZE {
        vec.push(&mut rb, ());
    }
    assert_eq!(vec.items, (0..SIZE).map(|_| ()).collect::<Vec<()>>());
    assert!(backing.allocated().is_empty());
}

#[test]
fn test_reset() {
    const SIZE: usize = 3_000;
    let backing = Backing::new();
    let mut rb = ReBump::new(backing.clone());
    rb.reset();
    assert!(backing.deallocated().is_empty());

    {
        // `String` has size 24 and align 8.
        let mut vec: ModelVec<String> = ModelVec::new(24, 8);
        for i in 0..SIZE {
            vec.push(&mut rb, i.to_string());
        }
        assert_eq!(vec.items, (0..SIZE).map(|i| i.to_string()).collect::<Vec<String>>());
        vec.clear_and_shrink(&mut rb);
    }
    let chunks = backing.allocated();
    rb.reset();
    // Every chunk but the last was given back, newest first.
    let mut expected: Vec<(usize, usize)> = chunks[..chunks.len() - 1].to_vec();
    expected.reverse();
    assert_eq!(backing.deallocated(), expected);

    let mut vec: ModelVec<String> = ModelVec::new(24, 8);
    for i in 0..SIZE {
        vec.push(&mut rb, i.to_string());
    }
    assert_eq!(vec.items, (0..SIZE).map(|i| i.to_string()).collect::<Vec<String>>());
    // The first buffer after the reset starts the kept chunk.
    assert_eq!(vec.buffers[0], chunks[chunks.len() - 1].0 + chunk_header_size());
}

#[test]
fn layout_checks_its_parts() {
    assert!(Layout::from_size_align(16, 3).is_none());
    assert!(Layout::from_size_align(16, 0).is_none());
    assert!(Layout::from_size_align(isize::MAX as usize, 2).is_none());
    let l = Layout::from_size_align(isize::MAX as usize - 1, 2).unwrap();
    assert_eq!(l.size(), isize::MAX as usize - 1);
    assert_eq!(l.align(), 2);
    assert_eq!(layout(13, 8).pad_to_align().size(), 16);
    assert_eq!(layout(0, 8).pad_to_align().size(), 0);
}

#[test]
fn rounding_and_logarithms() {
    assert_eq!(align_up_addr(13, 8), 16);
    assert_eq!(align_up_addr(16, 16), 16);
    assert_eq!(align_up_addr(17, 16), 32);
    assert_eq!(align_up::<2>(7), 8);
    assert_eq!(align_up::<2>(8), 8);
    assert_eq!(ilog2_ceil(2), 1);
    assert_eq!(ilog2_ceil(8), 3);
    assert_eq!(ilog2_ceil(9), 4);
    assert_eq!(ilog2_ceil(1025), 11);
    assert_eq!(ilog2_ceil(usize::MAX), usize::BITS);
}

#[test]
fn perfectly_aligned_layouts_need_no_header() {
    assert!(ReBump::<Backing>::perfectly_aligned(layout(100, 8)));
    assert!(ReBump::<Backing>::perfectly_aligned(layout(3, 1)));
    assert!(!ReBump::<Backing>::perfectly_aligned(layout(16, 16)));
}

#[test]
fn bump_allocation_grows_chunks() {
    let backing = Backing::new();
    let mut rb = ReBump::new(backing.clone());
    let h = chunk_header_size();
    assert_eq!(h, 24);
    let a = rb.allocate(layout(8, 8)).unwrap();
    // The first chunk holds exactly the first block, behind the header's room.
    assert_eq!(backing.allocated(), vec![(0x1_0000, h + 8)]);
    assert_eq!(a, Allocation { ptr: 0x1_0000 + h, len: 8, header: None });
    // The root is full: the next chunk is twice as large.
    let b = rb.allocate(layout(5, 4)).unwrap();
    let chunks = backing.allocated();
    assert_eq!(chunks.len(), 2);
    assert_eq!(chunks[1].1, h + 16);
    assert_eq!(b, Allocation { ptr: chunks[1].0 + h, len: 8, header: None });
    // Room is left in it for another small block.
    let c = rb.allocate(layout(8, 8)).unwrap();
    assert_eq!(c.ptr, chunks[1].0 + h + 8);
    assert_eq!(backing.allocated().len(), 2);
    // A 16-byte block does not fit any more: capacity doubles again.
    let d = rb.allocate(layout(16, 8)).unwrap();
    let chunks = backing.allocated();
    assert_eq!(chunks.len(), 3);
    assert_eq!(chunks[2].1, h + 32);
    assert_eq!(d.ptr, chunks[2].0 + h);
}

#[test]
fn over_aligned_allocation_has_header() {
    let backing = Backing::new();
    let mut rb = ReBump::new(backing.clone());
    let l = layout(16, 16);
    let a = rb.allocate(l).unwrap();
    // 16 bytes, padding up to 8 more and the header need a 32-byte block.
    let chunk = backing.allocated()[0];
    assert_eq!(chunk.1, chunk_header_size() + 32);
    let block = chunk.0 + chunk_header_size();
    assert_eq!(a.ptr, align_up_addr(block + 8, 16));
    assert_eq!(a.ptr % 16, 0);
    assert_eq!(a.len, 16);
    assert_eq!(a.header, Some(BlockHeader { ptr_offset: (a.ptr - block) as u32, block_class: 2 }));
    assert!(a.ptr + a.len <= block + 32);
}

#[test]
fn deallocated_block_is_reused() {
    let backing = Backing::new();
    let mut rb = ReBump::new(backing.clone());
    for l in [layout(24, 8), layout(40, 32), layout(0, 1), layout(100, 64)] {
        let a = rb.allocate(l).unwrap();
        let chunks = backing.allocated().len();
        rb.deallocate(a.ptr, l, a.header);
        let b = rb.allocate(l).unwrap();
        assert_eq!(a, b);
        assert_eq!(backing.allocated().len(), chunks);
    }
    // Giving a block back never gives memory back to the backing allocator.
    assert!(backing.deallocated().is_empty());
}

#[test]
fn chunks_double_for_one_class() {
    let backing = Backing::new();
    let mut rb = ReBump::new(backing.clone());
    let h = chunk_header_size();
    // Seven 8-byte blocks fill chunks of 8, 16 and 32 bytes exactly.
    for _ in 0..7 {
        rb.allocate(layout(8, 8)).unwrap();
    }
    let sizes: Vec<usize> = backing.allocated().iter().map(|&(_, size)| size).collect();
    assert_eq!(sizes, vec![h + 8, h + 16, h + 32]);
    // The eighth block needs a fourth chunk, twice as large again.
    rb.allocate(layout(8, 8)).unwrap();
    assert_eq!(backing.allocated().last().unwrap().1, h + 64);
}

#[test]
fn free_blocks_are_reused_most_recent_first() {
    let backing = Backing::new();
    let mut rb = ReBump::new(backing.clone());
    let l = layout(32, 8);
    let a = rb.allocate(l).unwrap();
    let b = rb.allocate(l).unwrap();
    rb.deallocate(a.ptr, l, a.header);
    rb.deallocate(b.ptr, l, b.header);
    assert_eq!(rb.allocate(l).unwrap(), b);
    assert_eq!(rb.allocate(l).unwrap(), a);
}

#[test]
fn only_blocks_of_the_same_class_are_reused() {
    let backing = Backing::new();
    let mut rb = ReBump::new(backing.clone());
    let small = layout(8, 8);
    let a = rb.allocate(small).unwrap();
    rb.deallocate(a.ptr, small, a.header);
    // A 16-byte request is of another class: it is carved anew.
    let b = rb.allocate(layout(16, 8)).unwrap();
    assert_ne!(b.ptr, a.ptr);
    // A request of the same class, another size, takes the free block.
    let c = rb.allocate(layout(3, 2)).unwrap();
    assert_eq!(c.ptr, a.ptr);
}

#[test]
fn zero_sized_request_takes_smallest_block() {
    let backing = Backing::new();
    let mut rb = ReBump::new(backing.clone());
    let a = rb.allocate(layout(0, 1)).unwrap();
    assert_eq!(a.len, 0);
    assert_eq!(backing.allocated(), vec![(a.ptr - chunk_header_size(), chunk_header_size() + 8)]);
}

#[test]
fn too_large_request_is_refused() {
    let backing = Backing::new();
    let mut rb = ReBump::new(backing.clone());
    assert_eq!(rb.allocate(layout(u32::MAX as usize * 8 + 1, 8)), None);
    assert_eq!(rb.allocate(layout(1 << 40, 1)), None);
    assert!(backing.allocated().is_empty());
    // Just above the largest request, even where padding would make it fit.
    assert_eq!(rb.allocate(layout(MAX_SIZE as usize + 1, 1)), None);
    assert_eq!(rb.allocate(layout(isize::MAX as usize, 1)), None);
    assert!(backing.allocated().is_empty());
    assert!(backing.deallocated().is_empty());
    let a = rb.allocate(layout(1 << 34, 8)).unwrap();
    assert_eq!(a.len, 1 << 34);
    // The largest request is served, from a block of 2^35 bytes: the new
    // chunk holds the old chunk's used length plus that block.
    let b = rb.allocate(layout(u32::MAX as usize * 8, 8)).unwrap();
    assert_eq!(b.len, u32::MAX as usize * 8);
    assert_eq!(
        backing.allocated().last().unwrap(),
        &(b.ptr - chunk_header_size(), chunk_header_size() + (1 << 34) + (1 << 35))
    );
}

#[test]
fn give_back_with_a_fitting_layout() {
    let backing = Backing::new();
    let mut rb = ReBump::new(backing.clone());
    let a = rb.allocate(layout(5, 4)).unwrap();
    assert_eq!(a.len, 8);
    // Any size between the one requested and the length handed out fits.
    rb.deallocate(a.ptr, layout(8, 4), a.header);
    assert_eq!(rb.allocate(layout(5, 4)).unwrap(), a);
}

#[test]
fn failed_chunk_leaves_state_unchanged() {
    let backing = Backing::new();
    let mut rb = ReBump::new(backing.clone());
    let l = layout(64, 8);
    let a = rb.allocate(l).unwrap();
    backing.0.refuse.set(true);
    assert_eq!(rb.allocate(l), None);
    backing.0.refuse.set(false);
    // The free list of the class still works.
    rb.deallocate(a.ptr, l, a.header);
    assert_eq!(rb.allocate(l).unwrap(), a);
}

#[test]
fn release_gives_every_chunk_back() {
    let backing = Backing::new();
    let mut rb = ReBump::new(backing.clone());
    for i in 1..20 {
        rb.allocate(layout(i * 8, 8)).unwrap();
    }
    let chunks = backing.allocated();
    rb.release();
    let mut expected = chunks.clone();
    expected.reverse();
    assert_eq!(backing.deallocated(), expected);
    // It can be used again afterwards.
    let a = rb.allocate(layout(8, 8)).unwrap();
    assert_eq!(a.ptr, backing.allocated().last().unwrap().0 + chunk_header_size());
}

#[test]
fn reset_forgets_free_blocks() {
    let backing = Backing::new();
    let mut rb = ReBump::new(backing.clone());
    let l = layout(8, 8);
    let a = rb.allocate(l).unwrap();
    let b = rb.allocate(l).unwrap();
    rb.deallocate(a.ptr, l, a.header);
    rb.reset();
    // The root chunk is carved from its start again; the free block is gone.
    let h = chunk_header_size();
    let root = *backing.allocated().last().unwrap();
    assert_eq!(b.ptr, root.0 + h);
    let c = rb.allocate(l).unwrap();
    assert_eq!(c.ptr, root.0 + h);
    assert_eq!(backing.deallocated(), vec![(a.ptr - h, h + 8)]);
}

#[test]
fn live_allocations_do_not_overlap() {
    let backing = Backing::new();
    let mut rb = ReBump::new(backing.clone());
    let mut live: Vec<(Allocation, Layout)> = Vec::new();
    let mut seed: u64 = 12345;
    for _ in 0..2000 {
        seed = seed.wrapping_mul(6364136223846793005).wrapping_add(1442695040888963407);
        let r = (seed >> 33) as usize;
        if r % 3 == 0 && !live.is_empty() {
            let (a, l) = live.swap_remove(r % live.len());
            rb.deallocate(a.ptr, l, a.header);
        } else {
            let align = 1usize << (r % 7);
            let size = (r >> 3) % 300;
            let l = layout(size, align);
            let a = rb.allocate(l).unwrap();
            assert_eq!(a.ptr % align, 0);
            assert!(backing
                .allocated()
                .iter()
                .any(|&(data, capacity)| data <= a.ptr && a.ptr + a.len <= data + capacity));
            for (b, _) in &live {
                assert!(a.ptr + a.len <= b.ptr || b.ptr + b.len <= a.ptr);
            }
            live.push((a, l));
        }
    }
}
