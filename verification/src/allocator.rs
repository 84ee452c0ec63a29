//! The source of the chunks a [`crate::ReBump`] carves its blocks from, and
//! the record of the calls made to it.
use vstd::prelude::*;
use crate::layout::Layout;

verus! {

/// A backing allocator, such as the system allocator, from which a
/// [`crate::ReBump`] obtains its chunks. Addresses stand for pointers.
///
/// Implementations are not verified: what `ensures` states here is what an
/// implementation promises.
pub trait Allocator {
    /// Allocates memory for a non-zero-sized `layout`; `None` when there is
    /// none. The address returned is a multiple of `layout.align()`, and the
    /// memory ends within the address space.
    fn allocate_non_zst(&self, layout: Layout) -> (r: Option<usize>)
        requires
            layout.valid(),
            layout.size() > 0,
        ensures
            r matches Some(addr) ==> addr as int % layout.align() as int == 0 && addr + layout.size()
                <= usize::MAX,
    ;

    /// Gives back memory obtained from `allocate_non_zst` with the same
    /// non-zero-sized `layout`.
    fn deallocate_non_zst(&self, addr: usize, layout: Layout)
        requires
            layout.valid(),
            layout.size() > 0,
    ;
}

/// A call made to a backing allocator.
#[derive(Clone, Copy, Debug, PartialEq, Eq, Structural)]
pub enum BackingCall {
    /// A request for `size` bytes aligned to `align`, answered `result`.
    Allocate { size: usize, align: usize, result: Option<usize> },
    /// `size` bytes at `addr`, aligned to `align`, given back.
    Deallocate { addr: usize, size: usize, align: usize },
}

/// A backing allocator together with the record of every call made to it
/// through this value: the only way to reach the allocator it holds.
pub struct Backing<A: Allocator> {
    inner: A,
    calls: Ghost<Seq<BackingCall>>,
}

impl<A: Allocator> Backing<A> {
    /// The allocator held.
    pub closed spec fn allocator(&self) -> A {
        self.inner
    }

    /// Every call made to the allocator held, oldest first.
    pub closed spec fn calls(&self) -> Seq<BackingCall> {
        self.calls@
    }

    /// Holds `inner`, with no call made yet.
    pub fn new(inner: A) -> (r: Self)
        ensures
            r.allocator() == inner,
            r.calls() == Seq::<BackingCall>::empty(),
    {
        Backing { inner, calls: Ghost(Seq::empty()) }
    }

    /// Asks the allocator held for memory for a non-zero-sized `layout`: one
    /// call, recorded with its answer.
    pub fn allocate(&mut self, layout: Layout) -> (r: Option<usize>)
        requires
            layout.valid(),
            layout.size() > 0,
        ensures
            final(self).allocator() == old(self).allocator(),
            final(self).calls() == old(self).calls().push(
                BackingCall::Allocate { size: layout.size(), align: layout.align(), result: r },
            ),
            r matches Some(addr) ==> addr as int % layout.align() as int == 0 && addr + layout.size()
                <= usize::MAX,
    {
        let r = self.inner.allocate_non_zst(layout);
        self.calls = Ghost(
            self.calls@.push(
                BackingCall::Allocate { size: layout.size(), align: layout.align(), result: r },
            ),
        );
        r
    }

    /// Gives `layout.size()` bytes at `addr` back to the allocator held: one
    /// call, recorded.
    pub fn deallocate(&mut self, addr: usize, layout: Layout)
        requires
            layout.valid(),
            layout.size() > 0,
        ensures
            final(self).allocator() == old(self).allocator(),
            final(self).calls() == old(self).calls().push(
                BackingCall::Deallocate { addr, size: layout.size(), align: layout.align() },
            ),
    {
        self.inner.deallocate_non_zst(addr, layout);
        self.calls = Ghost(
            self.calls@.push(
                BackingCall::Deallocate { addr, size: layout.size(), align: layout.align() },
            ),
        );
    }
}

} // verus!
