//! The size and alignment of a memory request.
use vstd::prelude::*;
use crate::math;

verus! {

/// Size and alignment of a block of memory, as requested from an allocator.
#[derive(Clone, Copy, Debug, PartialEq, Eq, Structural)]
pub struct Layout {
    size: usize,
    align: usize,
}

/// Whether `a` is a power of two.
fn is_power_of_two(a: usize) -> (r: bool)
    ensures
        r == math::is_pow2(a as int),
{
    let mut k: usize = 0;
    while k < usize::BITS as usize
        invariant
            k <= usize::BITS,
            forall|j: nat| j < k ==> vstd::arithmetic::power2::pow2(j) != a,
        decreases usize::BITS - k,
    {
        proof {
            vstd::bits::lemma_usize_pow2_no_overflow(k as nat);
            vstd::bits::lemma_usize_shl_is_mul(1, k);
        }
        let p = 1usize << k;
        if p == a {
            return true;
        }
        k = k + 1;
    }
    false
}

impl Layout {
    /// The requested size in bytes.
    pub closed spec fn size_spec(&self) -> usize {
        self.size
    }

    /// The requested alignment in bytes.
    pub closed spec fn align_spec(&self) -> usize {
        self.align
    }

    /// The conditions a layout must meet: the alignment is a power of two, and
    /// the size rounded up to it does not exceed `isize::MAX`.
    pub open spec fn valid_parts(size: int, align: int) -> bool {
        &&& math::is_pow2(align)
        &&& size + align - 1 <= isize::MAX
    }

    /// This layout meets [`Layout::valid_parts`].
    pub open spec fn valid(&self) -> bool {
        Self::valid_parts(self.size() as int, self.align() as int)
    }

    /// The requested size in bytes.
    #[verifier::when_used_as_spec(size_spec)]
    pub fn size(&self) -> (r: usize)
        ensures
            r == self.size_spec(),
    {
        self.size
    }

    /// The requested alignment in bytes.
    #[verifier::when_used_as_spec(align_spec)]
    pub fn align(&self) -> (r: usize)
        ensures
            r == self.align_spec(),
    {
        self.align
    }

    /// A layout of the given size and alignment, if they are valid.
    pub fn from_size_align(size: usize, align: usize) -> (r: Option<Layout>)
        ensures
            r.is_some() <==> Self::valid_parts(size as int, align as int),
            r matches Some(l) ==> l.size() == size && l.align() == align,
    {
        if !is_power_of_two(align) {
            return None;
        }
        proof {
            math::lemma_pow2_at_most_half(align as int);
        }
        if size > isize::MAX as usize - (align - 1) {
            return None;
        }
        Some(Layout { size, align })
    }

    /// A layout of the given size and alignment, which the caller knows to
    /// be valid: no check is made.
    pub fn from_size_align_unchecked(size: usize, align: usize) -> (r: Layout)
        requires
            Self::valid_parts(size as int, align as int),
        ensures
            r.size() == size,
            r.align() == align,
    {
        Layout { size, align }
    }

    /// This layout with its size rounded up to a multiple of its alignment.
    pub fn pad_to_align(&self) -> (r: Layout)
        requires
            self.valid(),
        ensures
            r.size() == math::align_up_spec(self.size() as int, self.align() as int),
            r.align() == self.align(),
    {
        let size = math::align_up_addr(self.size, self.align);
        Layout { size, align: self.align }
    }
}

} // verus!
