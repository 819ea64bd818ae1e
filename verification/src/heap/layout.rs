//! The size and alignment of a requested block.

use vstd::arithmetic::div_mod::lemma_mod_decreases;
use vstd::arithmetic::power2::is_pow2;
use vstd::layout::valid_layout;
use vstd::prelude::*;

verus! {

/// A size and an alignment that do not go together: the alignment is no power
/// of two, or the size, rounded up to it, would pass `isize::MAX`.
#[derive(Copy, Clone, Debug, PartialEq, Eq, Structural)]
pub struct LayoutError;

/// Size and alignment of a block of memory.
///
/// The alignment is carried with the request; the pools do not look at it.
#[derive(Copy, Clone, Debug, PartialEq, Eq, Structural)]
pub struct Layout {
    size: usize,
    align: usize,
}

/// Tells whether `n` is a power of two.
pub fn is_power_of_two(n: usize) -> (power: bool)
    ensures
        power == is_pow2(n as int),
{
    if n == 0 {
        proof {
            reveal(is_pow2);
        }
        return false;
    }
    let mut m: usize = n;
    while m % 2 == 0
        invariant
            0 < m <= n,
            is_pow2(m as int) == is_pow2(n as int),
        decreases m,
    {
        proof {
            reveal(is_pow2);
        }
        m = m / 2;
    }
    proof {
        reveal(is_pow2);
    }
    m == 1
}

impl Layout {
    #[verifier::type_invariant]
    spec fn inv(self) -> bool {
        valid_layout(self.size, self.align)
    }

    /// The size in bytes.
    pub closed spec fn spec_size(&self) -> usize {
        self.size
    }

    /// The alignment in bytes.
    pub closed spec fn spec_align(&self) -> usize {
        self.align
    }

    /// Builds a layout, or fails where `size` and `align` do not go together.
    pub fn from_size_align(size: usize, align: usize) -> (layout: Result<Layout, LayoutError>)
        ensures
            layout is Ok <==> valid_layout(size, align),
            layout matches Ok(l) ==> l.size() == size && l.align() == align,
    {
        if !is_power_of_two(align) {
            return Err(LayoutError);
        }
        let max: usize = isize::MAX as usize;
        proof {
            reveal(is_pow2);
            lemma_mod_decreases(max as nat, align as nat);
        }
        if size > max - max % align {
            return Err(LayoutError);
        }
        Ok(Layout { size, align })
    }

    /// The size in bytes.
    #[verifier::when_used_as_spec(spec_size)]
    pub fn size(&self) -> (size: usize)
        ensures
            size == self.size(),
    {
        self.size
    }

    /// The alignment in bytes: a power of two.
    #[verifier::when_used_as_spec(spec_align)]
    pub fn align(&self) -> (align: usize)
        ensures
            align == self.align(),
            is_pow2(align as int),
    {
        proof {
            use_type_invariant(self);
        }
        self.align
    }

    /// An address that is not null and is aligned for this layout. No block
    /// stands there: it is what a request for no bytes is answered with.
    pub fn dangling(&self) -> (addr: usize)
        ensures
            addr == self.align(),
            addr != 0,
    {
        proof {
            use_type_invariant(self);
            reveal(is_pow2);
        }
        self.align
    }
}

} // verus!
