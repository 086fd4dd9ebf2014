//! A task's stack region, modelled by its addresses as plain numbers: the
//! base address, the byte size, and the current saved stack pointer. Stacks
//! grow downwards, so a fresh stack's pointer stands one past its top byte.

use vstd::prelude::*;

verus! {

/// A stack region and its saved stack pointer.
#[derive(Debug, Clone, Copy, PartialEq, Eq, Structural)]
pub struct Stack {
    /// Lowest address of the region.
    pub bottom: usize,
    /// Current saved stack pointer; moves downwards as data is staged.
    pub ptr: usize,
    /// Size of the region in bytes.
    pub size: usize,
}

impl Stack {
    /// Describes a stack region by its base address and size; the stack
    /// pointer starts at the top.
    pub fn new(bottom: usize, size: usize) -> (r: Stack)
        requires
            bottom + size <= usize::MAX,
        ensures
            r.bottom == bottom,
            r.size == size,
            r.ptr == bottom + size,
    {
        Stack { bottom, ptr: bottom + size, size }
    }

    /// Lowest address of the region.
    pub fn bottom_ptr(&self) -> (r: usize)
        ensures
            r == self.bottom,
    {
        self.bottom
    }

    /// Size of the region in bytes.
    pub fn size(&self) -> (r: usize)
        ensures
            r == self.size,
    {
        self.size
    }

    /// One past the highest address of the region.
    pub fn top_ptr(&self) -> (r: usize)
        requires
            self.bottom + self.size <= usize::MAX,
        ensures
            r == self.bottom + self.size,
    {
        self.bottom + self.size
    }
}

/// Rounds an address down to the given alignment: the result is `ptr` less
/// its remainder modulo `align`.
pub fn align_ptr(ptr: usize, align: usize) -> (r: usize)
    requires
        align > 0,
    ensures
        r == ptr - (ptr % align),
        r <= ptr,
        ptr - r < align,
{
    proof {
        vstd::arithmetic::div_mod::lemma_mod_decreases(ptr as nat, align as nat);
    }
    ptr - (ptr % align)
}

} // verus!
