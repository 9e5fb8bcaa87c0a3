use vstd::prelude::*;

verus! {

/// A handle to a position in the link array of a trace.
///
/// The index is kept complemented, so that the all-zero bit pattern stands for
/// no index that can ever be issued.
#[derive(Copy, Clone)]
pub struct Offset {
    dataz: u32,
}

impl View for Offset {
    type V = nat;

    /// The index that the handle stands for.
    closed spec fn view(&self) -> nat {
        (u32::MAX - self.dataz) as nat
    }
}

impl Offset {
    /// The handle for `offset`, which must lie strictly below `u32::MAX`.
    #[inline(always)]
    pub fn new(offset: usize) -> (r: Offset)
        requires
            offset < u32::MAX,
        ensures
            r@ == offset,
    {
        Offset { dataz: u32::MAX - (offset as u32) }
    }

    /// The index that the handle stands for.
    #[inline(always)]
    pub fn val(&self) -> (r: usize)
        ensures
            r == self@,
    {
        (u32::MAX - self.dataz) as usize
    }
}

} // verus!
