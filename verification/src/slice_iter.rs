use vstd::prelude::*;

verus! {

/// A cursor over a borrowed batch, which hands out its entries in order as
/// pairs of a borrowed value and a weight.
pub struct SliceIterator<'a, V> {
    index: usize,
    slice: &'a [(V, i32)],
}

impl<'a, V> View for SliceIterator<'a, V> {
    type V = Seq<(V, i32)>;

    /// The entries that are still to come.
    closed spec fn view(&self) -> Seq<(V, i32)> {
        self.slice@.skip(self.index as int)
    }
}

impl<'a, V> SliceIterator<'a, V> {
    #[verifier::type_invariant]
    spec fn in_bounds(self) -> bool {
        self.index <= self.slice@.len()
    }

    /// A cursor at the start of `slice`.
    pub fn new(slice: &'a [(V, i32)]) -> (r: SliceIterator<'a, V>)
        ensures
            r@ == slice@,
    {
        SliceIterator { index: 0, slice }
    }

    /// The next entry, if there is one; the cursor moves past it.
    pub fn next(&mut self) -> (r: Option<(&'a V, i32)>)
        ensures
            old(self)@.len() == 0 ==> r is None && final(self)@ == old(self)@,
            old(self)@.len() > 0 ==> r == Some((&old(self)@[0].0, old(self)@[0].1)) && final(self)@ == old(
                self,
            )@.skip(1),
    {
        proof {
            use_type_invariant(&*self);
        }
        let slice: &'a [(V, i32)] = self.slice;
        if self.index < slice.len() {
            let at: usize = self.index;
            self.index = at + 1;
            assert(final(self)@ =~= old(self)@.skip(1));
            Some((&slice[at].0, slice[at].1))
        } else {
            None
        }
    }

    /// The next entry, if there is one; the cursor stays.
    pub fn peek(&self) -> (r: Option<(&'a V, i32)>)
        ensures
            self@.len() == 0 ==> r is None,
            self@.len() > 0 ==> r == Some((&self@[0].0, self@[0].1)),
    {
        proof {
            use_type_invariant(self);
        }
        let slice: &'a [(V, i32)] = self.slice;
        if self.index < slice.len() {
            Some((&slice[self.index].0, slice[self.index].1))
        } else {
            None
        }
    }

    /// The entries that are still to come, as one slice.
    pub fn rest(&self) -> (r: &'a [(V, i32)])
        ensures
            r@ == self@,
    {
        proof {
            use_type_invariant(self);
        }
        let slice: &'a [(V, i32)] = self.slice;
        vstd::slice::slice_subrange(slice, self.index, slice.len())
    }
}

} // verus!
