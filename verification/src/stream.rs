use crate::merge::{batch_views, least, lemma_single_live, lemma_step, rests_of, take_equal};
use crate::order::lawful_order;
use crate::slice_iter::SliceIterator;
use crate::weights::{
    accumulates, accumulation, all_canonical, fits_i32, is_canonical, lemma_accumulation_exists, sums_fit,
    total_len, total_weight,
};
use vstd::prelude::*;

verus! {

/// A stream of the sum of several batches: it hands out, in order, every
/// value that the batches hold together with the sum of its weights, and
/// leaves out the values whose weights cancel. Nothing is summed before it
/// is asked for.
pub struct CollectionIterator<'a, V> {
    cursors: Vec<SliceIterator<'a, V>>,
    ahead: Option<(&'a V, i32)>,
}

impl<'a, V: Ord> View for CollectionIterator<'a, V> {
    type V = Seq<(V, i32)>;

    /// The entries that are still to come: the entry that was looked at
    /// ahead of its turn, if there is one, and the sum of what the batches
    /// have left.
    closed spec fn view(&self) -> Seq<(V, i32)> {
        match self.ahead {
            Some((value, weight)) => seq![(*value, weight)] + accumulation(rests_of(self.cursors@)),
            None => accumulation(rests_of(self.cursors@)),
        }
    }
}

impl<'a, V: Ord> CollectionIterator<'a, V> {
    /// The batches are in canonical form, what they have left can be summed
    /// within the weight type, and an entry that was looked at ahead of its
    /// turn comes before all of that.
    pub closed spec fn wf(&self) -> bool {
        &&& lawful_order::<V>()
        &&& all_canonical(rests_of(self.cursors@))
        &&& accumulates(rests_of(self.cursors@))
        &&& sums_fit(rests_of(self.cursors@))
        &&& is_canonical(self@)
    }

    /// What is still to come is in canonical form.
    pub proof fn lemma_canonical(&self)
        requires
            self.wf(),
        ensures
            is_canonical(self@),
    {
    }

    /// A stream of the sum of `slices`.
    pub fn new(slices: Vec<&'a [(V, i32)]>) -> (r: CollectionIterator<'a, V>)
        requires
            lawful_order::<V>(),
            all_canonical(batch_views(slices@)),
            sums_fit(batch_views(slices@)),
        ensures
            r.wf(),
            r@ == accumulation(batch_views(slices@)),
    {
        let mut cursors: Vec<SliceIterator<'a, V>> = Vec::new();
        let mut i: usize = 0;
        while i < slices.len()
            invariant
                i <= slices@.len(),
                cursors@.len() == i,
                forall|j: int| 0 <= j < i ==> (#[trigger] cursors@[j])@ == slices@[j]@,
            decreases slices@.len() - i,
        {
            cursors.push(SliceIterator::new(slices[i]));
            i += 1;
        }
        proof {
            let parts = batch_views(slices@);
            assert(rests_of(cursors@) =~= parts);
            assert forall|v: V| fits_i32(#[trigger] total_weight(parts, v)) by {
                assert(parts.take(parts.len() as int) =~= parts);
            }
            lemma_accumulation_exists(parts);
        }
        CollectionIterator { cursors, ahead: None }
    }

    /// Sums the next entry from the batches.
    fn advance(&mut self) -> (r: Option<(&'a V, i32)>)
        requires
            old(self).wf(),
            old(self).ahead is None,
        ensures
            final(self).wf(),
            final(self).ahead is None,
            old(self)@.len() == 0 ==> r is None && final(self)@ == old(self)@,
            old(self)@.len() > 0 ==> r == Some((&old(self)@[0].0, old(self)@[0].1)) && final(self)@ == old(
                self,
            )@.skip(1),
    {
        loop
            invariant
                self.wf(),
                self.ahead is None,
                self@ == old(self)@,
            decreases total_len(rests_of(self.cursors@)),
        {
            let ghost rests = rests_of(self.cursors@);
            let found = least(&self.cursors);
            match found.0 {
                Some(b) => {
                    match self.cursors[b].peek() {
                        Some((value, _)) => {
                            proof {
                                lemma_step(rests, *value);
                                assert forall|k: int| 0 <= k <= rests.len() implies fits_i32(
                                    #[trigger] total_weight(rests.take(k), *value),
                                ) by {}
                            }
                            let count = take_equal(&mut self.cursors, value);
                            if count != 0 {
                                proof {
                                    let rest = accumulation(rests_of(self.cursors@));
                                    assert(old(self)@ == seq![(*value, count)] + rest);
                                    assert(old(self)@.skip(1) =~= rest);
                                }
                                return Some((value, count));
                            } else {
                                proof {
                                    let rest = accumulation(rests_of(self.cursors@));
                                    assert(Seq::<(V, i32)>::empty() + rest =~= rest);
                                }
                            }
                        },
                        None => {
                            return None;
                        },
                    }
                },
                None => {
                    proof {
                        assert forall|j: int| 0 <= j < rests.len() implies (#[trigger] rests[j]).len() == 0 by {
                            assert(self.cursors@[j]@.len() == 0);
                        }
                        lemma_single_live(rests, -1);
                    }
                    return None;
                },
            }
        }
    }

    /// The next entry, if there is one: the least value that is still to come
    /// and whose weights do not cancel, with the sum of its weights.
    pub fn next(&mut self) -> (r: Option<(&'a V, i32)>)
        requires
            old(self).wf(),
        ensures
            final(self).wf(),
            old(self)@.len() == 0 ==> r is None && final(self)@ == old(self)@,
            old(self)@.len() > 0 ==> r == Some((&old(self)@[0].0, old(self)@[0].1)) && final(self)@ == old(
                self,
            )@.skip(1),
    {
        match self.ahead {
            Some(entry) => {
                self.ahead = None;
                proof {
                    assert(old(self)@.skip(1) =~= accumulation(rests_of(self.cursors@)));
                }
                Some(entry)
            },
            None => self.advance(),
        }
    }

    /// The next entry, if there is one; the stream hands it out again when it
    /// is asked for the next entry.
    pub fn peek(&mut self) -> (r: Option<(&'a V, i32)>)
        requires
            old(self).wf(),
        ensures
            final(self).wf(),
            final(self)@ == old(self)@,
            old(self)@.len() == 0 ==> r is None,
            old(self)@.len() > 0 ==> r == Some((&old(self)@[0].0, old(self)@[0].1)),
    {
        if self.ahead.is_none() {
            let entry = self.advance();
            proof {
                if old(self)@.len() > 0 {
                    assert(old(self)@ =~= seq![old(self)@[0]] + old(self)@.skip(1));
                }
            }
            self.ahead = entry;
        }
        self.ahead
    }
}

} // verus!
