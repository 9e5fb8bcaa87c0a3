use crate::history::{
    batches_until, first_at, installed, is_run_boundary, lemma_batches_canonical,
    lemma_batches_concat, lemma_batches_push, lemma_first_canonical, lemma_installed_step,
    lemma_run_count_monotone, lemma_run_start_bound, run_count,
    run_start, runs_canonical, Entry, LinkView, TraceView,
};
use crate::lattice::{
    close_under_lub, fresh_from, holds, is_lub_closed, lemma_generated_monotone, lub_generated, same_time,
    with_new, LeastUpperBound,
};
use crate::lookup::Lookup;
use crate::merge::{batch_views, coalesce, merge};
use crate::offset::Offset;
use crate::stream::CollectionIterator;
use crate::order::{duplicate, lawful_clone, lawful_eq, lawful_order, same_key};
use crate::weights::{
    accumulation, all_canonical, coalesced, fits_i32, is_canonical, lemma_accumulation_exists,
    lemma_accumulation_is, lemma_canonical_unique, lemma_negated, lemma_negated_canonical, lemma_total_concat,
    lemma_total_push, lemma_weight_canonical, negated, prefix_sums_fit, sums_fit, total_weight, weight,
};
use core::marker::PhantomData;
use vstd::prelude::*;

verus! {

/// A map from keys to time-indexed collection differences.
///
/// For each key the trace holds a history of batches of weighted values, one
/// for each time at which the key changed. The values of one time lie
/// together, and each key has a linked list of records that name its batches,
/// the newest first.
pub struct CollectionTrace<K, T, V, L: Lookup<K, Offset>> {
    phantom: PhantomData<K>,
    links: Vec<(u32, u32, Option<Offset>)>,
    times: Vec<(T, Vec<(V, i32)>)>,
    keys: L,
    temp: Vec<(V, i32)>,
}

/// The link records that the link array holds.
pub open spec fn link_views(links: Seq<(u32, u32, Option<Offset>)>) -> Seq<LinkView> {
    Seq::new(
        links.len(),
        |p: int|
            LinkView {
                time_index: links[p].0 as nat,
                lower: links[p].1 as nat,
                next: match links[p].2 {
                    Some(older) => Some(older@),
                    None => None,
                },
            },
    )
}

/// The times and values that the time array holds.
pub open spec fn time_views<T, V>(times: Seq<(T, Vec<(V, i32)>)>) -> Seq<Entry<T, V>> {
    Seq::new(times.len(), |i: int| (times[i].0, times[i].1@))
}

/// The positions that the handles of the key map stand for.
pub open spec fn head_views<K>(heads: Map<K, Offset>) -> Map<K, nat> {
    Map::new(|k: K| heads.contains_key(k), |k: K| heads[k]@)
}

/// The least upper bounds of the times of `history` with `index`.
pub open spec fn lubs_with<T: LeastUpperBound, V>(history: Seq<Entry<T, V>>, index: T) -> Seq<T> {
    Seq::new(history.len(), |i: int| history[i].0.lub_spec(&index))
}

impl<K, T, V, L: Lookup<K, Offset>> View for CollectionTrace<K, T, V, L> {
    type V = TraceView<K, T, V>;

    closed spec fn view(&self) -> TraceView<K, T, V> {
        TraceView {
            links: link_views(self.links@),
            times: time_views(self.times@),
            heads: head_views(self.keys.contents()),
        }
    }
}

/// A walk over the history of one key, the newest entry first.
pub struct TraceIterator<'a, K, T, V, L: Lookup<K, Offset>> {
    trace: &'a CollectionTrace<K, T, V, L>,
    next0: Option<Offset>,
}

impl<'a, K, T: LeastUpperBound, V: Ord, L: Lookup<K, Offset>> View for TraceIterator<'a, K, T, V, L> {
    type V = Seq<Entry<T, V>>;

    /// The entries that are still to come.
    closed spec fn view(&self) -> Seq<Entry<T, V>> {
        match self.next0 {
            Some(position) => self.trace@.history_from(position@ as int),
            None => Seq::empty(),
        }
    }
}

impl<'a, K, T: LeastUpperBound, V: Ord, L: Lookup<K, Offset>> TraceIterator<'a, K, T, V, L> {
    /// The walk is over a well-formed trace and stands at one of its links,
    /// or at the end.
    pub closed spec fn wf(&self) -> bool {
        &&& self.trace.wf()
        &&& self.next0 matches Some(position) ==> position@ < self.trace@.links.len()
    }

    /// The next entry, if there is one: a time and the batch of the key at
    /// that time. The walk moves on to the entry before it.
    pub fn next(&mut self) -> (r: Option<(&'a T, &'a [(V, i32)])>)
        requires
            old(self).wf(),
        ensures
            final(self).wf(),
            old(self)@.len() == 0 ==> r is None && final(self)@ == old(self)@,
            old(self)@.len() > 0 ==> (r matches Some((time, batch)) && *time == old(self)@[0].0 && batch@ == old(
                self,
            )@[0].1 && is_canonical(batch@)) && final(self)@ == old(self)@.skip(1),
    {
        match self.next0 {
            Some(position) => {
                let trace: &'a CollectionTrace<K, T, V, L> = self.trace;
                let at: usize = position.val();
                proof {
                    assert(trace@.link_wf(at as int));
                }
                let time_index: usize = trace.links[at].0 as usize;
                let time: &'a T = &trace.times[time_index].0;
                let batch: &'a [(V, i32)] = trace.get_range(position);
                self.next0 = trace.links[at].2;
                proof {
                    assert(final(self)@ =~= old(self)@.skip(1));
                }
                Some((time, batch))
            },
            None => None,
        }
    }
}

impl<K, T: LeastUpperBound, V: Ord, L: Lookup<K, Offset>> CollectionTrace<K, T, V, L> {
    /// The invariant of the trace: the key map is usable, what the trace
    /// holds is well formed, and the scratch buffer is empty.
    pub closed spec fn wf(&self) -> bool {
        &&& self.keys.wf()
        &&& self@.wf()
        &&& self.temp@.len() == 0
    }

    /// What a well-formed trace holds is well formed.
    pub proof fn lemma_wf(&self)
        requires
            self.wf(),
        ensures
            self@.wf(),
    {
    }

    /// An empty trace over the key map `l`, which must be empty.
    pub fn new(l: L) -> (r: CollectionTrace<K, T, V, L>)
        requires
            l.wf(),
            forall|k: K| !l.contents().contains_key(k),
        ensures
            r.wf(),
            r@.links.len() == 0,
            r@.times.len() == 0,
            forall|k: K| !r@.heads.contains_key(k),
    {
        CollectionTrace { phantom: PhantomData, links: Vec::new(), times: Vec::new(), keys: l, temp: Vec::new() }
    }

    /// The batch of the link at `position`: the values of the link's time
    /// from where the link says up to where the next link's batch starts, if
    /// that link is for the same time, and else up to the end.
    pub fn get_range(&self, position: Offset) -> (r: &[(V, i32)])
        requires
            self.wf(),
            position@ < self@.links.len(),
        ensures
            r@ == self@.range(position@ as int),
            is_canonical(r@),
    {
        let at: usize = position.val();
        proof {
            assert(self@.link_wf(at as int));
        }
        let index: usize = self.links[at].0 as usize;
        let lower: usize = self.links[at].1 as usize;
        let upper: usize = if at + 1 < self.links.len() && index == self.links[at + 1].0 as usize {
            self.links[at + 1].1 as usize
        } else {
            self.times[index].1.len()
        };
        vstd::slice::slice_subrange(self.times[index].1.as_slice(), lower, upper)
    }

    /// A walk over the history of `key`; it is empty where the key is
    /// unknown.
    pub fn trace<'a, 'b>(&'a self, key: &'b K) -> (r: TraceIterator<'a, K, T, V, L>)
        requires
            self.wf(),
        ensures
            r.wf(),
            r@ == self@.history(*key),
    {
        let next0 = match self.keys.get_ref(key) {
            Some(position) => Some(*position),
            None => None,
        };
        proof {
            if self.keys.contents().contains_key(*key) {
                assert(self@.heads.contains_key(*key));
            }
        }
        TraceIterator { trace: self, next0 }
    }

    /// The newest batch of `key` at exactly `time`; empty where it has none.
    pub fn get_difference(&self, key: &K, time: &T) -> (r: &[(V, i32)])
        requires
            self.wf(),
        ensures
            r@ == self@.difference_at(*key, *time),
            is_canonical(r@),
    {
        let mut walk = self.trace(key);
        proof {
            self@.lemma_key_canonical(*key);
            lemma_first_canonical(self@.history(*key), *time);
        }
        loop
            invariant
                walk.wf(),
                self.wf(),
                first_at(walk@, *time) == self@.difference_at(*key, *time),
                is_canonical(self@.difference_at(*key, *time)),
            decreases walk@.len(),
        {
            match walk.next() {
                Some((at, batch)) => {
                    if same_time(at, time) {
                        return batch;
                    }
                },
                None => {
                    return vstd::slice::slice_subrange(self.temp.as_slice(), 0, 0);
                },
            }
        }
    }

    /// The batches of `key` at the times below or equal to `time`, the newest
    /// first.
    fn batches_at<'a>(&'a self, key: &K, time: &T) -> (slices: Vec<&'a [(V, i32)]>)
        requires
            self.wf(),
        ensures
            batch_views(slices@) == self@.batches(*key, *time),
            all_canonical(batch_views(slices@)),
    {
        let mut slices: Vec<&'a [(V, i32)]> = Vec::new();
        let mut walk = self.trace(key);
        let ghost seen: Seq<Entry<T, V>> = Seq::empty();
        proof {
            self@.lemma_key_canonical(*key);
            lemma_batches_canonical(self@.history(*key), *time);
            assert(seen + walk@ =~= self@.history(*key));
            assert(batch_views(slices@) =~= batches_until(seen, *time));
        }
        loop
            invariant
                walk.wf(),
                seen + walk@ == self@.history(*key),
                batch_views(slices@) == batches_until(seen, *time),
            ensures
                batch_views(slices@) == self@.batches(*key, *time),
            decreases walk@.len(),
        {
            let ghost before = walk@;
            let ghost held = batch_views(slices@);
            match walk.next() {
                Some((at, batch)) => {
                    proof {
                        lemma_batches_push(seen, before[0], *time);
                        assert(seen.push(before[0]) + before.skip(1) =~= seen + before);
                    }
                    if at.less_equal(time) {
                        slices.push(batch);
                        proof {
                            assert(batch_views(slices@) =~= held.push(batch@));
                        }
                    }
                    proof {
                        seen = seen.push(before[0]);
                    }
                },
                None => {
                    proof {
                        assert(seen + before =~= seen);
                    }
                    break ;
                },
            }
        }
        slices
    }

    /// Writes to `target`, which must be empty, the collection of `key` at
    /// `time`: the sum of the batches of `key` at the times below or equal
    /// to `time`.
    pub fn get_collection(&self, key: &K, time: &T, target: &mut Vec<(V, i32)>) where V: Clone
        requires
            self.wf(),
            lawful_order::<V>(),
            lawful_clone::<V>(),
            old(target)@.len() == 0,
            sums_fit(self@.batches(*key, *time)),
        ensures
            final(target)@ == self@.collection_at(*key, *time),
    {
        let slices = self.batches_at(key, time);
        proof {
            assert(Seq::<(V, i32)>::empty() + self@.collection_at(*key, *time) =~= self@.collection_at(*key, *time));
        }
        merge(slices, target);
    }

    /// The collection of `key` at `time` as a stream: what `get_collection`
    /// writes, handed out entry by entry and summed only as far as it is
    /// asked for.
    pub fn get_collection_iterator<'a>(&'a self, key: &K, time: &T) -> (r: CollectionIterator<'a, V>)
        requires
            self.wf(),
            lawful_order::<V>(),
            sums_fit(self@.batches(*key, *time)),
        ensures
            r.wf(),
            r@ == self@.collection_at(*key, *time),
    {
        CollectionIterator::new(self.batches_at(key, time))
    }

    /// What the stream of the collection of a key at a time has to hand out
    /// is what `get_collection` writes for them, entry by entry; it is in
    /// canonical form, so that no entry has the weight zero.
    pub proof fn lemma_streaming_equivalence(
        &self,
        key: K,
        time: T,
        stream: &CollectionIterator<V>,
        target: &Vec<(V, i32)>,
    )
        requires
            self.wf(),
            stream.wf(),
            stream@ == self@.collection_at(key, time),
            target@ == self@.collection_at(key, time),
        ensures
            stream@ == target@,
            is_canonical(target@),
            forall|i: int| 0 <= i < target@.len() ==> (#[trigger] target@[i]).1 != 0,
    {
        stream.lemma_canonical();
    }

    /// Appends to `result` the times at which the collection of `key` may
    /// change for one who stands at `index`: the least upper bound of `index`
    /// with each time of the key's history, and all least upper bounds that
    /// can be had from these and from what `result` held. Nothing that
    /// `result` holds is appended again.
    pub fn interesting_times(&mut self, key: &K, index: &T, result: &mut Vec<T>)
        requires
            old(self).wf(),
        ensures
            final(self).wf(),
            final(self)@ == old(self)@,
            final(result)@.len() >= old(result)@.len(),
            final(result)@.take(old(result)@.len() as int) == old(result)@,
            final(result)@.len() >= with_new(old(result)@, lubs_with(old(self)@.history(*key), *index)).len(),
            final(result)@.take(
                with_new(old(result)@, lubs_with(old(self)@.history(*key), *index)).len() as int,
            ) == with_new(old(result)@, lubs_with(old(self)@.history(*key), *index)),
            is_lub_closed(final(result)@),
            forall|i: int|
                0 <= i < old(self)@.history(*key).len() ==> final(result)@.contains(
                    (#[trigger] old(self)@.history(*key)[i]).0.lub_spec(index),
                ),
            forall|p: int|
                0 <= p < final(result)@.len() ==> lub_generated(
                    old(result)@ + lubs_with(old(self)@.history(*key), *index),
                    #[trigger] final(result)@[p],
                ),
            fresh_from(final(result)@, old(result)@.len() as int),
    {
        let ghost history = self@.history(*key);
        let ghost seeds = old(result)@ + lubs_with(history, *index);
        let mut walk = self.trace(key);
        let ghost seen: int = 0;
        let ghost lubs = lubs_with(history, *index);
        proof {
            assert(lubs.take(0) =~= Seq::<T>::empty());
            assert(walk@ =~= history.skip(0));
            assert(result@.take(old(result)@.len() as int) =~= old(result)@);
            assert forall|p: int| 0 <= p < result@.len() implies seeds.contains(#[trigger] result@[p]) by {
                assert(seeds[p] == result@[p]);
            }
        }
        loop
            invariant
                walk.wf(),
                0 <= seen <= history.len(),
                walk@ == history.skip(seen),
                seeds == old(result)@ + lubs_with(history, *index),
                lubs == lubs_with(history, *index),
                result@ == with_new(old(result)@, lubs.take(seen)),
                result@.len() >= old(result)@.len(),
                result@.take(old(result)@.len() as int) == old(result)@,
                forall|i: int| 0 <= i < seen ==> result@.contains((#[trigger] history[i]).0.lub_spec(index)),
                forall|p: int| 0 <= p < result@.len() ==> seeds.contains(#[trigger] result@[p]),
                fresh_from(result@, old(result)@.len() as int),
            ensures
                seen == history.len(),
                result@ == with_new(old(result)@, lubs.take(seen)),
                result@.len() >= old(result)@.len(),
                result@.take(old(result)@.len() as int) == old(result)@,
                forall|i: int| 0 <= i < seen ==> result@.contains((#[trigger] history[i]).0.lub_spec(index)),
                forall|p: int| 0 <= p < result@.len() ==> seeds.contains(#[trigger] result@[p]),
                fresh_from(result@, old(result)@.len() as int),
            decreases walk@.len(),
        {
            let ghost held = result@;
            match walk.next() {
                Some((time, _)) => {
                    let lub = time.least_upper_bound(index);
                    proof {
                        assert(history.skip(seen)[0] == history[seen]);
                        assert(history.skip(seen).skip(1) =~= history.skip(seen + 1));
                        assert(lubs[seen] == lub);
                        assert(seeds[old(result)@.len() + seen] == lub);
                        assert(lubs.take(seen + 1).drop_last() =~= lubs.take(seen));
                    }
                    if !holds(result, &lub) {
                        result.push(lub);
                        proof {
                            assert(result@.take(old(result)@.len() as int) =~= old(result)@);
                            assert(result@[held.len() as int] == lub);
                            assert forall|i: int| 0 <= i < seen + 1 implies result@.contains(
                                (#[trigger] history[i]).0.lub_spec(index),
                            ) by {
                                if i < seen {
                                    let at = choose|at: int|
                                        0 <= at < held.len() && held[at] == history[i].0.lub_spec(index);
                                    assert(result@[at] == held[at]);
                                }
                            }
                            assert forall|p: int| 0 <= p < result@.len() implies seeds.contains(
                                #[trigger] result@[p],
                            ) by {
                                if p < held.len() {
                                    assert(result@[p] == held[p]);
                                }
                            }
                            assert forall|a: int, b: int|
                                0 <= a < b < result@.len() && old(result)@.len() <= b implies result@[a]
                                != result@[b] by {
                                if b < held.len() {
                                    assert(held[a] != held[b]);
                                } else {
                                    assert(held[a] == result@[a]);
                                }
                            }
                        }
                    }
                    proof {
                        seen = seen + 1;
                    }
                },
                None => {
                    break ;
                },
            }
        }
        let ghost joined = result@;
        close_under_lub(result);
        proof {
            assert(lubs.take(seen) =~= lubs);
            assert(result@.take(old(result)@.len() as int) =~= joined.take(old(result)@.len() as int));
            assert forall|i: int| 0 <= i < history.len() implies result@.contains(
                (#[trigger] history[i]).0.lub_spec(index),
            ) by {
                let at = choose|at: int| 0 <= at < joined.len() && joined[at] == history[i].0.lub_spec(index);
                assert(result@.take(joined.len() as int)[at] == result@[at]);
            }
            assert forall|p: int| 0 <= p < result@.len() implies lub_generated(seeds, #[trigger] result@[p]) by {
                lemma_generated_monotone(joined, seeds, result@[p]);
            }
            assert forall|a: int, b: int|
                0 <= a < b < result@.len() && old(result)@.len() <= b implies result@[a] != result@[b] by {
                if b < joined.len() {
                    assert(result@.take(joined.len() as int)[a] == result@[a]);
                    assert(result@.take(joined.len() as int)[b] == result@[b]);
                }
            }
        }
    }
}

/// Gives back the memory that `values` holds in reserve.
///
/// Calls `Vec::shrink_to_fit`, which changes the capacity of the vector and
/// leaves its elements as they are.
#[verifier::external_body]
fn trim<V>(values: &mut Vec<(V, i32)>)
    ensures
        final(values)@ == old(values)@,
{
    values.shrink_to_fit();
}

impl<K, T: LeastUpperBound, V: Ord, L: Lookup<K, Offset>> CollectionTrace<K, T, V, L> {
    /// What the trace would hold with `values` under one more time, `time`.
    spec fn pending(&self, time: T, values: Seq<(V, i32)>) -> TraceView<K, T, V> {
        TraceView {
            links: link_views(self.links@),
            times: time_views(self.times@).push((time, values)),
            heads: head_views(self.keys.contents()),
        }
    }

    /// Appends a link record for a batch of `key` that starts at `lower`
    /// among the values of the time at `time_index`, and makes it the newest
    /// of the key.
    fn thread(&mut self, key: K, time_index: u32, lower: u32)
        requires
            old(self).keys.wf(),
            old(self).links@.len() < u32::MAX,
            forall|k: K| #[trigger]
                old(self).keys.contents().contains_key(k) ==> old(self).keys.contents()[k]@ < old(
                    self,
                ).links@.len(),
        ensures
            final(self).keys.wf(),
            final(self).times == old(self).times,
            final(self).temp == old(self).temp,
            link_views(final(self).links@) == link_views(old(self).links@).push(
                LinkView {
                    time_index: time_index as nat,
                    lower: lower as nat,
                    next: if head_views(old(self).keys.contents()).contains_key(key) {
                        Some(head_views(old(self).keys.contents())[key])
                    } else {
                        None
                    },
                },
            ),
            head_views(final(self).keys.contents()) == head_views(old(self).keys.contents()).insert(
                key,
                old(self).links@.len(),
            ),
    {
        let ghost heads = self.keys.contents();
        let ghost links = self.links@;
        let next_position = Offset::new(self.links.len());
        let fresh = || -> (r: Offset)
            ensures
                r == next_position,
            { next_position };
        let prev_position = self.keys.entry_or_insert(key, fresh);
        if prev_position.val() == next_position.val() {
            proof {
                if heads.contains_key(key) {
                    assert(heads[key]@ < links.len());
                }
            }
            self.links.push((time_index, lower, None));
        } else {
            self.links.push((time_index, lower, Some(*prev_position)));
            *prev_position = next_position;
        }
        proof {
            assert(self.keys.contents() == heads.insert(key, next_position));
            assert(head_views(self.keys.contents()) =~= head_views(heads).insert(key, links.len()));
            let link = LinkView {
                time_index: time_index as nat,
                lower: lower as nat,
                next: if head_views(heads).contains_key(key) {
                    Some(head_views(heads)[key])
                } else {
                    None
                },
            };
            assert(link_views(self.links@) =~= link_views(links).push(link));
        }
    }

    /// Takes in the differences of one time: `vals` holds the batches of the
    /// keys in `keys`, one after the other, and `keys` names for each value
    /// the key that it belongs to. Every run of equal keys becomes the newest
    /// entry of its key's history, and `time` with `vals` becomes the last
    /// time of the trace.
    ///
    /// `time` must differ from the last time of the trace.
    pub fn install_differences(&mut self, time: T, keys: &mut Vec<K>, vals: Vec<(V, i32)>) where K: Eq + Clone
        requires
            old(self).wf(),
            lawful_eq::<K>(),
            lawful_clone::<K>(),
            old(keys)@.len() == vals@.len(),
            runs_canonical(old(keys)@, vals@),
            old(self)@.times.len() == 0 || old(self)@.times.last().0 != time,
            old(self)@.times.len() <= u32::MAX,
            old(self)@.links.len() + run_count(old(keys)@, old(keys)@.len() as int) <= u32::MAX,
            old(keys)@.len() > 0 ==> run_start(old(keys)@, old(keys)@.len() - 1) <= u32::MAX,
        ensures
            final(self).wf(),
            final(keys)@ == old(keys)@,
            final(self)@ == old(self)@.with_time(time).with_runs(old(keys)@, vals@, old(keys)@.len() as int),
            final(self)@.times == old(self)@.times.push((time, vals@)),
            final(self)@.links.len() == old(self)@.links.len() + run_count(old(keys)@, old(keys)@.len() as int),
            forall|k: K| #[trigger]
                final(self)@.history(k) == installed(old(keys)@, vals@, time, k, old(keys)@.len() as int) + old(
                    self,
                )@.history(k),
    {
        let ghost base = self@;
        proof {
            base.lemma_with_time(time);
            assert(vals@.take(0) =~= Seq::<(V, i32)>::empty());
            assert(self.pending(time, vals@.take(0)) == base.with_time(time));
            assert forall|k: K| #[trigger]
                self.pending(time, vals@.take(0)).history(k) == installed(keys@, vals@, time, k, 0)
                    + base.history(k) by {
                assert(Seq::<Entry<T, V>>::empty() + base.history(k) =~= base.history(k));
            }
        }
        let time_index: usize = self.times.len();
        let mut lower: usize = 0;
        while lower < keys.len()
            invariant
                lawful_eq::<K>(),
                lawful_clone::<K>(),
                keys@ == old(keys)@,
                keys@.len() == vals@.len(),
                runs_canonical(keys@, vals@),
                self.keys.wf(),
                self.times@ == old(self).times@,
                self.temp@.len() == 0,
                time_index == self.times@.len() <= u32::MAX,
                is_run_boundary(keys@, lower as int),
                self.pending(time, vals@.take(lower as int)).wf(),
                self.pending(time, vals@.take(lower as int)) == base.with_time(time).with_runs(
                    keys@,
                    vals@,
                    lower as int,
                ),
                forall|k: K| #[trigger]
                    self.pending(time, vals@.take(lower as int)).history(k) == installed(
                        keys@,
                        vals@,
                        time,
                        k,
                        lower as int,
                    ) + base.history(k),
                self.links@.len() == base.links.len() + run_count(keys@, lower as int),
                base.links.len() + run_count(keys@, keys@.len() as int) <= u32::MAX,
                keys@.len() > 0 ==> run_start(keys@, keys@.len() - 1) <= u32::MAX,
            decreases keys@.len() - lower,
        {
            let mut upper: usize = lower + 1;
            while upper < keys.len() && same_key(&keys[lower], &keys[upper])
                invariant
                    lawful_eq::<K>(),
                    lower < upper <= keys@.len(),
                    forall|j: int| lower <= j < upper ==> keys@[j] == keys@[lower as int],
                decreases keys@.len() - upper,
            {
                upper += 1;
            }
            let ghost before = self.pending(time, vals@.take(lower as int));
            let ghost delta = vals@.subrange(lower as int, upper as int);
            let ghost key = keys@[lower as int];
            proof {
                lemma_installed_step(keys@, vals@, time, key, lower as int, upper as int);
                assert(is_run_boundary(keys@, upper as int));
                lemma_run_count_monotone(keys@, upper as int, keys@.len() as int);
                lemma_run_start_bound(keys@, lower as int, keys@.len() - 1);
                assert(is_canonical(delta));
                assert forall|k: K| #[trigger]
                    self.keys.contents().contains_key(k) implies self.keys.contents()[k]@ < self.links@.len() by {
                    assert(before.heads.contains_key(k));
                }
                before.lemma_with_batch(key, delta);
            }
            self.thread(duplicate(&keys[lower]), time_index as u32, lower as u32);
            proof {
                let after = self.pending(time, vals@.take(upper as int));
                assert(vals@.take(lower as int) + delta =~= vals@.take(upper as int));
                assert(after.times =~= before.with_batch(key, delta).times);
                assert(after.links =~= before.with_batch(key, delta).links);
                assert(after == before.with_batch(key, delta));
                assert forall|k: K| #[trigger]
                    after.history(k) == installed(keys@, vals@, time, k, upper as int) + base.history(k) by {
                    lemma_installed_step(keys@, vals@, time, k, lower as int, upper as int);
                    let older = installed(keys@, vals@, time, k, lower as int);
                    assert(before.history(k) == older + base.history(k));
                    if k == key {
                        assert(seq![(time, delta)] + (older + base.history(k)) =~= (seq![(time, delta)] + older)
                            + base.history(k));
                    } else {
                        assert(Seq::<Entry<T, V>>::empty() + older =~= older);
                    }
                }
            }
            lower = upper;
        }
        if self.times.len() > 0 {
            let last: usize = self.times.len() - 1;
            trim(&mut self.times[last].1);
            proof {
                assert(time_views(self.times@) =~= time_views(old(self).times@));
            }
        }
        proof {
            assert(vals@.take(vals@.len() as int) =~= vals@);
        }
        let ghost held = time_views(self.times@);
        self.times.push((time, vals));
        proof {
            assert(time_views(self.times@) =~= held.push((time, vals@)));
        }
    }

    /// Sets the differences of `key` at `time` so that they add up to
    /// `collection`: brings `collection` into canonical form, makes `time`
    /// the last time of the trace if it is not, and appends to its values,
    /// as the newest batch of the key, what must be added to the collection
    /// that the key has at `time` to make it `collection`. Where nothing must
    /// be added, the key's history stays as it is.
    pub fn set_collection(&mut self, key: K, time: T, collection: &mut Vec<(V, i32)>) where V: Clone
        requires
            old(self).wf(),
            lawful_order::<V>(),
            lawful_clone::<V>(),
            prefix_sums_fit(old(collection)@),
            sums_fit(old(self)@.batches(key, time)),
            forall|v: V| fits_i32(-(#[trigger] total_weight(old(self)@.batches(key, time), v))),
            forall|v: V|
                fits_i32(
                    weight(old(collection)@, v) - #[trigger] total_weight(old(self)@.batches(key, time), v),
                ),
            old(self)@.with_active(time) != old(self)@ ==> old(self)@.times.len() <= u32::MAX,
            old(self)@.difference_to(key, time, old(collection)@).len() > 0 ==> old(self)@.links.len()
                < u32::MAX && old(self)@.active_len(time) <= u32::MAX,
        ensures
            final(self).wf(),
            final(collection)@ == coalesced(old(collection)@),
            final(self)@ == (if old(self)@.difference_to(key, time, old(collection)@).len() > 0 {
                old(self)@.with_active(time).with_batch(key, old(self)@.difference_to(key, time, old(collection)@))
            } else {
                old(self)@.with_active(time)
            }),
            forall|k: K| k != key ==> #[trigger] final(self)@.history(k) == old(self)@.history(k),
            final(self)@.history(key) == (if old(self)@.difference_to(key, time, old(collection)@).len() > 0 {
                seq![(time, old(self)@.difference_to(key, time, old(collection)@))]
            } else {
                Seq::empty()
            }) + old(self)@.history(key),
            final(self)@.collection_at(key, time) == coalesced(old(collection)@),
    {
        let ghost base = self@;
        let ghost wanted = coalesced(old(collection)@);
        let ghost parts = base.batches(key, time);
        let ghost delta = base.difference_to(key, time, old(collection)@);
        let ghost at = time;
        proof {
            // the canonical form of the collection gives every value the weight that the collection gives it
            let whole = seq![old(collection)@];
            assert forall|v: V| total_weight(whole, v) == weight(old(collection)@, v) by {
                assert(whole =~= Seq::<Seq<(V, i32)>>::empty().push(old(collection)@));
                lemma_total_push(Seq::<Seq<(V, i32)>>::empty(), old(collection)@, v);
            }
            assert forall|v: V| fits_i32(#[trigger] total_weight(whole, v)) by {
                assert(old(collection)@.take(old(collection)@.len() as int) =~= old(collection)@);
                assert(fits_i32(weight(old(collection)@.take(old(collection)@.len() as int), v)));
                assert(total_weight(whole, v) == weight(old(collection)@, v));
            }
            lemma_accumulation_exists(whole);
            assert forall|v: V| #[trigger] weight(wanted, v) == weight(old(collection)@, v) by {
                assert(weight(wanted, v) == total_weight(whole, v));
                assert(total_weight(whole, v) == weight(old(collection)@, v));
            }
        }
        coalesce(collection);
        if self.times.len() == 0 || !same_time(&self.times[self.times.len() - 1].0, &time) {
            if self.times.len() > 0 {
                let last: usize = self.times.len() - 1;
                let ghost held = time_views(self.times@);
                trim(&mut self.times[last].1);
                proof {
                    assert(time_views(self.times@) =~= held);
                }
            }
            let ghost held = time_views(self.times@);
            self.times.push((time, Vec::new()));
            proof {
                assert(time_views(self.times@) =~= held.push((at, Seq::<(V, i32)>::empty())));
                base.lemma_with_time(at);
            }
        }
        let ghost mid = self@;
        assert(mid == base.with_active(at));
        assert(mid.wf());
        assert(mid.history(key) == base.history(key));
        let mut temp: Vec<(V, i32)> = Vec::new();
        core::mem::swap(&mut self.temp, &mut temp);
        let index: usize = self.times.len() - 1;
        self.get_collection(&key, &self.times[index].0, &mut temp);
        let ghost sum = temp@;
        proof {
            assert(sum == base.collection_at(key, at));
            assert forall|v: V| fits_i32(#[trigger] total_weight(parts, v)) by {
                assert(parts.take(parts.len() as int) =~= parts);
            }
            lemma_accumulation_exists(parts);
            assert forall|i: int| 0 <= i < sum.len() implies (#[trigger] sum[i]).1 != i32::MIN by {
                lemma_weight_canonical(sum, i);
                assert(weight(sum, sum[i].0) == total_weight(parts, sum[i].0));
                assert(fits_i32(-total_weight(parts, sum[i].0)));
            }
        }
        let mut i: usize = 0;
        while i < temp.len()
            invariant
                i <= temp@.len(),
                temp@.len() == sum.len(),
                forall|j: int| 0 <= j < sum.len() ==> (#[trigger] sum[j]).1 != i32::MIN,
                forall|j: int| 0 <= j < i ==> (#[trigger] temp@[j]) == negated(sum)[j],
                forall|j: int| i <= j < sum.len() ==> (#[trigger] temp@[j]) == sum[j],
            decreases temp@.len() - i,
        {
            assert(sum[i as int].1 != i32::MIN);
            let opposite: i32 = -temp[i].1;
            temp[i].1 = opposite;
            i += 1;
        }
        let ghost taken = negated(sum);
        proof {
            assert(temp@ =~= taken);
            assert forall|v: V| #[trigger] weight(taken, v) == -total_weight(parts, v) by {
                lemma_negated(sum, v);
                assert(weight(sum, v) == total_weight(parts, v));
            }
            lemma_negated_canonical(sum);
        }
        let offset: usize = self.times[index].1.len();
        let mut slices: Vec<&[(V, i32)]> = Vec::new();
        slices.push(temp.as_slice());
        slices.push(collection.as_slice());
        let ghost pair = seq![taken, wanted];
        proof {
            assert(batch_views(slices@) =~= pair);
            assert(pair.take(0) =~= Seq::<Seq<(V, i32)>>::empty());
            assert(pair.take(1) =~= Seq::<Seq<(V, i32)>>::empty().push(taken));
            assert(pair.take(2) =~= pair);
            assert(pair =~= Seq::<Seq<(V, i32)>>::empty().push(taken).push(wanted));
            assert forall|v: V| #[trigger]
                total_weight(pair, v) == weight(old(collection)@, v) - total_weight(parts, v)
                && total_weight(pair.take(1), v) == -total_weight(parts, v)
                && total_weight(pair.take(0), v) == 0 by {
                lemma_total_push(Seq::<Seq<(V, i32)>>::empty(), taken, v);
                lemma_total_push(Seq::<Seq<(V, i32)>>::empty().push(taken), wanted, v);
                assert(weight(taken, v) == -total_weight(parts, v));
                assert(weight(wanted, v) == weight(old(collection)@, v));
            }
            assert forall|v: V, k: int| 0 <= k <= pair.len() implies fits_i32(
                #[trigger] total_weight(pair.take(k), v),
            ) by {
                assert(total_weight(pair, v) == weight(old(collection)@, v) - total_weight(parts, v));
                assert(fits_i32(-total_weight(parts, v)));
                assert(fits_i32(weight(old(collection)@, v) - total_weight(parts, v)));
                if k == 0 {
                } else if k == 1 {
                } else {
                    assert(k == 2);
                }
            }
            assert forall|v: V| fits_i32(#[trigger] total_weight(pair, v)) by {
                assert(fits_i32(total_weight(pair.take(2), v)));
            }
            lemma_accumulation_exists(pair);
            assert(delta == accumulation(pair));
        }
        let ghost held = time_views(self.times@);
        merge(slices, &mut self.times[index].1);
        proof {
            assert(time_views(self.times@) =~= held.update(index as int, (at, held[index as int].1 + delta)));
        }
        if self.times[index].1.len() > offset {
            proof {
                assert(delta.len() > 0);
                assert forall|k: K| #[trigger]
                    self.keys.contents().contains_key(k) implies self.keys.contents()[k]@ < self.links@.len() by {
                    assert(mid.heads.contains_key(k));
                }
                mid.lemma_with_batch(key, delta);
            }
            self.thread(key, index as u32, offset as u32);
            proof {
                assert(self@.times =~= mid.with_batch(key, delta).times);
                assert(self@ == mid.with_batch(key, delta));
                T::lemma_partial_order(at, at, at);
                let newest = seq![(at, delta)];
                assert(newest =~= Seq::<Entry<T, V>>::empty().push((at, delta)));
                lemma_batches_push(Seq::<Entry<T, V>>::empty(), (at, delta), at);
                lemma_batches_concat(newest, base.history(key), at);
                let front = batches_until(newest, at);
                assert(front =~= Seq::<Seq<(V, i32)>>::empty().push(delta));
                assert forall|v: V| #[trigger] weight(wanted, v) == total_weight(front + parts, v) by {
                    lemma_total_concat(front, parts, v);
                    lemma_total_push(Seq::<Seq<(V, i32)>>::empty(), delta, v);
                    assert(weight(delta, v) == total_weight(pair, v));
                    assert(total_weight(pair, v) == weight(old(collection)@, v) - total_weight(parts, v));
                    assert(weight(wanted, v) == weight(old(collection)@, v));
                }
                lemma_accumulation_is(front + parts, wanted);
            }
        } else {
            proof {
                assert(delta.len() == 0);
                assert(held[index as int].1 + delta =~= held[index as int].1);
                assert(time_views(self.times@) =~= held);
                assert(self@ == mid);
                assert(Seq::<Entry<T, V>>::empty() + base.history(key) =~= base.history(key));
                assert forall|v: V| #[trigger] weight(wanted, v) == weight(sum, v) by {
                    assert(weight(delta, v) == total_weight(pair, v));
                    assert(total_weight(pair, v) == weight(old(collection)@, v) - total_weight(parts, v));
                    assert(weight(wanted, v) == weight(old(collection)@, v));
                    assert(weight(sum, v) == total_weight(parts, v));
                }
                lemma_canonical_unique(wanted, sum);
            }
        }
        core::mem::swap(&mut self.temp, &mut temp);
        self.temp.clear();
    }
}

} // verus!
