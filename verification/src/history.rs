use crate::lattice::LeastUpperBound;
use crate::weights::{accumulation, all_canonical, coalesced, is_canonical, negated};
use vstd::prelude::*;

verus! {

/// A link record: the batch of one key at one time, and the way to the
/// record of the same key that was written before it.
pub struct LinkView {
    /// The position of the batch's time in the time array.
    pub time_index: nat,
    /// Where the batch starts among the values of that time.
    pub lower: nat,
    /// The position of the older link record of the same key.
    pub next: Option<nat>,
}

/// What a trace holds: the link array, the time array with the values of
/// each time, and for each key the position of its newest link record.
#[verifier::reject_recursive_types(K)]
pub struct TraceView<K, T, V> {
    pub links: Seq<LinkView>,
    pub times: Seq<(T, Seq<(V, i32)>)>,
    pub heads: Map<K, nat>,
}

/// One entry of a key's history: a time and the key's batch at that time.
pub type Entry<T, V> = (T, Seq<(V, i32)>);

/// The batches of the entries of `history` whose time is below or equal to
/// `time`, in the order of `history`.
pub open spec fn batches_until<T: LeastUpperBound, V>(history: Seq<Entry<T, V>>, time: T) -> Seq<Seq<(V, i32)>>
    decreases history.len(),
{
    if history.len() == 0 {
        Seq::empty()
    } else {
        let rest = batches_until(history.drop_last(), time);
        if history.last().0.le_spec(&time) {
            rest.push(history.last().1)
        } else {
            rest
        }
    }
}

/// The batch of the first entry of `history` whose time is `time`; empty
/// where there is none.
pub open spec fn first_at<T, V>(history: Seq<Entry<T, V>>, time: T) -> Seq<(V, i32)>
    decreases history.len(),
{
    if history.len() == 0 {
        Seq::empty()
    } else if history[0].0 == time {
        history[0].1
    } else {
        first_at(history.skip(1), time)
    }
}

/// Where the run of equal keys that holds position `i` starts.
pub open spec fn run_start<K>(keys: Seq<K>, i: int) -> int
    decreases i,
{
    if 0 < i < keys.len() && keys[i - 1] == keys[i] {
        run_start(keys, i - 1)
    } else {
        i
    }
}

/// The number of runs of equal keys among the first `n` keys, where a run ends
/// at `n`.
pub open spec fn run_count<K>(keys: Seq<K>, n: int) -> nat
    decreases n,
{
    if 0 < n <= keys.len() {
        proof {
            lemma_run_start(keys, n - 1);
        }
        run_count(keys, run_start(keys, n - 1)) + 1
    } else {
        0
    }
}

/// The entries that the first `n` of `keys` bring to the history of `key`,
/// where a run ends at `n`: for every run of equal keys whose key is `key`,
/// the part of `vals` at the positions of the run, the last run first.
pub open spec fn installed<K, T, V>(keys: Seq<K>, vals: Seq<(V, i32)>, time: T, key: K, n: int) -> Seq<
    Entry<T, V>,
>
    decreases n,
{
    if 0 < n <= keys.len() {
        proof {
            lemma_run_start(keys, n - 1);
        }
        let lower = run_start(keys, n - 1);
        let older = installed(keys, vals, time, key, lower);
        if keys[lower] == key {
            seq![(time, vals.subrange(lower, n))] + older
        } else {
            older
        }
    } else {
        Seq::empty()
    }
}

/// Every run of equal keys has its part of `vals` in canonical form.
pub open spec fn runs_canonical<K, V: Ord>(keys: Seq<K>, vals: Seq<(V, i32)>) -> bool {
    forall|n: int|
        0 < n <= keys.len() && (n == keys.len() || keys[n - 1] != keys[n]) ==> is_canonical(
            #[trigger] vals.subrange(run_start(keys, n - 1), n),
        )
}

/// The run that holds position `i` starts at or before `i`, holds equal keys
/// only, and has another key before it.
pub proof fn lemma_run_start<K>(keys: Seq<K>, i: int)
    requires
        0 <= i < keys.len(),
    ensures
        0 <= run_start(keys, i) <= i,
        forall|j: int| run_start(keys, i) <= j <= i ==> keys[j] == keys[i],
        run_start(keys, i) > 0 ==> keys[run_start(keys, i) - 1] != keys[i],
    decreases i,
{
    if 0 < i && keys[i - 1] == keys[i] {
        lemma_run_start(keys, i - 1);
    }
}

/// A run that starts at a run's start ends where the keys change.
pub proof fn lemma_run_found<K>(keys: Seq<K>, lower: int, upper: int)
    requires
        0 <= lower < upper <= keys.len(),
        lower == 0 || keys[lower - 1] != keys[lower],
        forall|j: int| lower <= j < upper ==> keys[j] == keys[lower],
    ensures
        run_start(keys, upper - 1) == lower,
    decreases upper - lower,
{
    if upper - 1 > lower {
        lemma_run_found(keys, lower, upper - 1);
    }
}

impl<K, T: LeastUpperBound, V: Ord> TraceView<K, T, V> {
    /// Where the batch of the link at `p` ends among the values of its time:
    /// where the next link's batch starts, if that link is for the same time,
    /// and else where the values of the time end.
    pub open spec fn upper(self, p: int) -> int {
        if p + 1 < self.links.len() && self.links[p + 1].time_index == self.links[p].time_index {
            self.links[p + 1].lower as int
        } else {
            self.times[self.links[p].time_index as int].1.len() as int
        }
    }

    /// The batch of the link at `p`.
    pub open spec fn range(self, p: int) -> Seq<(V, i32)> {
        self.times[self.links[p].time_index as int].1.subrange(self.links[p].lower as int, self.upper(p))
    }

    /// The time of the link at `p`.
    pub open spec fn time_of(self, p: int) -> T {
        self.times[self.links[p].time_index as int].0
    }

    /// The link at `p` names a time that exists and a batch within the values
    /// of that time, in canonical form; the link that it points to is older
    /// than itself; and the link after it is for the same time or a later one.
    pub open spec fn link_wf(self, p: int) -> bool {
        &&& self.links[p].time_index < self.times.len()
        &&& self.links[p].lower <= self.upper(p) <= self.times[self.links[p].time_index as int].1.len()
        &&& (self.links[p].next matches Some(q) ==> q < p)
        &&& (p + 1 < self.links.len() ==> self.links[p].time_index <= self.links[p + 1].time_index)
        &&& is_canonical(self.range(p))
    }

    /// The invariant of a trace: every link is well formed, every key's
    /// newest link exists, and the arrays are no longer than their indices
    /// can tell.
    pub open spec fn wf(self) -> bool {
        &&& forall|p: int| 0 <= p < self.links.len() ==> #[trigger] self.link_wf(p)
        &&& forall|k: K| #[trigger] self.heads.contains_key(k) ==> self.heads[k] < self.links.len()
        &&& self.links.len() <= u32::MAX
        &&& self.times.len() <= u32::MAX + 1
    }

    /// The positions of the links of one key from the link at `p` on, the
    /// newest first.
    pub open spec fn chain_from(self, p: int) -> Seq<int>
        decreases p,
    {
        if 0 <= p < self.links.len() {
            seq![p] + (match self.links[p].next {
                Some(q) => if q < p {
                    self.chain_from(q as int)
                } else {
                    Seq::empty()
                },
                None => Seq::empty(),
            })
        } else {
            Seq::empty()
        }
    }

    /// The positions of the links of `key`, the newest first.
    pub open spec fn chain(self, key: K) -> Seq<int> {
        if self.heads.contains_key(key) {
            self.chain_from(self.heads[key] as int)
        } else {
            Seq::empty()
        }
    }

    /// The times and batches of one key from the link at `p` on, the newest
    /// first.
    pub open spec fn history_from(self, p: int) -> Seq<Entry<T, V>>
        decreases p,
    {
        if 0 <= p < self.links.len() {
            seq![(self.time_of(p), self.range(p))] + (match self.links[p].next {
                Some(q) => if q < p {
                    self.history_from(q as int)
                } else {
                    Seq::empty()
                },
                None => Seq::empty(),
            })
        } else {
            Seq::empty()
        }
    }

    /// The times and batches of `key`, the newest first.
    pub open spec fn history(self, key: K) -> Seq<Entry<T, V>> {
        if self.heads.contains_key(key) {
            self.history_from(self.heads[key] as int)
        } else {
            Seq::empty()
        }
    }

    /// The batches of `key` at the times below or equal to `time`, the newest
    /// first.
    pub open spec fn batches(self, key: K, time: T) -> Seq<Seq<(V, i32)>> {
        batches_until(self.history(key), time)
    }

    /// The collection of `key` at `time`: the sum of its batches at the times
    /// below or equal to `time`.
    pub open spec fn collection_at(self, key: K, time: T) -> Seq<(V, i32)> {
        accumulation(self.batches(key, time))
    }

    /// The newest batch of `key` at exactly `time`; empty where it has none.
    pub open spec fn difference_at(self, key: K, time: T) -> Seq<(V, i32)> {
        first_at(self.history(key), time)
    }

    /// What has to be added to the collection of `key` at `time` to make it
    /// `collection`: the sum of `collection` and of what the key has at
    /// `time`, taken with the opposite sign.
    pub open spec fn difference_to(self, key: K, time: T, collection: Seq<(V, i32)>) -> Seq<(V, i32)> {
        accumulation(seq![negated(self.collection_at(key, time)), coalesced(collection)])
    }

    /// The number of values that the last time holds, if it is `time`; zero
    /// if it is another.
    pub open spec fn active_len(self, time: T) -> nat {
        if self.times.len() > 0 && self.times.last().0 == time {
            self.times.last().1.len()
        } else {
            0
        }
    }

    /// The trace with `time` as its last time: as it is where that is so
    /// already, and else with one more time, `time`, without values.
    pub open spec fn with_active(self, time: T) -> Self {
        if self.times.len() > 0 && self.times.last().0 == time {
            self
        } else {
            self.with_time(time)
        }
    }

    /// The trace with one more time, which has no values yet.
    pub open spec fn with_time(self, time: T) -> Self {
        TraceView { links: self.links, times: self.times.push((time, Seq::empty())), heads: self.heads }
    }

    /// The trace after the runs of equal keys among the first `n` of `keys`
    /// have been taken in, where a run ends at `n`: each run, in order, has
    /// its part of `vals` appended to the values of the last time, as a batch
    /// of its key.
    pub open spec fn with_runs(self, keys: Seq<K>, vals: Seq<(V, i32)>, n: int) -> Self
        decreases n,
    {
        if 0 < n <= keys.len() {
            proof {
                lemma_run_start(keys, n - 1);
            }
            let lower = run_start(keys, n - 1);
            self.with_runs(keys, vals, lower).with_batch(keys[lower], vals.subrange(lower, n))
        } else {
            self
        }
    }

    /// The trace with `delta` appended to the values of the last time, as a
    /// batch of `key`.
    pub open spec fn with_batch(self, key: K, delta: Seq<(V, i32)>) -> Self {
        let at = self.times.len() - 1;
        TraceView {
            links: self.links.push(
                LinkView {
                    time_index: at as nat,
                    lower: self.times[at].1.len(),
                    next: if self.heads.contains_key(key) {
                        Some(self.heads[key])
                    } else {
                        None
                    },
                },
            ),
            times: self.times.update(at, (self.times[at].0, self.times[at].1 + delta)),
            heads: self.heads.insert(key, self.links.len()),
        }
    }
}

/// The entries of `history` all hold a batch in canonical form.
pub open spec fn entries_canonical<T, V: Ord>(history: Seq<Entry<T, V>>) -> bool {
    forall|i: int| 0 <= i < history.len() ==> is_canonical((#[trigger] history[i]).1)
}

/// The batches picked after one more entry.
pub proof fn lemma_batches_push<T: LeastUpperBound, V>(history: Seq<Entry<T, V>>, entry: Entry<T, V>, time: T)
    ensures
        batches_until(history.push(entry), time) == if entry.0.le_spec(&time) {
            batches_until(history, time).push(entry.1)
        } else {
            batches_until(history, time)
        },
{
    assert(history.push(entry).drop_last() =~= history);
}

/// Picking batches from two histories put one after the other is picking
/// from each.
pub proof fn lemma_batches_concat<T: LeastUpperBound, V>(a: Seq<Entry<T, V>>, b: Seq<Entry<T, V>>, time: T)
    ensures
        batches_until(a + b, time) == batches_until(a, time) + batches_until(b, time),
    decreases b.len(),
{
    if b.len() == 0 {
        assert(a + b =~= a);
        assert(batches_until(a, time) + batches_until(b, time) =~= batches_until(a, time));
    } else {
        lemma_batches_concat(a, b.drop_last(), time);
        assert((a + b).drop_last() =~= a + b.drop_last());
        let front = batches_until(a, time);
        let back = batches_until(b.drop_last(), time);
        assert(front + back.push(b.last().1) =~= (front + back).push(b.last().1));
    }
}

/// The batches picked from canonical entries are canonical.
pub proof fn lemma_batches_canonical<T: LeastUpperBound, V: Ord>(history: Seq<Entry<T, V>>, time: T)
    requires
        entries_canonical(history),
    ensures
        all_canonical(batches_until(history, time)),
    decreases history.len(),
{
    if history.len() > 0 {
        assert(is_canonical(history[history.len() - 1].1));
        assert forall|i: int| 0 <= i < history.drop_last().len() implies is_canonical(
            (#[trigger] history.drop_last()[i]).1,
        ) by {
            assert(is_canonical(history[i].1));
        }
        lemma_batches_canonical(history.drop_last(), time);
    }
}

/// The first batch at a time, among canonical entries, is canonical.
pub proof fn lemma_first_canonical<T, V: Ord>(history: Seq<Entry<T, V>>, time: T)
    requires
        entries_canonical(history),
    ensures
        is_canonical(first_at(history, time)),
    decreases history.len(),
{
    if history.len() > 0 {
        assert(is_canonical(history[0].1));
        if history[0].0 != time {
            assert forall|i: int| 0 <= i < history.skip(1).len() implies is_canonical(
                (#[trigger] history.skip(1)[i]).1,
            ) by {
                assert(is_canonical(history[i + 1].1));
            }
            lemma_first_canonical(history.skip(1), time);
        }
    }
}

/// What one more run of equal keys brings.
pub proof fn lemma_installed_step<K, T, V>(
    keys: Seq<K>,
    vals: Seq<(V, i32)>,
    time: T,
    key: K,
    lower: int,
    upper: int,
)
    requires
        0 <= lower < upper <= keys.len(),
        lower == 0 || keys[lower - 1] != keys[lower],
        forall|j: int| lower <= j < upper ==> keys[j] == keys[lower],
    ensures
        run_start(keys, upper - 1) == lower,
        run_count(keys, upper) == run_count(keys, lower) + 1,
        installed(keys, vals, time, key, upper) == (if keys[lower] == key {
            seq![(time, vals.subrange(lower, upper))]
        } else {
            Seq::empty()
        }) + installed(keys, vals, time, key, lower),
{
    lemma_run_found(keys, lower, upper);
    let older = installed(keys, vals, time, key, lower);
    assert(Seq::<Entry<T, V>>::empty() + older =~= older);
}

impl<K, T: LeastUpperBound, V: Ord> TraceView<K, T, V> {
    /// Later links are for later times, or for the same.
    pub proof fn lemma_time_index_monotone(self, p: int, q: int)
        requires
            self.wf(),
            0 <= p <= q < self.links.len(),
        ensures
            self.links[p].time_index <= self.links[q].time_index,
        decreases q - p,
    {
        if p < q {
            assert(self.link_wf(q - 1));
            self.lemma_time_index_monotone(p, q - 1);
        }
    }

    /// A chain goes through ever older links, of ever earlier times or the
    /// same.
    pub proof fn lemma_chain_from(self, p: int)
        requires
            self.wf(),
            0 <= p < self.links.len(),
        ensures
            self.chain_from(p).len() == self.history_from(p).len(),
            self.chain_from(p).len() > 0,
            self.chain_from(p)[0] == p,
            forall|i: int| 0 <= i < self.chain_from(p).len() ==> 0 <= #[trigger] self.chain_from(p)[i] <= p,
            forall|i: int, j: int|
                0 <= i < j < self.chain_from(p).len() ==> self.chain_from(p)[i] > self.chain_from(p)[j],
            forall|i: int|
                0 <= i < self.chain_from(p).len() ==> (#[trigger] self.history_from(p)[i]) == (
                    self.time_of(self.chain_from(p)[i]),
                    self.range(self.chain_from(p)[i]),
                ),
        decreases p,
    {
        assert(self.link_wf(p));
        match self.links[p].next {
            Some(q) => {
                self.lemma_chain_from(q as int);
                let rest = self.chain_from(q as int);
                let all = self.chain_from(p);
                assert(all =~= seq![p] + rest);
                assert forall|i: int, j: int| 0 <= i < j < all.len() implies all[i] > all[j] by {
                    assert(all[j] == rest[j - 1]);
                    if i > 0 {
                        assert(all[i] == rest[i - 1]);
                    }
                }
                assert forall|i: int| 0 <= i < all.len() implies (#[trigger] self.history_from(p)[i]) == (
                    self.time_of(all[i]),
                    self.range(all[i]),
                ) by {
                    if i > 0 {
                        assert(self.history_from(p)[i] == self.history_from(q as int)[i - 1]);
                        assert(all[i] == rest[i - 1]);
                    }
                }
            },
            None => {},
        }
    }

    /// Along the chain of a key the time index never grows.
    pub proof fn lemma_chain_monotone(self, key: K)
        requires
            self.wf(),
        ensures
            forall|i: int, j: int|
                0 <= i < j < self.chain(key).len() ==> self.links[self.chain(key)[i]].time_index
                    >= self.links[self.chain(key)[j]].time_index,
    {
        if self.heads.contains_key(key) {
            let p = self.heads[key] as int;
            self.lemma_chain_from(p);
            let chain = self.chain(key);
            assert forall|i: int, j: int| 0 <= i < j < chain.len() implies self.links[chain[i]].time_index
                >= self.links[chain[j]].time_index by {
                assert(0 <= chain[j] <= p);
                assert(chain[i] > chain[j]);
                assert(0 <= chain[i] <= p);
                self.lemma_time_index_monotone(chain[j], chain[i]);
            }
        }
    }

    /// Every batch of a history is in canonical form.
    pub proof fn lemma_history_canonical(self, p: int)
        requires
            self.wf(),
        ensures
            entries_canonical(self.history_from(p)),
        decreases p,
    {
        if 0 <= p < self.links.len() {
            assert(self.link_wf(p));
            match self.links[p].next {
                Some(q) => {
                    self.lemma_history_canonical(q as int);
                    let rest = self.history_from(q as int);
                    let all = self.history_from(p);
                    assert forall|i: int| 0 <= i < all.len() implies is_canonical((#[trigger] all[i]).1) by {
                        if i > 0 {
                            assert(all[i] == rest[i - 1]);
                        }
                    }
                },
                None => {},
            }
        }
    }

    /// Every batch of the history of a key is in canonical form.
    pub proof fn lemma_key_canonical(self, key: K)
        requires
            self.wf(),
        ensures
            entries_canonical(self.history(key)),
    {
        if self.heads.contains_key(key) {
            self.lemma_history_canonical(self.heads[key] as int);
        }
    }

    /// The two traces have the same link at `q`, with the same time and the
    /// same batch.
    pub open spec fn agrees_at(self, other: Self, q: int) -> bool {
        other.links[q] == self.links[q] && other.range(q) == self.range(q) && other.time_of(q) == self.time_of(q)
    }

    /// Two traces that agree on the links up to `p`, and on their times and
    /// batches, agree on the history from `p` on.
    pub proof fn lemma_agree(self, other: Self, p: int)
        requires
            0 <= p < self.links.len() <= other.links.len(),
            forall|q: int| 0 <= q <= p ==> #[trigger] self.agrees_at(other, q),
        ensures
            other.history_from(p) == self.history_from(p),
            other.chain_from(p) == self.chain_from(p),
        decreases p,
    {
        assert(self.agrees_at(other, p));
        match self.links[p].next {
            Some(q) => {
                if q < p {
                    self.lemma_agree(other, q as int);
                }
            },
            None => {},
        }
    }

    /// One more time, without values, leaves every history as it was.
    pub proof fn lemma_with_time(self, time: T)
        requires
            self.wf(),
            self.times.len() <= u32::MAX,
        ensures
            self.with_time(time).wf(),
            forall|k: K| #[trigger] self.with_time(time).history(k) == self.history(k),
    {
        let other = self.with_time(time);
        assert forall|p: int|
            #![trigger self.agrees_at(other, p)]
            #![trigger other.link_wf(p)]
            0 <= p < self.links.len() implies self.agrees_at(other, p) && other.link_wf(p) by {
            assert(self.link_wf(p));
            if p + 1 < self.links.len() {
                assert(self.link_wf(p + 1));
            }
        }
        assert forall|k: K| #[trigger] other.history(k) == self.history(k) by {
            if self.heads.contains_key(k) {
                self.lemma_agree(other, self.heads[k] as int);
            }
        }
    }

    /// A batch appended to the values of the last time, as a batch of `key`,
    /// becomes the newest entry of the history of `key`, and leaves the other
    /// histories as they were.
    pub proof fn lemma_with_batch(self, key: K, delta: Seq<(V, i32)>)
        requires
            self.wf(),
            self.times.len() > 0,
            self.links.len() < u32::MAX,
            is_canonical(delta),
        ensures
            self.with_batch(key, delta).wf(),
            self.with_batch(key, delta).history(key) == seq![(self.times.last().0, delta)] + self.history(key),
            forall|k: K| k != key ==> #[trigger] self.with_batch(key, delta).history(k) == self.history(k),
    {
        let other = self.with_batch(key, delta);
        let n = self.links.len() as int;
        let at = self.times.len() - 1;
        let held = self.times[at].1;
        assert forall|p: int|
            #![trigger self.agrees_at(other, p)]
            #![trigger other.link_wf(p)]
            0 <= p < n implies self.agrees_at(other, p) && other.link_wf(p) by {
            assert(self.link_wf(p));
            if p + 1 < n {
                assert(self.link_wf(p + 1));
            }
            assert(other.upper(p) == self.upper(p));
            assert(other.range(p) =~= self.range(p));
        }
        assert(other.range(n) =~= delta);
        assert(other.link_wf(n)) by {
            if n > 0 {
                assert(self.link_wf(n - 1));
            }
        }
        assert(other.wf());
        match self.heads.get(key) {
            Some(q) => {
                self.lemma_agree(other, q as int);
            },
            None => {},
        }
        assert(other.history(key) =~= seq![(self.times.last().0, delta)] + self.history(key));
        assert forall|k: K| k != key implies #[trigger] other.history(k) == self.history(k) by {
            if self.heads.contains_key(k) {
                self.lemma_agree(other, self.heads[k] as int);
            }
        }
    }
}

/// Position `a` starts a run of equal keys, or is the end of the keys.
pub open spec fn is_run_boundary<K>(keys: Seq<K>, a: int) -> bool {
    0 <= a <= keys.len() && (a == 0 || a == keys.len() || keys[a - 1] != keys[a])
}

/// The run that holds a position starts no earlier than any run before the
/// position.
pub proof fn lemma_run_start_bound<K>(keys: Seq<K>, a: int, i: int)
    requires
        is_run_boundary(keys, a),
        a <= i < keys.len(),
    ensures
        a <= run_start(keys, i),
    decreases i,
{
    if 0 < i && keys[i - 1] == keys[i] {
        if a < i {
            lemma_run_start_bound(keys, a, i - 1);
        }
    }
}

/// There are no more runs up to an earlier boundary than up to a later one.
pub proof fn lemma_run_count_monotone<K>(keys: Seq<K>, a: int, n: int)
    requires
        is_run_boundary(keys, a),
        is_run_boundary(keys, n),
        a <= n,
    ensures
        run_count(keys, a) <= run_count(keys, n),
    decreases n,
{
    if a < n {
        lemma_run_start(keys, n - 1);
        lemma_run_start_bound(keys, a, n - 1);
        lemma_run_count_monotone(keys, a, run_start(keys, n - 1));
    }
}

} // verus!
