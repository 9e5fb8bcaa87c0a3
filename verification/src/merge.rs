use crate::order::{
    duplicate, lawful_clone, lawful_order, lemma_lt_asymmetric, lemma_lt_irreflexive, lemma_lt_total,
    lemma_lt_transitive, less, same, value_lt,
};
use crate::slice_iter::SliceIterator;
use crate::weights::{
    accumulates, accumulation, all_canonical, coalesced, fits_i32, is_canonical, lemma_accumulation_exists,
    lemma_accumulation_is, lemma_total_len_pointwise, lemma_total_occurs, lemma_total_pointwise,
    lemma_total_push, lemma_total_single, lemma_total_take, lemma_weight_absent, lemma_weight_canonical,
    lemma_weight_concat, lemma_weight_occurs, lemma_weight_push, prefix_sums_fit, sums_fit,
    total_len, total_weight, weight,
};
use vstd::prelude::*;

verus! {

/// The batches that `slices` borrow.
pub open spec fn batch_views<V>(slices: Seq<&[(V, i32)]>) -> Seq<Seq<(V, i32)>> {
    Seq::new(slices.len(), |j: int| slices[j]@)
}

/// What each of `cursors` has still to hand out.
pub open spec fn rests_of<'a, V>(cursors: Seq<SliceIterator<'a, V>>) -> Seq<Seq<(V, i32)>> {
    Seq::new(cursors.len(), |j: int| cursors[j]@)
}

/// `s` starts with an entry for the value `m`.
pub open spec fn leads<V>(s: Seq<(V, i32)>, m: V) -> bool {
    s.len() > 0 && s[0].0 == m
}

/// `s` without its first entry, if that is one for the value `m`.
pub open spec fn advance_one<V>(s: Seq<(V, i32)>, m: V) -> Seq<(V, i32)> {
    if leads(s, m) {
        s.skip(1)
    } else {
        s
    }
}

/// `rests` after every one that starts with the value `m` has given up its
/// first entry.
pub open spec fn advance<V>(rests: Seq<Seq<(V, i32)>>, m: V) -> Seq<Seq<(V, i32)>> {
    Seq::new(rests.len(), |j: int| advance_one(rests[j], m))
}

/// `best` names the position `j`.
pub open spec fn is_at(best: Option<usize>, j: int) -> bool {
    best matches Some(b) && b as int == j
}

/// `m` is the least of the values that `rests` start with.
pub open spec fn is_least_head<V: Ord>(rests: Seq<Seq<(V, i32)>>, m: V) -> bool {
    &&& exists|j: int| 0 <= j < rests.len() && leads(#[trigger] rests[j], m)
    &&& forall|j: int|
        0 <= j < rests.len() && (#[trigger] rests[j]).len() > 0 ==> rests[j][0].0 == m || value_lt(
            m,
            rests[j][0].0,
        )
}

/// What giving up a first entry for `m` does to the weights of a canonical
/// batch that starts at or after `m`.
proof fn lemma_advance_one<V: Ord>(s: Seq<(V, i32)>, m: V, v: V)
    requires
        lawful_order::<V>(),
        is_canonical(s),
        s.len() > 0 ==> s[0].0 == m || value_lt(m, s[0].0),
    ensures
        is_canonical(advance_one(s, m)),
        weight(advance_one(s, m), m) == 0,
        v != m ==> weight(advance_one(s, m), v) == weight(s, v),
        weight(s, m) == if leads(s, m) { s[0].1 as int } else { 0 },
        advance_one(s, m).len() <= s.len(),
        leads(s, m) ==> advance_one(s, m).len() < s.len(),
{
    let t = advance_one(s, m);
    lemma_lt_irreflexive(m);
    if leads(s, m) {
        assert forall|p: int, q: int| 0 <= p < q < t.len() implies value_lt(#[trigger] t[p].0, #[trigger] t[q].0) by {
            assert(value_lt(s[p + 1].0, s[q + 1].0));
        }
        assert forall|p: int| 0 <= p < t.len() implies (#[trigger] t[p]).1 != 0 by {
            assert(s[p + 1].1 != 0);
        }
        assert forall|p: int| 0 <= p < t.len() implies (#[trigger] t[p]).0 != m by {
            assert(value_lt(s[0].0, s[p + 1].0));
        }
        lemma_weight_absent(t, m);
        let head = seq![s[0]];
        assert(head =~= Seq::<(V, i32)>::empty().push(s[0]));
        lemma_weight_push(Seq::<(V, i32)>::empty(), s[0], v);
        lemma_weight_push(Seq::<(V, i32)>::empty(), s[0], m);
        assert(s =~= head + t);
        lemma_weight_concat(head, t, v);
        lemma_weight_concat(head, t, m);
    } else {
        assert forall|p: int| 0 <= p < s.len() implies (#[trigger] s[p]).0 != m by {
            if p > 0 {
                assert(value_lt(s[0].0, s[p].0));
                lemma_lt_transitive(m, s[0].0, s[p].0);
            }
        }
        lemma_weight_absent(s, m);
    }
}

/// One round of the merge: the sum of `rests` starts with the entry for their
/// least leading value `m`, unless the weights for `m` cancel, and goes on
/// with the sum of what is left once `m` has been taken off.
pub proof fn lemma_step<V: Ord>(rests: Seq<Seq<(V, i32)>>, m: V)
    requires
        lawful_order::<V>(),
        all_canonical(rests),
        is_least_head(rests, m),
        accumulates(rests),
    ensures
        all_canonical(advance(rests, m)),
        accumulates(advance(rests, m)),
        fits_i32(total_weight(rests, m)),
        accumulation(rests) == (if total_weight(rests, m) != 0 {
            seq![(m, total_weight(rests, m) as i32)]
        } else {
            Seq::empty()
        }) + accumulation(advance(rests, m)),
        sums_fit(rests) ==> sums_fit(advance(rests, m)),
        total_len(advance(rests, m)) < total_len(rests),
{
    let adv = advance(rests, m);
    let a = accumulation(rests);
    let c = total_weight(rests, m);
    assert(weight(a, m) == c);
    assert forall|j: int| 0 <= j < adv.len() implies is_canonical(#[trigger] adv[j]) by {
        assert(is_canonical(rests[j]));
        lemma_advance_one(rests[j], m, m);
    }
    assert forall|v: V| #[trigger] total_weight(adv, v) == if v == m { 0 } else { total_weight(rests, v) } by {
        lemma_advance_totals(rests, m, v);
    }
    // the parts shrink
    assert forall|j: int| 0 <= j < rests.len() implies (#[trigger] adv[j]).len() <= rests[j].len() by {
        assert(is_canonical(rests[j]));
        lemma_advance_one(rests[j], m, m);
    }
    let j0 = choose|j: int| 0 <= j < rests.len() && leads(#[trigger] rests[j], m);
    assert(is_canonical(rests[j0]));
    lemma_advance_one(rests[j0], m, m);
    assert(adv[j0].len() < rests[j0].len());
    lemma_total_len_pointwise(rests, adv);
    // the sums of the prefixes still fit
    if sums_fit(rests) {
        assert forall|v: V, k: int| 0 <= k <= adv.len() implies fits_i32(#[trigger] total_weight(adv.take(k), v)) by {
            assert(adv.take(k) =~= advance(rests.take(k), m));
            assert(all_canonical(rests.take(k))) by {
                assert forall|j: int| 0 <= j < rests.take(k).len() implies is_canonical(#[trigger] rests.take(k)[j]) by {
                    assert(is_canonical(rests[j]));
                }
            }
            lemma_advance_totals_weak(rests, k, m, v);
            assert(fits_i32(total_weight(rests.take(k), v)));
        }
    }
    if c != 0 {
        let i = lemma_weight_occurs(a, m);
        if i > 0 {
            let u = a[0].0;
            assert(value_lt(a[0].0, a[i].0));
            lemma_weight_canonical(a, 0);
            assert(weight(a, u) == total_weight(rests, u));
            let j = lemma_total_occurs(rests, u);
            let q = lemma_weight_occurs(rests[j], u);
            assert(is_canonical(rests[j]));
            let h = rests[j][0].0;
            lemma_lt_asymmetric(u, m);
            lemma_lt_irreflexive(m);
            if q > 0 {
                assert(value_lt(rests[j][0].0, rests[j][q].0));
                if h != m {
                    lemma_lt_transitive(m, h, u);
                }
            }
            assert(false);
        }
        lemma_weight_canonical(a, 0);
        assert(a[0] == (m, c as i32));
        let rest = a.skip(1);
        assert(a =~= seq![(m, c as i32)] + rest);
        assert(is_canonical(rest)) by {
            assert forall|p: int, q: int| 0 <= p < q < rest.len() implies value_lt(#[trigger] rest[p].0, #[trigger] rest[q].0) by {
                assert(value_lt(a[p + 1].0, a[q + 1].0));
            }
            assert forall|p: int| 0 <= p < rest.len() implies (#[trigger] rest[p]).1 != 0 by {
                assert(a[p + 1].1 != 0);
            }
        }
        assert forall|v: V| #[trigger] weight(rest, v) == total_weight(adv, v) by {
            let head = seq![a[0]];
            assert(head =~= Seq::<(V, i32)>::empty().push(a[0]));
            lemma_weight_push(Seq::<(V, i32)>::empty(), a[0], v);
            assert(a =~= head + rest);
            lemma_weight_concat(head, rest, v);
            assert(weight(a, v) == total_weight(rests, v));
        }
        lemma_accumulation_is(adv, rest);
    } else {
        assert forall|v: V| #[trigger] weight(a, v) == total_weight(adv, v) by {
            assert(weight(a, v) == total_weight(rests, v));
        }
        lemma_accumulation_is(adv, a);
        assert(a =~= Seq::<(V, i32)>::empty() + a);
    }
    assert(fits_i32(c)) by {
        if c != 0 {
            assert(a[0].1 == c);
        }
    }
}

/// The weights that are left once the least leading value has been taken off.
proof fn lemma_advance_totals<V: Ord>(rests: Seq<Seq<(V, i32)>>, m: V, v: V)
    requires
        lawful_order::<V>(),
        all_canonical(rests),
        forall|j: int|
            0 <= j < rests.len() && (#[trigger] rests[j]).len() > 0 ==> rests[j][0].0 == m || value_lt(
                m,
                rests[j][0].0,
            ),
    ensures
        total_weight(advance(rests, m), v) == if v == m { 0 } else { total_weight(rests, v) },
{
    let adv = advance(rests, m);
    if v == m {
        assert forall|j: int| 0 <= j < adv.len() && j != -1 implies weight(#[trigger] adv[j], v) == 0 by {
            assert(is_canonical(rests[j]));
            lemma_advance_one(rests[j], m, v);
        }
        lemma_total_single(adv, -1, v);
    } else {
        assert forall|j: int| 0 <= j < adv.len() implies weight(#[trigger] adv[j], v) == weight(rests[j], v) by {
            assert(is_canonical(rests[j]));
            lemma_advance_one(rests[j], m, v);
        }
        lemma_total_pointwise(adv, rests, v);
    }
}

/// The same for the first `k` of the parts.
proof fn lemma_advance_totals_weak<V: Ord>(rests: Seq<Seq<(V, i32)>>, k: int, m: V, v: V)
    requires
        lawful_order::<V>(),
        all_canonical(rests),
        0 <= k <= rests.len(),
        forall|j: int|
            0 <= j < rests.len() && (#[trigger] rests[j]).len() > 0 ==> rests[j][0].0 == m || value_lt(
                m,
                rests[j][0].0,
            ),
    ensures
        total_weight(advance(rests.take(k), m), v) == if v == m { 0 } else { total_weight(rests.take(k), v) },
{
    let part = rests.take(k);
    assert forall|j: int| 0 <= j < part.len() implies is_canonical(#[trigger] part[j]) by {
        assert(is_canonical(rests[j]));
    }
    assert forall|j: int| 0 <= j < part.len() && (#[trigger] part[j]).len() > 0 implies part[j][0].0 == m || value_lt(
        m,
        part[j][0].0,
    ) by {
        assert(part[j] == rests[j]);
    }
    lemma_advance_totals(part, m, v);
}

/// Where at most the part at `b` holds anything, that part is the sum.
pub proof fn lemma_single_live<V: Ord>(rests: Seq<Seq<(V, i32)>>, b: int)
    requires
        lawful_order::<V>(),
        all_canonical(rests),
        forall|j: int| 0 <= j < rests.len() && j != b ==> (#[trigger] rests[j]).len() == 0,
    ensures
        accumulation(rests) == if 0 <= b < rests.len() { rests[b] } else { Seq::empty() },
{
    let r = if 0 <= b < rests.len() { rests[b] } else { Seq::<(V, i32)>::empty() };
    assert forall|v: V| #[trigger] weight(r, v) == total_weight(rests, v) by {
        assert forall|j: int| 0 <= j < rests.len() && j != b implies weight(#[trigger] rests[j], v) == 0 by {
            assert(rests[j].len() == 0);
        }
        lemma_total_single(rests, b, v);
    }
    lemma_accumulation_is(rests, r);
}

/// Finds the cursor with the least leading value, and tells whether more than
/// one cursor has entries left.
pub(crate) fn least<'a, V: Ord>(cursors: &Vec<SliceIterator<'a, V>>) -> (r: (Option<usize>, bool))
    requires
        lawful_order::<V>(),
    ensures
        match r.0 {
            Some(b) => b < cursors@.len() && cursors@[b as int]@.len() > 0 && is_least_head(
                rests_of(cursors@),
                cursors@[b as int]@[0].0,
            ),
            None => forall|j: int| 0 <= j < cursors@.len() ==> (#[trigger] cursors@[j])@.len() == 0,
        },
        !r.1 ==> forall|j: int|
            0 <= j < cursors@.len() && !is_at(r.0, j) ==> (#[trigger] cursors@[j])@.len() == 0,
        r.1 ==> r.0 is Some,
{
    let ghost rests = rests_of(cursors@);
    let mut best: Option<(usize, &'a V)> = None;
    let mut many: bool = false;
    let mut i: usize = 0;
    while i < cursors.len()
        invariant
            lawful_order::<V>(),
            i <= cursors@.len(),
            rests == rests_of(cursors@),
            match best {
                Some((b, value)) => {
                    &&& b < i
                    &&& leads(rests[b as int], *value)
                    &&& forall|j: int|
                        0 <= j < i && (#[trigger] rests[j]).len() > 0 ==> rests[j][0].0 == *value || value_lt(
                            *value,
                            rests[j][0].0,
                        )
                },
                None => forall|j: int| 0 <= j < i ==> (#[trigger] rests[j]).len() == 0,
            },
            !many ==> forall|j: int|
                0 <= j < i && !(best matches Some((b, _)) && b as int == j) ==> (#[trigger] rests[j]).len() == 0,
            many ==> best is Some,
        decreases cursors@.len() - i,
    {
        match cursors[i].peek() {
            Some((value, _)) => {
                assert(leads(rests[i as int], *value));
                match best {
                    Some((_, least_value)) => {
                        many = true;
                        if less(value, least_value) {
                            proof {
                                assert forall|j: int| 0 <= j < i && (#[trigger] rests[j]).len() > 0 implies rests[j][0].0
                                    == *value || value_lt(*value, rests[j][0].0) by {
                                    if rests[j][0].0 != *least_value {
                                        lemma_lt_transitive(*value, *least_value, rests[j][0].0);
                                    }
                                }
                            }
                            best = Some((i, value));
                        } else {
                            proof {
                                lemma_lt_total(*value, *least_value);
                            }
                        }
                    },
                    None => {
                        best = Some((i, value));
                    },
                }
            },
            None => {},
        }
        i += 1;
    }
    match best {
        Some((b, value)) => {
            assert(cursors@[b as int]@ == rests[b as int]);
            assert forall|j: int| 0 <= j < cursors@.len() && !is_at(Some(b), j) implies (#[trigger] cursors@[j])@.len()
                == 0 || many by {
                assert(cursors@[j]@ == rests[j]);
            }
            (Some(b), many)
        },
        None => {
            assert forall|j: int| 0 <= j < cursors@.len() implies (#[trigger] cursors@[j])@.len() == 0 by {
                assert(cursors@[j]@ == rests[j]);
            }
            (None, many)
        },
    }
}

/// Takes the entries for `value` off the cursors that lead with it, and
/// returns the sum of their weights.
pub(crate) fn take_equal<'a, V: Ord>(cursors: &mut Vec<SliceIterator<'a, V>>, value: &V) -> (count: i32)
    requires
        lawful_order::<V>(),
        all_canonical(rests_of(old(cursors)@)),
        is_least_head(rests_of(old(cursors)@), *value),
        forall|k: int|
            0 <= k <= old(cursors)@.len() ==> fits_i32(
                #[trigger] total_weight(rests_of(old(cursors)@).take(k), *value),
            ),
    ensures
        count == total_weight(rests_of(old(cursors)@), *value),
        rests_of(final(cursors)@) == advance(rests_of(old(cursors)@), *value),
{
    let ghost rests = rests_of(cursors@);
    let mut count: i32 = 0;
    let mut i: usize = 0;
    while i < cursors.len()
        invariant
            lawful_order::<V>(),
            i <= cursors@.len(),
            cursors@.len() == rests.len(),
            all_canonical(rests),
            is_least_head(rests, *value),
            forall|k: int| 0 <= k <= rests.len() ==> fits_i32(#[trigger] total_weight(rests.take(k), *value)),
            forall|j: int| 0 <= j < i ==> (#[trigger] cursors@[j])@ == advance_one(rests[j], *value),
            forall|j: int| i <= j < rests.len() ==> (#[trigger] cursors@[j])@ == rests[j],
            count == total_weight(rests.take(i as int), *value),
        decreases cursors@.len() - i,
    {
        proof {
            assert(is_canonical(rests[i as int]));
            lemma_advance_one(rests[i as int], *value, *value);
            lemma_total_take(rests, i as int, *value);
            assert(fits_i32(total_weight(rests.take(i + 1), *value)));
        }
        let ghost before = cursors@;
        match cursors[i].peek() {
            Some((leading, weight)) => {
                if same(leading, value) {
                    count = count + weight;
                    let _ = cursors[i].next();
                    assert(forall|j: int| 0 <= j < before.len() && j != i ==> cursors@[j] == before[j]);
                }
            },
            None => {},
        }
        i += 1;
    }
    proof {
        assert(rests.take(rests.len() as int) =~= rests);
        assert(rests_of(cursors@) =~= advance(rests, *value));
    }
    count
}

/// Appends to `target` the sum of `slices`: every value that they hold, once
/// and in order, with the sum of its weights, and without the values whose
/// weights cancel.
///
/// While at least two of the slices have entries left, the least of their
/// leading values is taken off all that lead with it and its summed weight is
/// written out; what the last slice has left is copied as it stands.
pub fn merge<'a, V: Ord + Clone>(slices: Vec<&'a [(V, i32)]>, target: &mut Vec<(V, i32)>)
    requires
        lawful_order::<V>(),
        lawful_clone::<V>(),
        all_canonical(batch_views(slices@)),
        sums_fit(batch_views(slices@)),
    ensures
        final(target)@ == old(target)@ + accumulation(batch_views(slices@)),
{
    let ghost parts = batch_views(slices@);
    let mut cursors: Vec<SliceIterator<'a, V>> = Vec::new();
    let mut i: usize = 0;
    while i < slices.len()
        invariant
            i <= slices@.len(),
            cursors@.len() == i,
            forall|j: int| 0 <= j < i ==> (#[trigger] cursors@[j])@ == slices@[j]@,
        decreases slices@.len() - i,
    {
        cursors.push(SliceIterator::new(slices[i]));
        i += 1;
    }
    proof {
        assert(rests_of(cursors@) =~= parts);
        assert forall|v: V| fits_i32(#[trigger] total_weight(parts, v)) by {
            assert(parts.take(parts.len() as int) =~= parts);
        }
        lemma_accumulation_exists(parts);
        assert(target@ + accumulation(parts) =~= old(target)@ + accumulation(parts));
    }
    let found = least(&cursors);
    let mut best: Option<usize> = found.0;
    let mut many: bool = found.1;
    while many
        invariant
            lawful_order::<V>(),
            lawful_clone::<V>(),
            all_canonical(rests_of(cursors@)),
            accumulates(rests_of(cursors@)),
            sums_fit(rests_of(cursors@)),
            target@ + accumulation(rests_of(cursors@)) == old(target)@ + accumulation(parts),
            match best {
                Some(b) => b < cursors@.len() && cursors@[b as int]@.len() > 0 && is_least_head(
                    rests_of(cursors@),
                    cursors@[b as int]@[0].0,
                ),
                None => forall|j: int| 0 <= j < cursors@.len() ==> (#[trigger] cursors@[j])@.len() == 0,
            },
            !many ==> forall|j: int|
                0 <= j < cursors@.len() && !is_at(best, j) ==> (#[trigger] cursors@[j])@.len() == 0,
            many ==> best is Some,
        decreases total_len(rests_of(cursors@)),
    {
        let b: usize = best.unwrap();
        let ghost rests = rests_of(cursors@);
        let ghost written = target@;
        match cursors[b].peek() {
            Some((value, _)) => {
                proof {
                    lemma_step(rests, *value);
                    assert forall|k: int| 0 <= k <= rests.len() implies fits_i32(
                        #[trigger] total_weight(rests.take(k), *value),
                    ) by {}
                }
                let count = take_equal(&mut cursors, value);
                let ghost entry = if count != 0 {
                    seq![(*value, count)]
                } else {
                    Seq::<(V, i32)>::empty()
                };
                if count != 0 {
                    target.push((duplicate(value), count));
                }
                proof {
                    assert(target@ =~= written + entry);
                    assert(accumulation(rests) == entry + accumulation(rests_of(cursors@)));
                    assert(target@ + accumulation(rests_of(cursors@)) =~= written + accumulation(rests));
                }
            },
            None => {},
        }
        let found = least(&cursors);
        best = found.0;
        many = found.1;
    }
    let ghost written = target@;
    match best {
        Some(b) => {
            let rest = cursors[b].rest();
            proof {
                let rests = rests_of(cursors@);
                assert forall|j: int| 0 <= j < rests.len() && j != b implies (#[trigger] rests[j]).len() == 0 by {
                    assert(!is_at(best, j));
                    assert(cursors@[j]@.len() == 0);
                }
                lemma_single_live(rests, b as int);
                assert(rests[b as int] == rest@);
            }
            let mut at: usize = 0;
            while at < rest.len()
                invariant
                    lawful_clone::<V>(),
                    at <= rest@.len(),
                    target@ == written + rest@.take(at as int),
                decreases rest@.len() - at,
            {
                target.push((duplicate(&rest[at].0), rest[at].1));
                proof {
                    assert(rest@.take(at + 1) =~= rest@.take(at as int).push(rest@[at as int]));
                }
                at += 1;
            }
            proof {
                assert(rest@.take(rest@.len() as int) =~= rest@);
            }
        },
        None => {
            proof {
                let rests = rests_of(cursors@);
                assert forall|j: int| 0 <= j < rests.len() implies (#[trigger] rests[j]).len() == 0 by {
                    assert(cursors@[j]@.len() == 0);
                }
                lemma_single_live(rests, -1);
                assert(written + Seq::<(V, i32)>::empty() =~= written);
            }
        },
    }
}

/// Brings `vec` into canonical form: sorts it by value, sums the weights of
/// equal values, and drops those whose weights cancel.
///
/// The entries are cut into stretches that are canonical as they stand, and
/// the stretches are merged; a vector that is in canonical form already is
/// one stretch, and is copied.
pub fn coalesce<V: Ord + Clone>(vec: &mut Vec<(V, i32)>)
    requires
        lawful_order::<V>(),
        lawful_clone::<V>(),
        prefix_sums_fit(old(vec)@),
    ensures
        final(vec)@ == coalesced(old(vec)@),
{
    let mut items: Vec<(V, i32)> = Vec::new();
    core::mem::swap(vec, &mut items);
    let entries = items.as_slice();
    let mut slices: Vec<&[(V, i32)]> = Vec::new();
    let mut lower: usize = 0;
    while lower < entries.len()
        invariant
            lawful_order::<V>(),
            lower <= entries@.len(),
            prefix_sums_fit(entries@),
            all_canonical(batch_views(slices@)),
            sums_fit(batch_views(slices@)),
            forall|v: V| #[trigger] total_weight(batch_views(slices@), v) == weight(entries@.take(lower as int), v),
        decreases entries@.len() - lower,
    {
        let ghost parts = batch_views(slices@);
        let ghost done = entries@.take(lower as int);
        if entries[lower].1 == 0 {
            proof {
                assert(entries@.take(lower + 1) =~= done.push(entries@[lower as int]));
                assert forall|v: V| #[trigger] total_weight(parts, v) == weight(entries@.take(lower + 1), v) by {
                    lemma_weight_push(done, entries@[lower as int], v);
                    assert(total_weight(parts, v) == weight(done, v));
                }
            }
            lower += 1;
        } else {
            let mut upper: usize = lower + 1;
            proof {
                assert(entries@.subrange(lower as int, upper as int) =~= seq![entries@[lower as int]]);
            }
            while upper < entries.len() && entries[upper].1 != 0 && less(&entries[upper - 1].0, &entries[upper].0)
                invariant
                    lawful_order::<V>(),
                    lower < upper <= entries@.len(),
                    is_canonical(entries@.subrange(lower as int, upper as int)),
                decreases entries@.len() - upper,
            {
                proof {
                    let run = entries@.subrange(lower as int, upper as int);
                    let more = entries@.subrange(lower as int, upper + 1);
                    assert forall|i: int, j: int| 0 <= i < j < more.len() implies value_lt(
                        #[trigger] more[i].0,
                        #[trigger] more[j].0,
                    ) by {
                        if j < run.len() {
                            assert(value_lt(run[i].0, run[j].0));
                        } else if i < run.len() - 1 {
                            assert(value_lt(run[i].0, run[run.len() - 1].0));
                            lemma_lt_transitive(more[i].0, entries@[upper - 1].0, more[j].0);
                        }
                    }
                    assert forall|i: int| 0 <= i < more.len() implies (#[trigger] more[i]).1 != 0 by {
                        if i < run.len() {
                            assert(run[i].1 != 0);
                        }
                    }
                }
                upper += 1;
            }
            let run = vstd::slice::slice_subrange(entries, lower, upper);
            slices.push(run);
            proof {
                let grown = batch_views(slices@);
                assert(grown =~= parts.push(run@));
                assert(entries@.take(upper as int) =~= done + run@);
                assert forall|v: V| #[trigger] total_weight(grown, v) == weight(entries@.take(upper as int), v) by {
                    lemma_total_push(parts, run@, v);
                    lemma_weight_concat(done, run@, v);
                    assert(total_weight(parts, v) == weight(done, v));
                }
                assert forall|v: V, k: int| 0 <= k <= grown.len() implies fits_i32(
                    #[trigger] total_weight(grown.take(k), v),
                ) by {
                    if k == grown.len() {
                        assert(grown.take(k) =~= grown);
                        assert(fits_i32(weight(entries@.take(upper as int), v)));
                    } else {
                        assert(grown.take(k) =~= parts.take(k));
                    }
                }
            }
            lower = upper;
        }
    }
    proof {
        let parts = batch_views(slices@);
        assert(entries@.take(entries@.len() as int) =~= entries@);
        assert forall|v: V| fits_i32(#[trigger] total_weight(parts, v)) by {
            assert(parts.take(parts.len() as int) =~= parts);
        }
        lemma_accumulation_exists(parts);
        let whole = seq![entries@];
        assert forall|v: V| #[trigger] weight(accumulation(parts), v) == total_weight(whole, v) by {
            assert(whole =~= Seq::<Seq<(V, i32)>>::empty().push(entries@));
            lemma_total_push(Seq::<Seq<(V, i32)>>::empty(), entries@, v);
            assert(total_weight(parts, v) == weight(entries@, v));
        }
        lemma_accumulation_is(whole, accumulation(parts));
    }
    merge(slices, vec);
    proof {
        assert(Seq::<(V, i32)>::empty() + accumulation(batch_views(slices@)) =~= accumulation(batch_views(slices@)));
    }
}

} // verus!
