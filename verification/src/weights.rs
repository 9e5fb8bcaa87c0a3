use crate::order::{lawful_order, lemma_lt_asymmetric, lemma_lt_irreflexive, lemma_lt_total, value_lt};
use vstd::prelude::*;

verus! {

/// The weight that the entries of `s` give to the value `v`: the sum of the
/// weights of the entries whose value is `v`.
pub open spec fn weight<V>(s: Seq<(V, i32)>, v: V) -> int
    decreases s.len(),
{
    if s.len() == 0 {
        0
    } else {
        weight(s.drop_last(), v) + if s.last().0 == v {
            s.last().1 as int
        } else {
            0
        }
    }
}

/// The weight that all of `parts` together give to the value `v`.
pub open spec fn total_weight<V>(parts: Seq<Seq<(V, i32)>>, v: V) -> int
    decreases parts.len(),
{
    if parts.len() == 0 {
        0
    } else {
        total_weight(parts.drop_last(), v) + weight(parts.last(), v)
    }
}

/// A batch in canonical form: the values strictly increase and no weight is
/// zero.
pub open spec fn is_canonical<V: Ord>(s: Seq<(V, i32)>) -> bool {
    &&& forall|i: int, j: int| 0 <= i < j < s.len() ==> value_lt(#[trigger] s[i].0, #[trigger] s[j].0)
    &&& forall|i: int| 0 <= i < s.len() ==> (#[trigger] s[i]).1 != 0
}

/// Every one of `parts` is in canonical form.
pub open spec fn all_canonical<V: Ord>(parts: Seq<Seq<(V, i32)>>) -> bool {
    forall|j: int| 0 <= j < parts.len() ==> is_canonical(#[trigger] parts[j])
}

/// `r` gives every value the weight that `parts` give it together.
pub open spec fn represents<V>(r: Seq<(V, i32)>, parts: Seq<Seq<(V, i32)>>) -> bool {
    forall|v: V| #[trigger] weight(r, v) == total_weight(parts, v)
}

/// The sum of `parts`: the batch in canonical form that gives every value the
/// weight that `parts` give it together. There is one such batch where these
/// weights fit the weight type (see `lemma_accumulation_exists` and
/// `lemma_accumulation_is`).
pub open spec fn accumulation<V: Ord>(parts: Seq<Seq<(V, i32)>>) -> Seq<(V, i32)> {
    choose|r: Seq<(V, i32)>| is_canonical(r) && represents(r, parts)
}

/// The canonical form of `s`: its values in order, each once, with its summed
/// weight, and without those whose weights sum to zero.
pub open spec fn coalesced<V: Ord>(s: Seq<(V, i32)>) -> Seq<(V, i32)> {
    accumulation(seq![s])
}

/// `x` is a weight that can be stored.
pub open spec fn fits_i32(x: int) -> bool {
    i32::MIN <= x <= i32::MAX
}

/// Summing `parts` one after the other, value by value, never leaves the
/// weight type.
pub open spec fn sums_fit<V>(parts: Seq<Seq<(V, i32)>>) -> bool {
    forall|v: V, k: int| 0 <= k <= parts.len() ==> fits_i32(#[trigger] total_weight(parts.take(k), v))
}

/// Summing the entries of `s` one after the other, value by value, never
/// leaves the weight type.
pub open spec fn prefix_sums_fit<V>(s: Seq<(V, i32)>) -> bool {
    forall|v: V, k: int| 0 <= k <= s.len() ==> fits_i32(#[trigger] weight(s.take(k), v))
}

/// `parts` have a sum, and `accumulation` is it.
pub open spec fn accumulates<V: Ord>(parts: Seq<Seq<(V, i32)>>) -> bool {
    is_canonical(accumulation(parts)) && represents(accumulation(parts), parts)
}

/// The weight of a value after one more entry.
pub proof fn lemma_weight_push<V>(s: Seq<(V, i32)>, e: (V, i32), v: V)
    ensures
        weight(s.push(e), v) == weight(s, v) + if e.0 == v {
            e.1 as int
        } else {
            0
        },
{
    assert(s.push(e).drop_last() =~= s);
}

/// What two batches put one after the other give a value is what they give
/// it apart.
pub proof fn lemma_weight_concat<V>(a: Seq<(V, i32)>, b: Seq<(V, i32)>, v: V)
    ensures
        weight(a + b, v) == weight(a, v) + weight(b, v),
    decreases b.len(),
{
    if b.len() == 0 {
        assert(a + b =~= a);
    } else {
        lemma_weight_concat(a, b.drop_last(), v);
        assert((a + b).drop_last() =~= a + b.drop_last());
    }
}

/// A value that no entry holds has weight zero.
pub proof fn lemma_weight_absent<V>(s: Seq<(V, i32)>, v: V)
    requires
        forall|i: int| 0 <= i < s.len() ==> (#[trigger] s[i]).0 != v,
    ensures
        weight(s, v) == 0,
    decreases s.len(),
{
    if s.len() > 0 {
        assert(s.last() == s[s.len() - 1]);
        lemma_weight_absent(s.drop_last(), v);
    }
}

/// A value with a weight other than zero is held by some entry.
pub proof fn lemma_weight_occurs<V>(s: Seq<(V, i32)>, v: V) -> (i: int)
    requires
        weight(s, v) != 0,
    ensures
        0 <= i < s.len(),
        s[i].0 == v,
    decreases s.len(),
{
    if s.last().0 == v {
        s.len() - 1
    } else {
        lemma_weight_occurs(s.drop_last(), v)
    }
}

/// In a canonical batch the weight of a value is the weight of its entry.
pub proof fn lemma_weight_canonical<V: Ord>(s: Seq<(V, i32)>, i: int)
    requires
        lawful_order::<V>(),
        is_canonical(s),
        0 <= i < s.len(),
    ensures
        weight(s, s[i].0) == s[i].1,
{
    let x = s[i].0;
    let before = s.take(i);
    let after = s.skip(i + 1);
    lemma_lt_irreflexive(x);
    assert forall|j: int| 0 <= j < before.len() implies (#[trigger] before[j]).0 != x by {
        assert(value_lt(s[j].0, s[i].0));
    }
    assert forall|j: int| 0 <= j < after.len() implies (#[trigger] after[j]).0 != x by {
        assert(value_lt(s[i].0, s[i + 1 + j].0));
    }
    lemma_weight_absent(before, x);
    lemma_weight_absent(after, x);
    assert(s =~= before.push(s[i]) + after);
    lemma_weight_concat(before.push(s[i]), after, x);
    lemma_weight_push(before, s[i], x);
}

/// A canonical batch without its last entry is canonical.
pub proof fn lemma_canonical_drop_last<V: Ord>(s: Seq<(V, i32)>)
    requires
        is_canonical(s),
        s.len() > 0,
    ensures
        is_canonical(s.drop_last()),
{
    let s0 = s.drop_last();
    assert forall|p: int, q: int| 0 <= p < q < s0.len() implies value_lt(#[trigger] s0[p].0, #[trigger] s0[q].0) by {
        assert(value_lt(s[p].0, s[q].0));
    }
    assert forall|p: int| 0 <= p < s0.len() implies (#[trigger] s0[p]).1 != 0 by {
        assert(s[p].1 != 0);
    }
}

/// The greatest value of a canonical batch is no less than any value that the
/// batch gives a weight.
proof fn lemma_last_bounds<V: Ord>(s: Seq<(V, i32)>, v: V)
    requires
        lawful_order::<V>(),
        is_canonical(s),
        weight(s, v) != 0,
    ensures
        s.len() > 0,
        v == s.last().0 || value_lt(v, s.last().0),
{
    let i = lemma_weight_occurs(s, v);
    if i < s.len() - 1 {
        assert(value_lt(s[i].0, s[s.len() - 1].0));
    }
}

/// Two canonical batches that give every value the same weight end in the
/// same entry.
proof fn lemma_same_last<V: Ord>(a: Seq<(V, i32)>, b: Seq<(V, i32)>)
    requires
        lawful_order::<V>(),
        is_canonical(a),
        is_canonical(b),
        a.len() > 0,
        b.len() > 0,
        forall|v: V| #[trigger] weight(a, v) == weight(b, v),
    ensures
        a.last() == b.last(),
{
    let x = a.last();
    let y = b.last();
    lemma_weight_canonical(a, a.len() - 1);
    lemma_weight_canonical(b, b.len() - 1);
    assert(weight(a, x.0) == x.1);
    assert(weight(b, y.0) == y.1);
    assert(weight(a, x.0) == weight(b, x.0));
    assert(weight(a, y.0) == weight(b, y.0));
    assert(x.1 != 0 && y.1 != 0);
    lemma_last_bounds(b, x.0);
    lemma_last_bounds(a, y.0);
    lemma_lt_asymmetric(x.0, y.0);
    assert(x.0 == y.0);
}

/// Two canonical batches that give every value the same weight are the same
/// batch.
pub proof fn lemma_canonical_unique<V: Ord>(a: Seq<(V, i32)>, b: Seq<(V, i32)>)
    requires
        lawful_order::<V>(),
        is_canonical(a),
        is_canonical(b),
        forall|v: V| #[trigger] weight(a, v) == weight(b, v),
    ensures
        a == b,
    decreases a.len(),
{
    if a.len() == 0 {
        if b.len() > 0 {
            lemma_weight_canonical(b, 0);
            assert(weight(a, b[0].0) == weight(b, b[0].0));
        }
        assert(a =~= b);
    } else if b.len() == 0 {
        lemma_weight_canonical(a, 0);
        assert(weight(a, a[0].0) == weight(b, a[0].0));
    } else {
        lemma_same_last(a, b);
        let a0 = a.drop_last();
        let b0 = b.drop_last();
        lemma_canonical_drop_last(a);
        lemma_canonical_drop_last(b);
        assert forall|v: V| #[trigger] weight(a0, v) == weight(b0, v) by {
            assert(weight(a, v) == weight(b, v));
        }
        lemma_canonical_unique(a0, b0);
        assert(a =~= a0.push(a.last()));
        assert(b =~= b0.push(b.last()));
    }
}

/// A canonical batch that gives every value the weight that `parts` give it
/// is the sum of `parts`.
pub proof fn lemma_accumulation_is<V: Ord>(parts: Seq<Seq<(V, i32)>>, r: Seq<(V, i32)>)
    requires
        lawful_order::<V>(),
        is_canonical(r),
        represents(r, parts),
    ensures
        accumulation(parts) == r,
        accumulates(parts),
{
    let a = accumulation(parts);
    assert(is_canonical(a) && represents(a, parts));
    assert forall|v: V| #[trigger] weight(a, v) == weight(r, v) by {
        assert(weight(a, v) == total_weight(parts, v));
        assert(weight(r, v) == total_weight(parts, v));
    }
    lemma_canonical_unique(a, r);
}

/// A canonical batch with one more entry, for a value that it did not hold.
proof fn lemma_insert<V: Ord>(r: Seq<(V, i32)>, x: V, w: i32) -> (r2: Seq<(V, i32)>)
    requires
        lawful_order::<V>(),
        is_canonical(r),
        w != 0,
        forall|i: int| 0 <= i < r.len() ==> (#[trigger] r[i]).0 != x,
    ensures
        is_canonical(r2),
        forall|v: V| #[trigger] weight(r2, v) == weight(r, v) + if v == x { w as int } else { 0 },
        forall|i: int| 0 <= i < r2.len() ==> (#[trigger] r2[i]).0 == x || exists|j: int| 0 <= j < r.len() && r[j] == r2[i],
    decreases r.len(),
{
    if r.len() == 0 {
        let r2 = seq![(x, w)];
        assert forall|v: V| #[trigger] weight(r2, v) == weight(r, v) + if v == x { w as int } else { 0 } by {
            assert(r2 =~= r.push((x, w)));
            lemma_weight_push(r, (x, w), v);
        }
        r2
    } else {
        let last = r.last();
        assert(last == r[r.len() - 1]);
        lemma_lt_total(last.0, x);
        if value_lt(last.0, x) {
            let r2 = r.push((x, w));
            assert forall|v: V| #[trigger] weight(r2, v) == weight(r, v) + if v == x { w as int } else { 0 } by {
                lemma_weight_push(r, (x, w), v);
            }
            assert forall|i: int, j: int| 0 <= i < j < r2.len() implies value_lt(#[trigger] r2[i].0, #[trigger] r2[j].0) by {
                if j == r.len() {
                    if i < r.len() - 1 {
                        assert(value_lt(r[i].0, r[r.len() - 1].0));
                        crate::order::lemma_lt_transitive(r[i].0, last.0, x);
                    }
                } else {
                    assert(value_lt(r[i].0, r[j].0));
                }
            }
            assert forall|i: int| 0 <= i < r2.len() implies (#[trigger] r2[i]).0 == x || exists|j: int| 0 <= j < r.len() && r[j] == r2[i] by {
                if i < r.len() {
                    assert(r[i] == r2[i]);
                }
            }
            r2
        } else {
            let r0 = r.drop_last();
            lemma_canonical_drop_last(r);
            assert forall|i: int| 0 <= i < r0.len() implies (#[trigger] r0[i]).0 != x by {
                assert(r[i].0 != x);
            }
            let inner = lemma_insert(r0, x, w);
            let r2 = inner.push(last);
            assert forall|v: V| #[trigger] weight(r2, v) == weight(r, v) + if v == x { w as int } else { 0 } by {
                lemma_weight_push(inner, last, v);
                assert(weight(inner, v) == weight(r0, v) + if v == x { w as int } else { 0 });
            }
            assert forall|i: int| 0 <= i < inner.len() implies value_lt((#[trigger] inner[i]).0, last.0) by {
                if inner[i].0 != x {
                    let j = choose|j: int| 0 <= j < r0.len() && r0[j] == inner[i];
                    assert(value_lt(r[j].0, r[r.len() - 1].0));
                }
            }
            assert forall|i: int, j: int| 0 <= i < j < r2.len() implies value_lt(#[trigger] r2[i].0, #[trigger] r2[j].0) by {
                if j < inner.len() {
                    assert(value_lt(inner[i].0, inner[j].0));
                } else {
                    assert(value_lt(inner[i].0, last.0));
                }
            }
            assert forall|i: int| 0 <= i < r2.len() implies (#[trigger] r2[i]).1 != 0 by {
                if i < inner.len() {
                    assert(inner[i].1 != 0);
                }
            }
            assert forall|i: int| 0 <= i < r2.len() implies (#[trigger] r2[i]).0 == x || exists|j: int| 0 <= j < r.len() && r[j] == r2[i] by {
                if i < inner.len() {
                    if inner[i].0 != x {
                        let j = choose|j: int| 0 <= j < r0.len() && r0[j] == inner[i];
                        assert(r[j] == r2[i]);
                    }
                } else {
                    assert(r[r.len() - 1] == r2[i]);
                }
            }
            r2
        }
    }
}

/// A canonical batch that gives the values of `xs` the weights that `f`
/// names, and every other value none.
proof fn lemma_build<V: Ord>(xs: Seq<V>, f: spec_fn(V) -> int) -> (r: Seq<(V, i32)>)
    requires
        lawful_order::<V>(),
        forall|v: V| fits_i32(#[trigger] f(v)),
    ensures
        is_canonical(r),
        forall|v: V| #[trigger] weight(r, v) == if xs.contains(v) { f(v) } else { 0 },
    decreases xs.len(),
{
    if xs.len() == 0 {
        let r = Seq::<(V, i32)>::empty();
        assert forall|v: V| #[trigger] weight(r, v) == if xs.contains(v) { f(v) } else { 0 } by {
            if xs.contains(v) {
                let i = choose|i: int| 0 <= i < xs.len() && xs[i] == v;
            }
        }
        r
    } else {
        let x = xs.last();
        let xs0 = xs.drop_last();
        let r0 = lemma_build(xs0, f);
        assert forall|v: V| xs.contains(v) <==> (xs0.contains(v) || v == x) by {
            if xs.contains(v) {
                let i = choose|i: int| 0 <= i < xs.len() && xs[i] == v;
                if i < xs.len() - 1 {
                    assert(xs0[i] == v);
                }
            }
            if xs0.contains(v) {
                let i = choose|i: int| 0 <= i < xs0.len() && xs0[i] == v;
                assert(xs[i] == v);
            }
            if v == x {
                assert(xs[xs.len() - 1] == v);
            }
        }
        if f(x) == 0 || xs0.contains(x) {
            assert forall|v: V| #[trigger] weight(r0, v) == if xs.contains(v) { f(v) } else { 0 } by {
                assert(xs.contains(v) <==> (xs0.contains(v) || v == x));
            }
            r0
        } else {
            assert(weight(r0, x) == 0);
            assert forall|i: int| 0 <= i < r0.len() implies (#[trigger] r0[i]).0 != x by {
                lemma_weight_canonical(r0, i);
            }
            assert(fits_i32(f(x)));
            let r = lemma_insert(r0, x, f(x) as i32);
            assert forall|v: V| #[trigger] weight(r, v) == if xs.contains(v) { f(v) } else { 0 } by {
                assert(xs.contains(v) <==> (xs0.contains(v) || v == x));
                assert(weight(r0, v) == if xs0.contains(v) { f(v) } else { 0 });
            }
            r
        }
    }
}

/// The values that `parts` hold.
proof fn lemma_values_held<V>(parts: Seq<Seq<(V, i32)>>) -> (xs: Seq<V>)
    ensures
        forall|v: V| total_weight(parts, v) != 0 ==> xs.contains(v),
    decreases parts.len(),
{
    if parts.len() == 0 {
        Seq::empty()
    } else {
        let xs0 = lemma_values_held(parts.drop_last());
        let s = parts.last();
        let firsts = Seq::new(s.len(), |i: int| s[i].0);
        let xs = xs0 + firsts;
        assert forall|v: V| total_weight(parts, v) != 0 implies xs.contains(v) by {
            if total_weight(parts.drop_last(), v) != 0 {
                let i = choose|i: int| 0 <= i < xs0.len() && xs0[i] == v;
                assert(xs[i] == v);
            } else {
                let i = lemma_weight_occurs(s, v);
                assert(firsts[i] == v);
                assert(xs[xs0.len() + i] == v);
            }
        }
        xs
    }
}

/// Parts whose summed weights fit the weight type have a sum.
pub proof fn lemma_accumulation_exists<V: Ord>(parts: Seq<Seq<(V, i32)>>)
    requires
        lawful_order::<V>(),
        forall|v: V| fits_i32(#[trigger] total_weight(parts, v)),
    ensures
        accumulates(parts),
{
    let xs = lemma_values_held(parts);
    let f = |v: V| total_weight(parts, v);
    assert forall|v: V| fits_i32(#[trigger] f(v)) by {
        assert(fits_i32(total_weight(parts, v)));
    }
    let r = lemma_build(xs, f);
    assert forall|v: V| #[trigger] weight(r, v) == total_weight(parts, v) by {
        assert(weight(r, v) == if xs.contains(v) { f(v) } else { 0 });
    }
    lemma_accumulation_is(parts, r);
}

/// The number of entries in all of `parts`.
pub open spec fn total_len<V>(parts: Seq<Seq<(V, i32)>>) -> nat
    decreases parts.len(),
{
    if parts.len() == 0 {
        0
    } else {
        total_len(parts.drop_last()) + parts.last().len()
    }
}

/// The weight of a value after one more part.
pub proof fn lemma_total_push<V>(parts: Seq<Seq<(V, i32)>>, s: Seq<(V, i32)>, v: V)
    ensures
        total_weight(parts.push(s), v) == total_weight(parts, v) + weight(s, v),
{
    assert(parts.push(s).drop_last() =~= parts);
}

/// The weight that one more of the parts adds.
pub proof fn lemma_total_take<V>(parts: Seq<Seq<(V, i32)>>, k: int, v: V)
    requires
        0 <= k < parts.len(),
    ensures
        total_weight(parts.take(k + 1), v) == total_weight(parts.take(k), v) + weight(parts[k], v),
{
    assert(parts.take(k + 1).drop_last() =~= parts.take(k));
}

/// Parts that give `v` the same weight one by one give it the same weight
/// together.
pub proof fn lemma_total_pointwise<V>(a: Seq<Seq<(V, i32)>>, b: Seq<Seq<(V, i32)>>, v: V)
    requires
        a.len() == b.len(),
        forall|j: int| 0 <= j < a.len() ==> weight(#[trigger] a[j], v) == weight(b[j], v),
    ensures
        total_weight(a, v) == total_weight(b, v),
    decreases a.len(),
{
    if a.len() > 0 {
        assert(a.last() == a[a.len() - 1]);
        assert forall|j: int| 0 <= j < a.drop_last().len() implies weight(#[trigger] a.drop_last()[j], v) == weight(
            b.drop_last()[j],
            v,
        ) by {
            assert(a.drop_last()[j] == a[j]);
        }
        lemma_total_pointwise(a.drop_last(), b.drop_last(), v);
    }
}

/// If all parts but one give `v` no weight, that one gives it all.
pub proof fn lemma_total_single<V>(parts: Seq<Seq<(V, i32)>>, b: int, v: V)
    requires
        forall|j: int| 0 <= j < parts.len() && j != b ==> weight(#[trigger] parts[j], v) == 0,
    ensures
        total_weight(parts, v) == if 0 <= b < parts.len() { weight(parts[b], v) } else { 0 },
    decreases parts.len(),
{
    if parts.len() > 0 {
        assert(parts.last() == parts[parts.len() - 1]);
        assert forall|j: int| 0 <= j < parts.drop_last().len() && j != b implies weight(#[trigger] parts.drop_last()[j], v)
            == 0 by {
            assert(parts.drop_last()[j] == parts[j]);
        }
        lemma_total_single(parts.drop_last(), b, v);
    }
}

/// A value to which the parts together give a weight gets one from some part.
pub proof fn lemma_total_occurs<V>(parts: Seq<Seq<(V, i32)>>, v: V) -> (j: int)
    requires
        total_weight(parts, v) != 0,
    ensures
        0 <= j < parts.len(),
        weight(parts[j], v) != 0,
    decreases parts.len(),
{
    if weight(parts.last(), v) != 0 {
        parts.len() - 1
    } else {
        lemma_total_occurs(parts.drop_last(), v)
    }
}

/// Parts that shrink one by one shrink together.
pub proof fn lemma_total_len_pointwise<V>(a: Seq<Seq<(V, i32)>>, b: Seq<Seq<(V, i32)>>)
    requires
        a.len() == b.len(),
        forall|j: int| 0 <= j < a.len() ==> (#[trigger] b[j]).len() <= a[j].len(),
    ensures
        total_len(b) <= total_len(a),
        (exists|j: int| 0 <= j < a.len() && (#[trigger] b[j]).len() < a[j].len()) ==> total_len(b) < total_len(a),
    decreases a.len(),
{
    if a.len() > 0 {
        let n = a.len() - 1;
        assert(a.last() == a[n] && b.last() == b[n]);
        assert forall|j: int| 0 <= j < a.drop_last().len() implies (#[trigger] b.drop_last()[j]).len() <= a.drop_last()[j].len() by {
            assert(b.drop_last()[j] == b[j]);
        }
        lemma_total_len_pointwise(a.drop_last(), b.drop_last());
        if exists|j: int| 0 <= j < a.len() && (#[trigger] b[j]).len() < a[j].len() {
            let j = choose|j: int| 0 <= j < a.len() && (#[trigger] b[j]).len() < a[j].len();
            if j < n {
                assert(b.drop_last()[j].len() < a.drop_last()[j].len());
            }
        }
    }
}

/// What parts put one after the other give a value is what they give it apart.
pub proof fn lemma_total_concat<V>(a: Seq<Seq<(V, i32)>>, b: Seq<Seq<(V, i32)>>, v: V)
    ensures
        total_weight(a + b, v) == total_weight(a, v) + total_weight(b, v),
    decreases b.len(),
{
    if b.len() == 0 {
        assert(a + b =~= a);
    } else {
        lemma_total_concat(a, b.drop_last(), v);
        assert((a + b).drop_last() =~= a + b.drop_last());
    }
}

/// The entries of `s` with the opposite weights.
pub open spec fn negated<V>(s: Seq<(V, i32)>) -> Seq<(V, i32)> {
    Seq::new(s.len(), |i: int| (s[i].0, (-s[i].1) as i32))
}

/// The weights of the negated entries are the opposite weights.
pub proof fn lemma_negated<V>(s: Seq<(V, i32)>, v: V)
    requires
        forall|i: int| 0 <= i < s.len() ==> (#[trigger] s[i]).1 != i32::MIN,
    ensures
        weight(negated(s), v) == -weight(s, v),
    decreases s.len(),
{
    if s.len() > 0 {
        let s0 = s.drop_last();
        assert forall|i: int| 0 <= i < s0.len() implies (#[trigger] s0[i]).1 != i32::MIN by {
            assert(s[i].1 != i32::MIN);
        }
        lemma_negated(s0, v);
        assert(negated(s).drop_last() =~= negated(s0));
        assert(s[s.len() - 1].1 != i32::MIN);
    }
}

/// A canonical batch stays canonical when its entries are negated.
pub proof fn lemma_negated_canonical<V: Ord>(s: Seq<(V, i32)>)
    requires
        is_canonical(s),
        forall|i: int| 0 <= i < s.len() ==> (#[trigger] s[i]).1 != i32::MIN,
    ensures
        is_canonical(negated(s)),
{
    let n = negated(s);
    assert forall|i: int, j: int| 0 <= i < j < n.len() implies value_lt(
        #[trigger] n[i].0,
        #[trigger] n[j].0,
    ) by {
        assert(value_lt(s[i].0, s[j].0));
    }
    assert forall|i: int| 0 <= i < n.len() implies (#[trigger] n[i]).1 != 0 by {
        assert(s[i].1 != 0 && s[i].1 != i32::MIN);
    }
}

} // verus!
