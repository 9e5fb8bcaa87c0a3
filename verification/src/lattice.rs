use vstd::prelude::*;

verus! {

/// A partially ordered type in which any two elements have a least upper
/// bound.
pub trait LeastUpperBound: Sized {
    /// The partial order: `self` is below or equal to `other`.
    spec fn le_spec(&self, other: &Self) -> bool;

    /// The least element that is above or equal to both.
    spec fn lub_spec(&self, other: &Self) -> Self;

    /// `le_spec` is reflexive, antisymmetric and transitive.
    proof fn lemma_partial_order(a: Self, b: Self, c: Self)
        ensures
            a.le_spec(&a),
            a.le_spec(&b) && b.le_spec(&a) ==> a == b,
            a.le_spec(&b) && b.le_spec(&c) ==> a.le_spec(&c),
    ;

    /// `lub_spec` is above both of its arguments and below everything else
    /// that is.
    proof fn lemma_least_upper_bound(a: Self, b: Self, c: Self)
        ensures
            a.le_spec(&a.lub_spec(&b)),
            b.le_spec(&a.lub_spec(&b)),
            a.le_spec(&c) && b.le_spec(&c) ==> a.lub_spec(&b).le_spec(&c),
    ;

    /// Decides the partial order.
    fn less_equal(&self, other: &Self) -> (r: bool)
        ensures
            r == self.le_spec(other),
    ;

    /// Computes the least upper bound.
    fn least_upper_bound(&self, other: &Self) -> (r: Self)
        ensures
            r == self.lub_spec(other),
    ;
}

/// The unsigned integers in their usual order; the least upper bound is the
/// greater of the two.
impl LeastUpperBound for u64 {
    open spec fn le_spec(&self, other: &u64) -> bool {
        *self <= *other
    }

    open spec fn lub_spec(&self, other: &u64) -> u64 {
        if *self <= *other {
            *other
        } else {
            *self
        }
    }

    proof fn lemma_partial_order(a: u64, b: u64, c: u64) {
    }

    proof fn lemma_least_upper_bound(a: u64, b: u64, c: u64) {
    }

    fn less_equal(&self, other: &u64) -> (r: bool) {
        *self <= *other
    }

    fn least_upper_bound(&self, other: &u64) -> (r: u64) {
        if *self <= *other {
            *other
        } else {
            *self
        }
    }
}

/// Pairs, ordered component by component; the least upper bound is taken
/// component by component.
impl<A: LeastUpperBound, B: LeastUpperBound> LeastUpperBound for (A, B) {
    open spec fn le_spec(&self, other: &(A, B)) -> bool {
        self.0.le_spec(&other.0) && self.1.le_spec(&other.1)
    }

    open spec fn lub_spec(&self, other: &(A, B)) -> (A, B) {
        (self.0.lub_spec(&other.0), self.1.lub_spec(&other.1))
    }

    proof fn lemma_partial_order(a: (A, B), b: (A, B), c: (A, B)) {
        A::lemma_partial_order(a.0, b.0, c.0);
        B::lemma_partial_order(a.1, b.1, c.1);
    }

    proof fn lemma_least_upper_bound(a: (A, B), b: (A, B), c: (A, B)) {
        A::lemma_least_upper_bound(a.0, b.0, c.0);
        B::lemma_least_upper_bound(a.1, b.1, c.1);
    }

    fn less_equal(&self, other: &(A, B)) -> (r: bool) {
        self.0.less_equal(&other.0) && self.1.less_equal(&other.1)
    }

    fn least_upper_bound(&self, other: &(A, B)) -> (r: (A, B)) {
        (self.0.least_upper_bound(&other.0), self.1.least_upper_bound(&other.1))
    }
}

/// The least upper bound of an element with itself is the element.
pub proof fn lemma_lub_idempotent<T: LeastUpperBound>(a: T)
    ensures
        a.lub_spec(&a) == a,
{
    T::lemma_least_upper_bound(a, a, a);
    T::lemma_partial_order(a, a.lub_spec(&a), a);
}

/// The least upper bound does not depend on the order of its arguments.
pub proof fn lemma_lub_commutative<T: LeastUpperBound>(a: T, b: T)
    ensures
        a.lub_spec(&b) == b.lub_spec(&a),
{
    let x = a.lub_spec(&b);
    let y = b.lub_spec(&a);
    T::lemma_least_upper_bound(a, b, y);
    T::lemma_least_upper_bound(b, a, x);
    T::lemma_partial_order(x, y, x);
}

/// The least upper bound of three elements does not depend on the grouping.
pub proof fn lemma_lub_associative<T: LeastUpperBound>(a: T, b: T, c: T)
    ensures
        a.lub_spec(&b).lub_spec(&c) == a.lub_spec(&b.lub_spec(&c)),
{
    let ab = a.lub_spec(&b);
    let bc = b.lub_spec(&c);
    let x = ab.lub_spec(&c);
    let y = a.lub_spec(&bc);
    // x is below y
    T::lemma_least_upper_bound(a, bc, y);
    T::lemma_least_upper_bound(b, c, y);
    T::lemma_partial_order(b, bc, y);
    T::lemma_partial_order(c, bc, y);
    T::lemma_least_upper_bound(a, b, y);
    T::lemma_least_upper_bound(ab, c, y);
    // y is below x
    T::lemma_least_upper_bound(ab, c, x);
    T::lemma_least_upper_bound(a, b, x);
    T::lemma_partial_order(a, ab, x);
    T::lemma_partial_order(b, ab, x);
    T::lemma_least_upper_bound(b, c, x);
    T::lemma_least_upper_bound(a, bc, x);
    T::lemma_partial_order(x, y, x);
}

/// Decides whether two elements are the same.
pub fn same_time<T: LeastUpperBound>(a: &T, b: &T) -> (r: bool)
    ensures
        r == (*a == *b),
{
    proof {
        T::lemma_partial_order(*a, *b, *a);
    }
    a.less_equal(b) && b.less_equal(a)
}

/// Decides whether `vec` holds `x`.
pub fn holds<T: LeastUpperBound>(vec: &Vec<T>, x: &T) -> (r: bool)
    ensures
        r == vec@.contains(*x),
{
    let mut i: usize = 0;
    while i < vec.len()
        invariant
            i <= vec@.len(),
            forall|j: int| 0 <= j < i ==> vec@[j] != *x,
        decreases vec@.len() - i,
    {
        if same_time(&vec[i], x) {
            return true;
        }
        i += 1;
    }
    false
}

/// `s` holds the least upper bound of any two of its elements.
pub open spec fn is_lub_closed<T: LeastUpperBound>(s: Seq<T>) -> bool {
    forall|i: int, j: int| 0 <= i < s.len() && 0 <= j < s.len() ==> s.contains(#[trigger] s[i].lub_spec(&s[j]))
}

/// The set `c` holds all of `seeds` and the least upper bound of any two of
/// its elements.
pub open spec fn encloses<T: LeastUpperBound>(c: Set<T>, seeds: Seq<T>) -> bool {
    &&& forall|i: int| 0 <= i < seeds.len() ==> c.contains(#[trigger] seeds[i])
    &&& forall|a: T, b: T| c.contains(a) && c.contains(b) ==> c.contains(#[trigger] a.lub_spec(&b))
}

/// `x` can be had from `seeds` by taking least upper bounds: it lies in every
/// set that holds the seeds and is closed under least upper bounds.
pub open spec fn lub_generated<T: LeastUpperBound>(seeds: Seq<T>, x: T) -> bool {
    forall|c: Set<T>| #[trigger] encloses(c, seeds) ==> c.contains(x)
}

/// `s` followed by those of `xs` that it does not hold, each once, in the
/// order of `xs`.
pub open spec fn with_new<T>(s: Seq<T>, xs: Seq<T>) -> Seq<T>
    decreases xs.len(),
{
    if xs.len() == 0 {
        s
    } else {
        let held = with_new(s, xs.drop_last());
        if held.contains(xs.last()) {
            held
        } else {
            held.push(xs.last())
        }
    }
}

/// No element of `s` from position `from` on occurs at an earlier position.
pub open spec fn fresh_from<T>(s: Seq<T>, from: int) -> bool {
    forall|i: int, j: int| 0 <= i < j < s.len() && from <= j ==> s[i] != s[j]
}

/// The least upper bound of two generated elements is generated.
pub proof fn lemma_generated_lub<T: LeastUpperBound>(seeds: Seq<T>, a: T, b: T)
    requires
        lub_generated(seeds, a),
        lub_generated(seeds, b),
    ensures
        lub_generated(seeds, a.lub_spec(&b)),
{
    assert forall|c: Set<T>| #[trigger] encloses(c, seeds) implies c.contains(a.lub_spec(&b)) by {
        assert(c.contains(a));
        assert(c.contains(b));
    }
}

/// What more seeds generate, fewer seeds generate too.
pub proof fn lemma_generated_monotone<T: LeastUpperBound>(fewer: Seq<T>, more: Seq<T>, x: T)
    requires
        lub_generated(fewer, x),
        forall|i: int| 0 <= i < fewer.len() ==> more.contains(#[trigger] fewer[i]),
    ensures
        lub_generated(more, x),
{
    assert forall|c: Set<T>| #[trigger] encloses(c, more) implies c.contains(x) by {
        assert forall|i: int| 0 <= i < fewer.len() implies c.contains(#[trigger] fewer[i]) by {
            let j = choose|j: int| 0 <= j < more.len() && more[j] == fewer[i];
            assert(c.contains(more[j]));
        }
        assert(encloses(c, fewer));
    }
}

/// A closed sequence stays closed when one element joins it together with
/// its least upper bounds with all that were there.
proof fn lemma_extend_closed<T: LeastUpperBound>(a: Seq<T>, s: T, c: Seq<T>)
    requires
        is_lub_closed(a),
        forall|p: int| 0 <= p < a.len() ==> c.contains(#[trigger] a[p]),
        c.contains(s),
        forall|q: int| 0 <= q < a.len() ==> c.contains(#[trigger] s.lub_spec(&a[q])),
        forall|p: int|
            0 <= p < c.len() ==> a.contains(#[trigger] c[p]) || c[p] == s || exists|q: int|
                0 <= q < a.len() && c[p] == s.lub_spec(&a[q]),
    ensures
        is_lub_closed(c),
{
    assert forall|i: int, j: int| 0 <= i < c.len() && 0 <= j < c.len() implies c.contains(
        #[trigger] c[i].lub_spec(&c[j]),
    ) by {
        let x = c[i];
        let y = c[j];
        // write each as the least upper bound of at most `s` and one of `a`
        let xa = a.contains(x);
        let ya = a.contains(y);
        let xs = !xa && x == s;
        let ys = !ya && y == s;
        let p: int = if xa {
            choose|p: int| 0 <= p < a.len() && a[p] == x
        } else if xs {
            0
        } else {
            choose|q: int| 0 <= q < a.len() && x == s.lub_spec(&a[q])
        };
        let q: int = if ya {
            choose|p: int| 0 <= p < a.len() && a[p] == y
        } else if ys {
            0
        } else {
            choose|q: int| 0 <= q < a.len() && y == s.lub_spec(&a[q])
        };
        lemma_lub_idempotent(s);
        if xa && ya {
            let r = choose|r: int| 0 <= r < a.len() && a[r] == a[p].lub_spec(&a[q]);
            assert(a.contains(a[p].lub_spec(&a[q])));
            assert(c.contains(a[r]));
        } else if xa && ys {
            lemma_lub_commutative(x, s);
        } else if xs && ya {
        } else if xs && ys {
        } else if xs {
            // s with (s with a[q])
            lemma_lub_associative(s, s, a[q]);
        } else if ys {
            // (s with a[p]) with s
            lemma_lub_commutative(x, s);
            lemma_lub_associative(s, s, a[p]);
        } else {
            assert(a.contains(a[p].lub_spec(&a[q])));
            let r = choose|r: int| 0 <= r < a.len() && a[r] == a[p].lub_spec(&a[q]);
            assert(c.contains(s.lub_spec(&a[r])));
            if xa {
                // a[p] with (s with a[q])
                lemma_lub_associative(a[p], s, a[q]);
                lemma_lub_commutative(a[p], s);
                lemma_lub_associative(s, a[p], a[q]);
            } else if ya {
                // (s with a[p]) with a[q]
                lemma_lub_associative(s, a[p], a[q]);
            } else {
                // (s with a[p]) with (s with a[q])
                lemma_lub_associative(s, a[p], s.lub_spec(&a[q]));
                lemma_lub_associative(a[p], s, a[q]);
                lemma_lub_commutative(a[p], s);
                lemma_lub_associative(s, a[p], a[q]);
                lemma_lub_associative(s, s, a[p].lub_spec(&a[q]));
            }
        }
    }
}

/// What a sequence holds once one more element is appended.
proof fn lemma_push_contains<T>(s: Seq<T>, x: T)
    ensures
        s.push(x).contains(x),
        forall|y: T| s.contains(y) ==> #[trigger] s.push(x).contains(y),
        forall|y: T| #[trigger] s.push(x).contains(y) ==> s.contains(y) || y == x,
{
    assert(s.push(x)[s.len() as int] == x);
    assert forall|y: T| s.contains(y) implies #[trigger] s.push(x).contains(y) by {
        let i = choose|i: int| 0 <= i < s.len() && s[i] == y;
        assert(s.push(x)[i] == y);
    }
    assert forall|y: T| #[trigger] s.push(x).contains(y) implies s.contains(y) || y == x by {
        let i = choose|i: int| 0 <= i < s.push(x).len() && s.push(x)[i] == y;
        if i < s.len() {
            assert(s[i] == y);
        }
    }
}

/// Extends `vec` to a sequence that is closed under least upper bounds: every
/// least upper bound that can be had from the elements of `vec` is appended,
/// once, unless `vec` holds it already.
pub fn close_under_lub<T: LeastUpperBound>(vec: &mut Vec<T>)
    ensures
        final(vec)@.len() >= old(vec)@.len(),
        final(vec)@.take(old(vec)@.len() as int) == old(vec)@,
        is_lub_closed(final(vec)@),
        forall|p: int| 0 <= p < final(vec)@.len() ==> lub_generated(old(vec)@, #[trigger] final(vec)@[p]),
        fresh_from(final(vec)@, old(vec)@.len() as int),
{
    let ghost seeds = vec@;
    let mut closure: Vec<T> = Vec::new();
    let n: usize = vec.len();
    let mut i: usize = 0;
    while i < n
        invariant
            vec@ == seeds,
            n == seeds.len(),
            i <= n,
            is_lub_closed(closure@),
            forall|k: int| 0 <= k < i ==> closure@.contains(#[trigger] seeds[k]),
            forall|p: int| 0 <= p < closure@.len() ==> lub_generated(seeds, #[trigger] closure@[p]),
            fresh_from(closure@, 0),
        decreases n - i,
    {
        let ghost before = closure@;
        let ghost seed = seeds[i as int];
        let m: usize = closure.len();
        let own = vec[i].least_upper_bound(&vec[i]);
        proof {
            lemma_lub_idempotent(seed);
            assert(lub_generated(seeds, seed));
            lemma_push_contains(before, seed);
        }
        if !holds(&closure, &own) {
            closure.push(own);
        }
        assert(closure@.take(m as int) =~= before);
        let mut j: usize = 0;
        while j < m
            invariant
                vec@ == seeds,
                i < n == seeds.len(),
                seed == seeds[i as int],
                j <= m == before.len(),
                m <= closure@.len(),
                closure@.take(m as int) == before,
                closure@.contains(seed),
                forall|p: int| 0 <= p < before.len() ==> lub_generated(seeds, #[trigger] before[p]),
                forall|q: int| 0 <= q < j ==> closure@.contains(#[trigger] seed.lub_spec(&before[q])),
                forall|p: int|
                    0 <= p < closure@.len() ==> before.contains(#[trigger] closure@[p]) || closure@[p] == seed
                        || exists|q: int| 0 <= q < before.len() && closure@[p] == seed.lub_spec(&before[q]),
                forall|p: int| 0 <= p < closure@.len() ==> lub_generated(seeds, #[trigger] closure@[p]),
                fresh_from(closure@, 0),
            decreases m - j,
        {
            let ghost held = closure@;
            let x = vec[i].least_upper_bound(&closure[j]);
            proof {
                assert(held[j as int] == held.take(m as int)[j as int]);
                assert(x == seed.lub_spec(&before[j as int]));
                lemma_generated_lub(seeds, seed, before[j as int]);
                lemma_push_contains(held, x);
            }
            if !holds(&closure, &x) {
                closure.push(x);
                proof {
                    assert(closure@.take(m as int) =~= before);
                    assert forall|p: int| 0 <= p < closure@.len() implies before.contains(#[trigger] closure@[p])
                        || closure@[p] == seed || exists|q: int|
                        0 <= q < before.len() && closure@[p] == seed.lub_spec(&before[q]) by {
                        if p < held.len() {
                            assert(closure@[p] == held[p]);
                        }
                    }
                }
            }
            j += 1;
        }
        proof {
            assert forall|p: int| 0 <= p < before.len() implies closure@.contains(#[trigger] before[p]) by {
                assert(closure@.take(m as int)[p] == closure@[p]);
            }
            lemma_extend_closed(before, seed, closure@);
            assert forall|k: int| 0 <= k < i + 1 implies closure@.contains(#[trigger] seeds[k]) by {
                if k < i {
                    let at = choose|at: int| 0 <= at < before.len() && before[at] == seeds[k];
                    assert(closure@.contains(before[at]));
                }
            }
        }
        i += 1;
    }
    let ghost all = closure@;
    proof {
        assert(vec@.take(n as int) =~= seeds);
    }
    while closure.len() > 0
        invariant
            n == seeds.len(),
            vec@.len() >= n,
            vec@.take(n as int) == seeds,
            closure@.len() <= all.len(),
            closure@ == all.take(closure@.len() as int),
            forall|p: int| closure@.len() <= p < all.len() ==> vec@.contains(#[trigger] all[p]),
            forall|k: int| 0 <= k < n ==> all.contains(#[trigger] seeds[k]),
            forall|p: int| 0 <= p < vec@.len() ==> all.contains(#[trigger] vec@[p]),
            fresh_from(vec@, n as int),
        decreases closure@.len(),
    {
        let ghost held = vec@;
        let ghost at = closure@.len() - 1;
        let x = closure.pop().unwrap();
        proof {
            assert(x == all[at]);
            assert(closure@ =~= all.take(at));
            lemma_push_contains(held, x);
        }
        if !holds(vec, &x) {
            vec.push(x);
            proof {
                assert(vec@.take(n as int) =~= seeds);
                assert forall|p: int| 0 <= p < vec@.len() implies all.contains(#[trigger] vec@[p]) by {
                    if p < held.len() {
                        assert(vec@[p] == held[p]);
                    }
                }
                assert forall|a: int, b: int| 0 <= a < b < vec@.len() && n <= b implies vec@[a] != vec@[b] by {
                    if b < held.len() {
                        assert(held[a] != held[b]);
                    } else {
                        assert(held[a] == vec@[a]);
                    }
                }
            }
        }
    }
    proof {
        let done = vec@;
        assert forall|a: int, b: int| 0 <= a < done.len() && 0 <= b < done.len() implies done.contains(
            #[trigger] done[a].lub_spec(&done[b]),
        ) by {
            let p = choose|p: int| 0 <= p < all.len() && all[p] == done[a];
            let q = choose|q: int| 0 <= q < all.len() && all[q] == done[b];
            assert(all.contains(all[p].lub_spec(&all[q])));
            let r = choose|r: int| 0 <= r < all.len() && all[r] == all[p].lub_spec(&all[q]);
            assert(done.contains(all[r]));
        }
        assert forall|p: int| 0 <= p < done.len() implies lub_generated(seeds, #[trigger] done[p]) by {
            let q = choose|q: int| 0 <= q < all.len() && all[q] == done[p];
            assert(lub_generated(seeds, all[q]));
        }
    }
}

} // verus!
