use crate::order::{lawful_eq, same_key};
use vstd::prelude::*;

verus! {

/// A map from keys to values that can look a key up and can hand out the
/// value of a key for change, putting a given value there first where the key
/// had none.
pub trait Lookup<K, V>: Sized {
    /// The map is in a state in which its methods may be called.
    spec fn wf(&self) -> bool;

    /// What the map holds.
    spec fn contents(&self) -> Map<K, V>;

    /// The value of `key`, if it has one.
    fn get_ref(&self, key: &K) -> (r: Option<&V>)
        requires
            self.wf(),
        ensures
            r == (if self.contents().contains_key(*key) {
                Some(&self.contents()[*key])
            } else {
                None::<&V>
            }),
    ;

    /// The value of `key`, for change. Where `key` has none, `func` is called,
    /// once, and its result becomes the value.
    fn entry_or_insert<F: FnOnce() -> V>(&mut self, key: K, func: F) -> (r: &mut V)
        requires
            old(self).wf(),
            func.requires(()),
        ensures
            old(self).contents().contains_key(key) ==> *r == old(self).contents()[key],
            !old(self).contents().contains_key(key) ==> func.ensures((), *r),
            final(self).contents() == old(self).contents().insert(key, *final(r)),
            final(self).wf(),
    ;
}

/// The position of an entry for `key` in `s`.
pub open spec fn position_of<K, V>(s: Seq<(K, V)>, key: K) -> int {
    choose|i: int| 0 <= i < s.len() && s[i].0 == key
}

/// `s` has an entry for `key`.
pub open spec fn has_key<K, V>(s: Seq<(K, V)>, key: K) -> bool {
    exists|i: int| 0 <= i < s.len() && s[i].0 == key
}

/// No two entries of `s` have the same key.
pub open spec fn distinct_keys<K, V>(s: Seq<(K, V)>) -> bool {
    forall|i: int, j: int| 0 <= i < j < s.len() ==> s[i].0 != s[j].0
}

/// The map that the entries of `s` make up.
pub open spec fn map_of<K, V>(s: Seq<(K, V)>) -> Map<K, V> {
    Map::new(|k: K| has_key(s, k), |k: K| s[position_of(s, k)].1)
}

proof fn lemma_update<K, V>(a: Seq<(K, V)>, i: int, key: K, x: V)
    requires
        distinct_keys(a),
        0 <= i < a.len(),
        a[i].0 == key,
    ensures
        distinct_keys(a.update(i, (key, x))),
        map_of(a.update(i, (key, x))) == map_of(a).insert(key, x),
{
    let b = a.update(i, (key, x));
    assert forall|k: K| has_key(a, k) <==> has_key(b, k) by {
        if has_key(a, k) {
            let j = position_of(a, k);
            assert(b[j].0 == k);
        }
        if has_key(b, k) {
            let j = position_of(b, k);
            assert(a[j].0 == k);
        }
    }
    assert forall|k: K| has_key(b, k) implies #[trigger] b[position_of(b, k)].1 == map_of(a).insert(key, x)[k] by {
        let j = position_of(b, k);
        let j2 = position_of(a, k);
        assert(a[j].0 == k);
    }
    assert(map_of(b) =~= map_of(a).insert(key, x));
}

proof fn lemma_push<K, V>(a: Seq<(K, V)>, key: K, x: V)
    requires
        distinct_keys(a),
        !has_key(a, key),
    ensures
        distinct_keys(a.push((key, x))),
        map_of(a.push((key, x))) == map_of(a).insert(key, x),
{
    let b = a.push((key, x));
    let n: int = a.len() as int;
    assert(b[n].0 == key);
    assert forall|k: K| (has_key(a, k) || k == key) <==> has_key(b, k) by {
        if has_key(a, k) {
            let j = position_of(a, k);
            assert(b[j].0 == k);
        }
        if has_key(b, k) {
            let j = position_of(b, k);
            if j < n {
                assert(a[j].0 == k);
            }
        }
    }
    assert forall|k: K| has_key(b, k) implies #[trigger] b[position_of(b, k)].1 == map_of(a).insert(key, x)[k] by {
        let j = position_of(b, k);
        if j < n {
            assert(a[j].0 == k);
            let j2 = position_of(a, k);
        }
    }
    assert(map_of(b) =~= map_of(a).insert(key, x));
}

/// A list of entries, searched from the front.
impl<K: Eq, V> Lookup<K, V> for Vec<(K, V)> {
    open spec fn wf(&self) -> bool {
        lawful_eq::<K>() && distinct_keys(self@)
    }

    open spec fn contents(&self) -> Map<K, V> {
        map_of(self@)
    }

    fn get_ref(&self, key: &K) -> (r: Option<&V>) {
        let mut i: usize = 0;
        while i < self.len()
            invariant
                i <= self@.len(),
                self.wf(),
                forall|j: int| 0 <= j < i ==> self@[j].0 != *key,
            decreases self@.len() - i,
        {
            if same_key(&self[i].0, key) {
                assert(position_of(self@, *key) == i);
                return Some(&self[i].1);
            }
            i += 1;
        }
        None
    }

    fn entry_or_insert<F: FnOnce() -> V>(&mut self, key: K, func: F) -> (r: &mut V) {
        let mut i: usize = 0;
        while i < self.len()
            invariant
                i <= self@.len(),
                self.wf(),
                *self == *old(self),
                forall|j: int| 0 <= j < i ==> self@[j].0 != key,
            decreases self@.len() - i,
        {
            if same_key(&self[i].0, &key) {
                proof {
                    assert(position_of(self@, key) == i);
                    assert forall|x: V|
                        distinct_keys(self@.update(i as int, (key, x))) && #[trigger] map_of(
                            self@.update(i as int, (key, x)),
                        ) == map_of(self@).insert(key, x) by {
                        lemma_update(self@, i as int, key, x);
                    }
                }
                return &mut self[i].1;
            }
            i += 1;
        }
        let value = func();
        proof {
            assert(!has_key(self@, key));
            assert forall|x: V|
                distinct_keys(self@.push((key, x))) && #[trigger] map_of(self@.push((key, x))) == map_of(
                    self@,
                ).insert(key, x) by {
                lemma_push(self@, key, x);
            }
        }
        self.push((key, value));
        let n: usize = self.len();
        proof {
            assert forall|x: V| #[trigger] self@.update(n - 1, (key, x)) == old(self)@.push((key, x)) by {
                assert(self@.update(n - 1, (key, x)) =~= old(self)@.push((key, x)));
            }
        }
        &mut self[n - 1].1
    }
}

} // verus!
