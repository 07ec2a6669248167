//! An ordered set, with a mathematical set as its model.

use vstd::prelude::*;

use crate::common::ordmap::{ascending, Duplicate, OrdKey, OrdMap};

verus! {

/// A set of keys that is walked in ascending order.
pub struct OrdSet<K: OrdKey> {
    map: OrdMap<K, ()>,
}

/// The elements of a finite set in ascending order.
pub open spec fn sorted<K: OrdKey>(s: Set<K::V>) -> Seq<K::V> {
    choose|q: Seq<K::V>| #[trigger] ascending::<K>(q) && q.to_set() == s
}

/// A set has only one ascending order.
pub proof fn lemma_ascending_determined<K: OrdKey>(a: Seq<K::V>, b: Seq<K::V>)
    requires
        ascending::<K>(a),
        ascending::<K>(b),
        a.to_set() == b.to_set(),
    ensures
        a == b,
    decreases a.len(),
{
    if a.len() == 0 {
        if b.len() > 0 {
            assert(b.to_set().contains(b[0]));
            assert(a.to_set().contains(b[0]));
        }
        assert(a =~= b);
    } else {
        assert(a.to_set().contains(a[0]));
        assert(b.to_set().contains(a[0]));
        let j = b.index_of(a[0]);
        assert(0 <= j < b.len() && b[j] == a[0]);
        assert(b.to_set().contains(b[0]));
        assert(a.to_set().contains(b[0]));
        let i = a.index_of(b[0]);
        assert(0 <= i < a.len() && a[i] == b[0]);
        if i > 0 && j > 0 {
            K::before_transitive(a[0], a[i], a[0]);
            K::before_irreflexive(a[0]);
        }
        assert(a[0] == b[0]);
        let (x, y) = (a.drop_first(), b.drop_first());
        assert(ascending::<K>(x));
        assert(ascending::<K>(y));
        assert forall|k: K::V| x.to_set().contains(k) == y.to_set().contains(k) by {
            K::before_irreflexive(a[0]);
            if x.contains(k) {
                let n = x.index_of(k);
                assert(a[n + 1] == k);
                assert(K::before(a[0], k));
                assert(a.to_set().contains(k));
                assert(b.to_set().contains(k));
                let m = b.index_of(k);
                assert(b[m] == k);
                assert(m != 0);
                assert(y[m - 1] == k);
            }
            if y.contains(k) {
                let n = y.index_of(k);
                assert(b[n + 1] == k);
                assert(K::before(b[0], k));
                assert(b.to_set().contains(k));
                assert(a.to_set().contains(k));
                let m = a.index_of(k);
                assert(a[m] == k);
                assert(m != 0);
                assert(x[m - 1] == k);
            }
        }
        assert(x.to_set() =~= y.to_set());
        lemma_ascending_determined::<K>(x, y);
        assert(a =~= seq![a[0]] + x);
        assert(b =~= seq![b[0]] + y);
    }
}

/// Keys in ascending order are their set in ascending order.
pub proof fn lemma_is_sorted<K: OrdKey>(keys: Seq<K::V>, s: Set<K::V>)
    requires
        ascending::<K>(keys),
        keys.to_set() == s,
    ensures
        sorted::<K>(s) == keys,
{
    let q = sorted::<K>(s);
    assert(ascending::<K>(q) && q.to_set() == s);
    lemma_ascending_determined::<K>(q, keys);
}

proof fn lemma_last_exists<K: OrdKey>(s: Set<K::V>) -> (m: K::V)
    requires
        s.finite(),
        s.len() > 0,
    ensures
        s.contains(m),
        forall|k: K::V| #[trigger] s.contains(k) && k != m ==> K::before(k, m),
    decreases s.len(),
{
    let a = s.choose();
    let rest = s.remove(a);
    if rest.len() == 0 {
        assert forall|k: K::V| #[trigger] s.contains(k) && k != a implies K::before(k, a) by {
            assert(rest.contains(k));
        }
        a
    } else {
        let m = lemma_last_exists::<K>(rest);
        K::before_total(a, m);
        if K::before(m, a) {
            assert forall|k: K::V| #[trigger] s.contains(k) && k != a implies K::before(k, a) by {
                assert(rest.contains(k));
                if k != m {
                    K::before_transitive(k, m, a);
                }
            }
            a
        } else {
            assert forall|k: K::V| #[trigger] s.contains(k) && k != m implies K::before(k, m) by {
                if k != a {
                    assert(rest.contains(k));
                }
            }
            m
        }
    }
}

/// A finite set has an ascending order.
pub proof fn lemma_sorted_exists<K: OrdKey>(s: Set<K::V>)
    requires
        s.finite(),
    ensures
        ascending::<K>(sorted::<K>(s)),
        sorted::<K>(s).to_set() == s,
    decreases s.len(),
{
    if s.len() == 0 {
        let q = Seq::<K::V>::empty();
        assert(q.to_set() =~= s);
        assert(ascending::<K>(q));
    } else {
        let m = lemma_last_exists::<K>(s);
        let rest = s.remove(m);
        lemma_sorted_exists::<K>(rest);
        let before = sorted::<K>(rest);
        let q = before.push(m);
        assert forall|i: int, j: int|
            #![trigger q[i], q[j]]
            0 <= i < j < q.len() implies K::before(q[i], q[j]) by {
            if j < before.len() {
                assert(K::before(before[i], before[j]));
            } else {
                assert(before.to_set().contains(before[i]));
            }
        }
        assert forall|k: K::V| q.to_set().contains(k) == s.contains(k) by {
            if q.contains(k) {
                let i = q.index_of(k);
                if i < before.len() {
                    assert(before.to_set().contains(before[i]));
                }
            }
            if s.contains(k) && k != m {
                assert(before.to_set().contains(k));
                let i = before.index_of(k);
                assert(q[i] == k);
            }
            assert(q[before.len() as int] == m);
        }
        assert(q.to_set() =~= s);
        assert(ascending::<K>(q));
    }
}

impl<K: OrdKey> View for OrdSet<K> {
    type V = Set<K::V>;

    closed spec fn view(&self) -> Set<K::V> {
        self.map@.dom()
    }
}

impl<K: OrdKey> DeepView for OrdSet<K> {
    type V = Set<K::V>;

    open spec fn deep_view(&self) -> Set<K::V> {
        self@
    }
}

impl<K: OrdKey> OrdSet<K> {
    /// The elements, in order.
    pub closed spec fn keys(&self) -> Seq<K::V> {
        self.map.keys()
    }

    /// Makes an empty set.
    pub fn new() -> (r: Self)
        ensures
            r@ == Set::<K::V>::empty(),
    {
        let r = OrdSet { map: OrdMap::new() };
        assert(r@ =~= Set::<K::V>::empty());
        r
    }

    /// Makes a set with one element.
    pub fn single(key: K) -> (r: Self)
        ensures
            r@ == Set::<K::V>::empty().insert(key.deep_view()),
    {
        let mut r = OrdSet::new();
        let _ = r.insert(key);
        r
    }

    /// The number of elements.
    pub fn len(&self) -> (n: usize)
        ensures
            n == self.keys().len(),
            n == self@.len(),
            self@.finite(),
            ascending::<K>(self.keys()),
            self.keys().to_set() == self@,
            self.keys() == sorted::<K>(self@),
    {
        let n = self.map.len();
        proof {
            assert(self.keys().to_set() =~= self@);
            let q = sorted::<K>(self@);
            lemma_ascending_determined::<K>(self.keys(), q);
            assert(self.keys().no_duplicates()) by {
                assert forall|i: int, j: int|
                    0 <= i < self.keys().len() && 0 <= j < self.keys().len() && i
                        != j implies self.keys()[i] != self.keys()[j] by {
                    K::before_irreflexive(self.keys()[i]);
                    if i < j {
                        assert(K::before(self.keys()[i], self.keys()[j]));
                    } else {
                        assert(K::before(self.keys()[j], self.keys()[i]));
                    }
                }
            }
            self.keys().unique_seq_to_set();
            vstd::seq_lib::seq_to_set_is_finite(self.keys());
        }
        n
    }

    /// Whether there is no element.
    pub fn is_empty(&self) -> (r: bool)
        ensures
            r == (self@ == Set::<K::V>::empty()),
    {
        let n = self.len();
        proof {
            if n == 0 {
                assert(self@ =~= Set::<K::V>::empty());
            } else {
                assert(self.keys().to_set().contains(self.keys()[0]));
            }
        }
        n == 0
    }

    /// The element at a position.
    pub fn item_at(&self, i: usize) -> (r: &K)
        requires
            i < self.keys().len(),
        ensures
            r.deep_view() == self.keys()[i as int],
    {
        self.map.key_at(i)
    }

    /// Whether a key is an element.
    pub fn contains(&self, key: &K) -> (r: bool)
        ensures
            r == self@.contains(key.deep_view()),
    {
        self.map.contains_key(key)
    }

    /// Adds a key; says whether it is new.
    pub fn insert(&mut self, key: K) -> (r: bool)
        ensures
            final(self)@ == old(self)@.insert(key.deep_view()),
            r == !old(self)@.contains(key.deep_view()),
    {
        let previous = self.map.insert(key, ());
        assert(self@ =~= old(self)@.insert(key.deep_view()));
        previous.is_none()
    }

    /// Takes a key out; says whether it was there.
    pub fn remove(&mut self, key: &K) -> (r: bool)
        ensures
            final(self)@ == old(self)@.remove(key.deep_view()),
            r == old(self)@.contains(key.deep_view()),
    {
        let previous = self.map.remove(key);
        assert(self@ =~= old(self)@.remove(key.deep_view()));
        previous.is_some()
    }

    /// Adds all elements of another set.
    pub fn add_all(&mut self, other: &OrdSet<K>)
        ensures
            final(self)@ == old(self)@.union(other@),
    {
        let n: usize = other.len();
        let mut i: usize = 0;
        let ghost keys = other.keys();
        assert(self@ =~= old(self)@.union(keys.take(0).to_set()));
        while i < n
            invariant
                i <= n == keys.len(),
                keys == other.keys(),
                self@ == old(self)@.union(keys.take(i as int).to_set()),
            decreases n - i,
        {
            let _ = self.insert(other.item_at(i).copy_key());
            proof {
                let (a, b) = (keys.take(i as int), keys.take(i + 1));
                assert(b =~= a.push(keys[i as int]));
                assert forall|k: K::V| b.to_set().contains(k) == a.to_set().insert(
                    keys[i as int],
                ).contains(k) by {
                    if b.contains(k) && k != keys[i as int] {
                        let m = b.index_of(k);
                        assert(a[m] == k);
                    }
                    if a.contains(k) {
                        let m = a.index_of(k);
                        assert(b[m] == k);
                    }
                    assert(b[i as int] == keys[i as int]);
                }
                assert(b.to_set() =~= a.to_set().insert(keys[i as int]));
                assert(self@ =~= old(self)@.union(b.to_set()));
            }
            i = i + 1;
        }
        assert(keys.take(n as int) =~= keys);
    }

    /// Copies a set.
    pub fn copy(&self) -> (r: Self)
        ensures
            r@ == self@,
    {
        let mut r: OrdSet<K> = OrdSet::new();
        r.add_all(self);
        assert(r@ =~= self@);
        r
    }
}

impl<K: OrdKey> Duplicate for OrdSet<K> {
    fn duplicate(&self) -> (r: OrdSet<K>) {
        self.copy()
    }
}

} // verus!
