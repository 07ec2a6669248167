//! An ordered map on a sorted vector, with a mathematical map as its model.

use vstd::prelude::*;

verus! {

/// The outcome of comparing two keys.
#[derive(Debug, Clone, Copy, PartialEq, Eq, Structural)]
pub enum Order {
    Less,
    Equal,
    Greater,
}

/// Keys of an ordered map: a strict total order on the deep views, and a
/// comparison that decides it.
pub trait OrdKey: DeepView + Sized {
    /// Whether `a` comes strictly before `b`.
    spec fn before(a: Self::V, b: Self::V) -> bool;

    /// Nothing comes before itself.
    proof fn before_irreflexive(a: Self::V)
        ensures
            !Self::before(a, a),
    ;

    /// The order is transitive.
    proof fn before_transitive(a: Self::V, b: Self::V, c: Self::V)
        requires
            Self::before(a, b),
            Self::before(b, c),
        ensures
            Self::before(a, c),
    ;

    /// Two different keys are ordered one way or the other.
    proof fn before_total(a: Self::V, b: Self::V)
        ensures
            a == b || Self::before(a, b) || Self::before(b, a),
    ;

    /// Compares two keys.
    fn compare(&self, other: &Self) -> (r: Order)
        ensures
            r == Order::Less <==> Self::before(self.deep_view(), other.deep_view()),
            r == Order::Equal <==> self.deep_view() == other.deep_view(),
            r == Order::Greater <==> Self::before(other.deep_view(), self.deep_view()),
    ;

    /// Copies a key.
    fn copy_key(&self) -> (r: Self)
        ensures
            r.deep_view() == self.deep_view(),
    ;
}

/// Whether a sequence of keys is strictly ascending.
pub open spec fn ascending<K: OrdKey>(keys: Seq<K::V>) -> bool {
    forall|i: int, j: int|
        #![trigger keys[i], keys[j]]
        0 <= i < j < keys.len() ==> K::before(keys[i], keys[j])
}

/// A map kept as a vector of keys in strictly ascending order, with their values beside
/// them.
pub struct OrdMap<K: OrdKey, V: DeepView> {
    names: Vec<K>,
    items: Vec<V>,
}

/// The map that pairs each key with the value at its position.
pub open spec fn zip_map<A, B>(keys: Seq<A>, values: Seq<B>) -> Map<A, B> {
    Map::new(|k: A| keys.contains(k), |k: A| values[keys.index_of(k)])
}

pub proof fn lemma_ascending_unique<K: OrdKey>(keys: Seq<K::V>)
    requires
        ascending::<K>(keys),
    ensures
        forall|i: int|
            #![trigger keys[i]]
            0 <= i < keys.len() ==> keys.contains(keys[i]) && keys.index_of(keys[i]) == i,
{
    assert forall|i: int| #![trigger keys[i]] 0 <= i < keys.len() implies keys.contains(keys[i])
        && keys.index_of(keys[i]) == i by {
        let j = keys.index_of(keys[i]);
        assert(0 <= j < keys.len() && keys[j] == keys[i]);
        if j < i {
            K::before_irreflexive(keys[i]);
        } else if i < j {
            K::before_irreflexive(keys[i]);
        }
    }
}

proof fn lemma_zip_update<K: OrdKey, V: DeepView>(
    keys: Seq<K::V>,
    before: Seq<V>,
    at: int,
    x: V,
    items: Vec<V>,
)
    requires
        ascending::<K>(keys),
        keys.len() == before.len(),
        0 <= at < keys.len(),
        items@ == before.update(at, x),
    ensures
        zip_map(keys, items.deep_view()) == zip_map(
            keys,
            Seq::new(before.len(), |i: int| before[i].deep_view()),
        ).insert(keys[at], x.deep_view()),
{
    lemma_ascending_unique::<K>(keys);
    let new = zip_map(keys, items.deep_view());
    let old_map = zip_map(keys, Seq::new(before.len(), |i: int| before[i].deep_view()));
    assert forall|k: K::V| #[trigger] new.dom().contains(k) implies new[k] == old_map.insert(
        keys[at],
        x.deep_view(),
    )[k] by {
        let i = keys.index_of(k);
        assert(keys[i] == k);
    }
    assert(new =~= old_map.insert(keys[at], x.deep_view()));
}

impl<K: OrdKey, V: DeepView> View for OrdMap<K, V> {
    type V = Map<K::V, V::V>;

    open spec fn view(&self) -> Map<K::V, V::V> {
        zip_map(self.keys(), self.values())
    }
}

impl<K: OrdKey, V: DeepView> DeepView for OrdMap<K, V> {
    type V = Map<K::V, V::V>;

    open spec fn deep_view(&self) -> Map<K::V, V::V> {
        self@
    }
}

impl<K: OrdKey, V: DeepView> OrdMap<K, V> {
    /// The keys, in order.
    pub closed spec fn keys(&self) -> Seq<K::V> {
        self.names.deep_view()
    }

    /// The values, each at the position of its key.
    pub closed spec fn values(&self) -> Seq<V::V> {
        self.items.deep_view()
    }

    /// What every map satisfies: the keys are strictly ascending and each has one value.
    pub open spec fn ordered(&self) -> bool {
        &&& ascending::<K>(self.keys())
        &&& self.keys().len() == self.values().len()
    }

    #[verifier::type_invariant]
    spec fn well_formed(self) -> bool {
        ascending::<K>(self.names.deep_view()) && self.names@.len() == self.items@.len()
    }

    /// Makes an empty map.
    pub fn new() -> (r: Self)
        ensures
            r@ == Map::<K::V, V::V>::empty(),
            r.keys() == Seq::<K::V>::empty(),
            r.ordered(),
    {
        let r = OrdMap { names: Vec::new(), items: Vec::new() };
        assert(r.keys() =~= Seq::<K::V>::empty());
        assert(r@ =~= Map::<K::V, V::V>::empty());
        r
    }

    /// The number of keys.
    pub fn len(&self) -> (n: usize)
        ensures
            n == self.keys().len(),
            n == self.values().len(),
            self.ordered(),
            forall|i: int|
                #![trigger self.keys()[i]]
                0 <= i < n ==> self@.dom().contains(self.keys()[i]) && self@[self.keys()[i]]
                    == self.values()[i],
            forall|k: K::V| #[trigger] self@.dom().contains(k) <==> self.keys().contains(k),
            self@.dom().finite(),
            self@.dom().len() == n,
    {
        proof {
            use_type_invariant(self);
            lemma_ascending_unique::<K>(self.keys());
            assert(self@.dom() =~= self.keys().to_set());
            assert(self.keys().no_duplicates());
            self.keys().unique_seq_to_set();
            vstd::seq_lib::seq_to_set_is_finite(self.keys());
        }
        self.names.len()
    }

    /// The key at a position.
    pub fn key_at(&self, i: usize) -> (r: &K)
        requires
            i < self.keys().len(),
        ensures
            r.deep_view() == self.keys()[i as int],
    {
        &self.names[i]
    }

    /// The value at a position.
    pub fn value_at(&self, i: usize) -> (r: &V)
        requires
            i < self.keys().len(),
        ensures
            r.deep_view() == self.values()[i as int],
            self@.dom().contains(self.keys()[i as int]),
            r.deep_view() == self@[self.keys()[i as int]],
    {
        proof {
            use_type_invariant(self);
            lemma_ascending_unique::<K>(self.keys());
        }
        &self.items[i]
    }

    /// The number of keys that come before `key`, and whether the next one equals it.
    fn search(&self, key: &K) -> (r: (usize, bool))
        ensures
            r.0 <= self.names@.len(),
            forall|i: int|
                #![trigger self.names@[i]]
                0 <= i < r.0 ==> K::before(self.names@[i].deep_view(), key.deep_view()),
            forall|i: int|
                #![trigger self.names@[i]]
                r.0 <= i < self.names@.len() && !(i == r.0 && r.1) ==> K::before(
                    key.deep_view(),
                    self.names@[i].deep_view(),
                ),
            r.1 ==> r.0 < self.names@.len() && self.names@[r.0 as int].deep_view()
                == key.deep_view(),
    {
        proof {
            use_type_invariant(self);
        }
        let ghost keys = self.names.deep_view();
        let ghost k = key.deep_view();
        let mut low: usize = 0;
        let mut high: usize = self.names.len();
        while low < high
            invariant
                low <= high <= self.names@.len(),
                keys == self.names.deep_view(),
                ascending::<K>(keys),
                k == key.deep_view(),
                forall|i: int| #![trigger self.names@[i]]
                    0 <= i < low ==> K::before(self.names@[i].deep_view(), k),
                forall|i: int| #![trigger self.names@[i]]
                    high <= i < self.names@.len() ==> K::before(k, self.names@[i].deep_view()),
            decreases high - low,
        {
            let middle: usize = low + (high - low) / 2;
            let ghost m = keys[middle as int];
            match self.names[middle].compare(key) {
                Order::Less => {
                    assert forall|i: int| #![trigger self.names@[i]] 0 <= i < middle + 1 implies
                        K::before(self.names@[i].deep_view(), k) by {
                        if low <= i < middle {
                            assert(K::before(keys[i], m));
                            K::before_transitive(keys[i], m, k);
                        }
                    }
                    low = middle + 1;
                },
                Order::Greater => {
                    assert forall|i: int| #![trigger self.names@[i]]
                        middle <= i < self.names@.len() implies K::before(
                        k,
                        self.names@[i].deep_view(),
                    ) by {
                        if middle < i < high {
                            assert(K::before(m, keys[i]));
                            K::before_transitive(k, m, keys[i]);
                        }
                    }
                    high = middle;
                },
                Order::Equal => {
                    assert forall|i: int| #![trigger self.names@[i]] 0 <= i < middle implies
                        K::before(self.names@[i].deep_view(), k) by {
                        assert(K::before(keys[i], m));
                    }
                    assert forall|i: int| #![trigger self.names@[i]]
                        middle < i < self.names@.len() implies K::before(
                        k,
                        self.names@[i].deep_view(),
                    ) by {
                        assert(K::before(m, keys[i]));
                    }
                    return (middle, true);
                },
            }
        }
        (low, false)
    }

    proof fn lemma_absent(&self, at: int, k: K::V)
        requires
            0 <= at <= self.names@.len(),
            forall|i: int|
                #![trigger self.names@[i]]
                0 <= i < at ==> K::before(self.names@[i].deep_view(), k),
            forall|i: int|
                #![trigger self.names@[i]]
                at <= i < self.names@.len() ==> K::before(k, self.names@[i].deep_view()),
        ensures
            !self.keys().contains(k),
    {
        if self.keys().contains(k) {
            let j = self.keys().index_of(k);
            assert(self.names@[j].deep_view() == k);
            K::before_irreflexive(k);
        }
    }

    /// The value of a key, where it has one.
    pub fn get(&self, key: &K) -> (r: Option<&V>)
        ensures
            match r {
                Some(v) => self@.dom().contains(key.deep_view()) && v.deep_view()
                    == self@[key.deep_view()],
                None => !self@.dom().contains(key.deep_view()),
            },
    {
        let (at, found) = self.search(key);
        proof {
            use_type_invariant(self);
            lemma_ascending_unique::<K>(self.keys());
        }
        if found {
            assert(self.keys()[at as int] == key.deep_view());
            Some(&self.items[at])
        } else {
            proof {
                self.lemma_absent(at as int, key.deep_view());
            }
            None
        }
    }

    /// Whether a key has a value.
    pub fn contains_key(&self, key: &K) -> (r: bool)
        ensures
            r == self@.dom().contains(key.deep_view()),
    {
        self.get(key).is_some()
    }

    /// The value of a key for changing it in place.
    pub fn get_mut(&mut self, key: &K) -> (r: Option<&mut V>)
        ensures
            match r {
                Some(v) => {
                    &&& old(self)@.dom().contains(key.deep_view())
                    &&& v.deep_view() == old(self)@[key.deep_view()]
                    &&& final(self)@ == old(self)@.insert(key.deep_view(), final(v).deep_view())
                },
                None => !old(self)@.dom().contains(key.deep_view()) && final(self)@ == old(self)@,
            },
    {
        let (at, found) = self.search(key);
        proof {
            use_type_invariant(&*self);
            lemma_ascending_unique::<K>(self.keys());
        }
        if found {
            let ghost keys = self.keys();
            let ghost before = self.items@;
            let ghost model = self@;
            assert(keys[at as int] == key.deep_view());
            proof {
                assert forall|x: V, items: Vec<V>|
                    #![trigger before.update(at as int, x), items.deep_view()]
                    items@ == before.update(at as int, x) implies zip_map(keys, items.deep_view())
                    == model.insert(key.deep_view(), x.deep_view()) by {
                    lemma_zip_update::<K, V>(keys, before, at as int, x, items);
                }
            }
            Some(&mut self.items[at])
        } else {
            proof {
                self.lemma_absent(at as int, key.deep_view());
            }
            None
        }
    }

    /// Gives a key a value; hands back the value that it had.
    pub fn insert(&mut self, key: K, value: V) -> (r: Option<V>)
        ensures
            final(self)@ == old(self)@.insert(key.deep_view(), value.deep_view()),
            match r {
                Some(v) => old(self)@.dom().contains(key.deep_view()) && v.deep_view()
                    == old(self)@[key.deep_view()],
                None => !old(self)@.dom().contains(key.deep_view()),
            },
    {
        let (at, found) = self.search(&key);
        proof {
            use_type_invariant(&*self);
            lemma_ascending_unique::<K>(self.keys());
        }
        let ghost k = key.deep_view();
        let ghost v = value.deep_view();
        let ghost before = self.names@;
        let ghost keys = self.keys();
        let mut taken: OrdMap<K, V> = OrdMap::new();
        std::mem::swap(&mut taken, self);
        let OrdMap { mut names, mut items } = taken;
        if found {
            assert(keys[at as int] == k);
            let previous = items.remove(at);
            items.insert(at, value);
            *self = OrdMap { names, items };
            proof {
                assert forall|x: K::V| #[trigger] self@.dom().contains(x) implies self@[x]
                    == old(self)@.insert(k, v)[x] by {
                    let i = keys.index_of(x);
                    assert(keys[i] == x);
                    if x != k {
                        assert(i != at);
                    }
                }
                assert(self@ =~= old(self)@.insert(k, v));
            }
            Some(previous)
        } else {
            proof {
                old(self).lemma_absent(at as int, k);
            }
            names.insert(at, key);
            items.insert(at, value);
            let ghost new_keys = names.deep_view();
            proof {
                assert forall|i: int, j: int|
                    #![trigger new_keys[i], new_keys[j]]
                    0 <= i < j < new_keys.len() implies K::before(new_keys[i], new_keys[j]) by {
                    if i < at {
                        assert(new_keys[i] == keys[i]);
                    } else if i > at {
                        assert(new_keys[i] == keys[i - 1]);
                    }
                    if j < at {
                        assert(new_keys[j] == keys[j]);
                    } else if j > at {
                        assert(new_keys[j] == keys[j - 1]);
                    }
                    if i == at {
                        assert(K::before(k, before[j - 1].deep_view()));
                    } else if j == at {
                        assert(K::before(before[i].deep_view(), k));
                    }
                }
            }
            *self = OrdMap { names, items };
            proof {
                lemma_ascending_unique::<K>(new_keys);
                assert(self.keys() == new_keys);
                assert forall|x: K::V| #[trigger] self@.dom().contains(x) == old(self)@.insert(
                    k,
                    v,
                ).dom().contains(x) by {
                    if new_keys.contains(x) && x != k {
                        let i = new_keys.index_of(x);
                        if i < at {
                            assert(keys[i] == x);
                        } else {
                            assert(i != at);
                            assert(keys[i - 1] == x);
                        }
                    }
                    if keys.contains(x) {
                        let i = keys.index_of(x);
                        if i < at {
                            assert(new_keys[i] == x);
                        } else {
                            assert(new_keys[i + 1] == x);
                        }
                    }
                    assert(new_keys[at as int] == k);
                }
                assert forall|x: K::V| #[trigger] self@.dom().contains(x) implies self@[x]
                    == old(self)@.insert(k, v)[x] by {
                    let i = new_keys.index_of(x);
                    assert(new_keys[i] == x);
                    if i < at {
                        assert(keys[i] == x);
                    } else if i > at {
                        assert(keys[i - 1] == x);
                    }
                }
                assert(self@ =~= old(self)@.insert(k, v));
            }
            None
        }
    }

    /// Takes a key out of the map, with its value.
    pub fn remove(&mut self, key: &K) -> (r: Option<V>)
        ensures
            final(self)@ == old(self)@.remove(key.deep_view()),
            match r {
                Some(v) => old(self)@.dom().contains(key.deep_view()) && v.deep_view()
                    == old(self)@[key.deep_view()],
                None => !old(self)@.dom().contains(key.deep_view()),
            },
    {
        let (at, found) = self.search(key);
        proof {
            use_type_invariant(&*self);
            lemma_ascending_unique::<K>(self.keys());
        }
        let ghost k = key.deep_view();
        let ghost keys = self.keys();
        if !found {
            proof {
                self.lemma_absent(at as int, k);
                assert(self@ =~= self@.remove(k));
            }
            return None;
        }
        assert(keys[at as int] == k);
        let mut taken: OrdMap<K, V> = OrdMap::new();
        std::mem::swap(&mut taken, self);
        let OrdMap { mut names, mut items } = taken;
        let _ = names.remove(at);
        let removed = items.remove(at);
        let ghost new_keys = names.deep_view();
        proof {
            assert forall|i: int|
                0 <= i < new_keys.len() implies #[trigger] new_keys[i] == if i < at {
                keys[i]
            } else {
                keys[i + 1]
            } by {}
            assert(ascending::<K>(new_keys));
        }
        *self = OrdMap { names, items };
        proof {
            lemma_ascending_unique::<K>(new_keys);
            assert forall|x: K::V| #[trigger] self@.dom().contains(x) == old(self)@.remove(
                k,
            ).dom().contains(x) by {
                if new_keys.contains(x) {
                    let i = new_keys.index_of(x);
                    if i < at {
                        assert(keys[i] == x);
                    } else {
                        assert(keys[i + 1] == x);
                    }
                }
                if keys.contains(x) && x != k {
                    let i = keys.index_of(x);
                    if i < at {
                        assert(new_keys[i] == x);
                    } else {
                        assert(i != at);
                        assert(new_keys[i - 1] == x);
                    }
                }
            }
            assert forall|x: K::V| #[trigger] self@.dom().contains(x) implies self@[x] == old(
                self,
            )@.remove(k)[x] by {
                let i = new_keys.index_of(x);
                assert(new_keys[i] == x);
                if i < at {
                    assert(keys[i] == x);
                } else {
                    assert(keys[i + 1] == x);
                }
            }
            assert(self@ =~= old(self)@.remove(k));
        }
        Some(removed)
    }
}

/// A value that can be copied.
pub trait Duplicate: DeepView + Sized {
    /// Copies the value.
    fn duplicate(&self) -> (r: Self)
        ensures
            r.deep_view() == self.deep_view(),
    ;
}

impl Duplicate for u64 {
    fn duplicate(&self) -> (r: u64) {
        *self
    }
}

impl<T: Duplicate> Duplicate for Vec<T> {
    fn duplicate(&self) -> (r: Vec<T>) {
        let mut r: Vec<T> = Vec::new();
        let mut i: usize = 0;
        while i < self.len()
            invariant
                i <= self@.len(),
                r@.len() == i,
                forall|k: int|
                    0 <= k < i ==> (#[trigger] r@[k]).deep_view() == self@[k].deep_view(),
            decreases self@.len() - i,
        {
            r.push(self[i].duplicate());
            i = i + 1;
        }
        assert(r.deep_view() =~= self.deep_view());
        r
    }
}

impl<K: OrdKey, V: Duplicate> Duplicate for OrdMap<K, V> {
    fn duplicate(&self) -> (r: OrdMap<K, V>) {
        proof {
            use_type_invariant(self);
        }
        let mut names: Vec<K> = Vec::new();
        let mut items: Vec<V> = Vec::new();
        let total: usize = self.names.len();
        let mut i: usize = 0;
        while i < total
            invariant
                i <= total,
                total == self.names@.len() == self.items@.len(),
                names@.len() == i,
                items@.len() == i,
                forall|k: int|
                    0 <= k < i ==> (#[trigger] names@[k]).deep_view() == self.names@[k].deep_view(),
                forall|k: int|
                    0 <= k < i ==> (#[trigger] items@[k]).deep_view() == self.items@[k].deep_view(),
            decreases total - i,
        {
            names.push(self.names[i].copy_key());
            items.push(self.items[i].duplicate());
            i = i + 1;
        }
        assert(names.deep_view() =~= self.names.deep_view());
        assert(items.deep_view() =~= self.items.deep_view());
        OrdMap { names, items }
    }
}

impl OrdKey for u64 {
    open spec fn before(a: u64, b: u64) -> bool {
        a < b
    }

    proof fn before_irreflexive(a: u64) {
    }

    proof fn before_transitive(a: u64, b: u64, c: u64) {
    }

    proof fn before_total(a: u64, b: u64) {
    }

    fn compare(&self, other: &Self) -> (r: Order) {
        if *self < *other {
            Order::Less
        } else if *self == *other {
            Order::Equal
        } else {
            Order::Greater
        }
    }

    fn copy_key(&self) -> (r: Self) {
        *self
    }
}

} // verus!
