//! A map on an unordered vector, for keys that can only be told apart.

use vstd::prelude::*;

use crate::common::ordmap::{zip_map, Duplicate};

verus! {

/// Keys that can be compared for equality.
pub trait EqKey: DeepView + Sized {
    /// Whether two keys are the same.
    fn same_key(&self, other: &Self) -> (r: bool)
        ensures
            r == (self.deep_view() == other.deep_view()),
    ;
}

/// A map kept as a vector of distinct keys, with their values beside them.
pub struct AssocMap<K: EqKey, V: DeepView> {
    names: Vec<K>,
    items: Vec<V>,
}

/// Whether no key stands twice.
pub open spec fn distinct<A>(keys: Seq<A>) -> bool {
    forall|i: int, j: int|
        #![trigger keys[i], keys[j]]
        0 <= i < j < keys.len() ==> keys[i] != keys[j]
}

proof fn lemma_distinct_unique<A>(keys: Seq<A>)
    requires
        distinct(keys),
    ensures
        forall|i: int|
            #![trigger keys[i]]
            0 <= i < keys.len() ==> keys.contains(keys[i]) && keys.index_of(keys[i]) == i,
{
    assert forall|i: int| #![trigger keys[i]] 0 <= i < keys.len() implies keys.contains(keys[i])
        && keys.index_of(keys[i]) == i by {
        let j = keys.index_of(keys[i]);
        assert(0 <= j < keys.len() && keys[j] == keys[i]);
    }
}

proof fn lemma_assoc_update<A, V: DeepView>(
    keys: Seq<A>,
    before: Seq<V>,
    at: int,
    x: V,
    items: Vec<V>,
)
    requires
        distinct(keys),
        keys.len() == before.len(),
        0 <= at < keys.len(),
        items@ == before.update(at, x),
    ensures
        zip_map(keys, items.deep_view()) == zip_map(
            keys,
            Seq::new(before.len(), |i: int| before[i].deep_view()),
        ).insert(keys[at], x.deep_view()),
{
    lemma_distinct_unique(keys);
    let new = zip_map(keys, items.deep_view());
    let old_map = zip_map(keys, Seq::new(before.len(), |i: int| before[i].deep_view()));
    assert forall|k: A| #[trigger] new.dom().contains(k) implies new[k] == old_map.insert(
        keys[at],
        x.deep_view(),
    )[k] by {
        let i = keys.index_of(k);
        assert(keys[i] == k);
    }
    assert(new =~= old_map.insert(keys[at], x.deep_view()));
}

impl<K: EqKey, V: DeepView> View for AssocMap<K, V> {
    type V = Map<K::V, V::V>;

    open spec fn view(&self) -> Map<K::V, V::V> {
        zip_map(self.keys(), self.values())
    }
}

impl<K: EqKey, V: DeepView> DeepView for AssocMap<K, V> {
    type V = Map<K::V, V::V>;

    open spec fn deep_view(&self) -> Map<K::V, V::V> {
        self@
    }
}

impl<K: EqKey, V: DeepView> AssocMap<K, V> {
    /// The keys, in the order in which they came.
    pub closed spec fn keys(&self) -> Seq<K::V> {
        self.names.deep_view()
    }

    /// The values, each at the position of its key.
    pub closed spec fn values(&self) -> Seq<V::V> {
        self.items.deep_view()
    }

    #[verifier::type_invariant]
    spec fn well_formed(self) -> bool {
        distinct(self.names.deep_view()) && self.names@.len() == self.items@.len()
    }

    /// Makes an empty map.
    pub fn new() -> (r: Self)
        ensures
            r@ == Map::<K::V, V::V>::empty(),
    {
        let r = AssocMap { names: Vec::new(), items: Vec::new() };
        assert(r.keys() =~= Seq::<K::V>::empty());
        assert(r@ =~= Map::<K::V, V::V>::empty());
        r
    }

    /// Where a key stands.
    fn position(&self, key: &K) -> (r: Option<usize>)
        ensures
            match r {
                Some(i) => i < self.names@.len() && self.names.deep_view()[i as int]
                    == key.deep_view(),
                None => !self.names.deep_view().contains(key.deep_view()),
            },
    {
        let mut i: usize = 0;
        while i < self.names.len()
            invariant
                i <= self.names@.len(),
                forall|j: int|
                    0 <= j < i ==> (#[trigger] self.names@[j]).deep_view() != key.deep_view(),
            decreases self.names@.len() - i,
        {
            if self.names[i].same_key(key) {
                return Some(i);
            }
            i = i + 1;
        }
        None
    }

    /// The value of a key, where it has one.
    pub fn get(&self, key: &K) -> (r: Option<&V>)
        ensures
            match r {
                Some(v) => self@.dom().contains(key.deep_view()) && v.deep_view()
                    == self@[key.deep_view()],
                None => !self@.dom().contains(key.deep_view()),
            },
    {
        proof {
            use_type_invariant(self);
            lemma_distinct_unique(self.keys());
        }
        match self.position(key) {
            Some(at) => {
                assert(self.keys()[at as int] == key.deep_view());
                Some(&self.items[at])
            },
            None => None,
        }
    }

    /// The value of a key for changing it in place.
    pub fn get_mut(&mut self, key: &K) -> (r: Option<&mut V>)
        ensures
            match r {
                Some(v) => {
                    &&& old(self)@.dom().contains(key.deep_view())
                    &&& v.deep_view() == old(self)@[key.deep_view()]
                    &&& final(self)@ == old(self)@.insert(key.deep_view(), final(v).deep_view())
                },
                None => !old(self)@.dom().contains(key.deep_view()) && final(self)@ == old(self)@,
            },
    {
        proof {
            use_type_invariant(&*self);
            lemma_distinct_unique(self.keys());
        }
        match self.position(key) {
            Some(at) => {
                let ghost keys = self.keys();
                let ghost before = self.items@;
                let ghost model = self@;
                assert(keys[at as int] == key.deep_view());
                proof {
                    assert forall|x: V, items: Vec<V>|
                        #![trigger before.update(at as int, x), items.deep_view()]
                        items@ == before.update(at as int, x) implies zip_map(
                        keys,
                        items.deep_view(),
                    ) == model.insert(key.deep_view(), x.deep_view()) by {
                        lemma_assoc_update::<K::V, V>(keys, before, at as int, x, items);
                    }
                }
                Some(&mut self.items[at])
            },
            None => None,
        }
    }

    /// Gives a new key a value.
    pub fn insert_new(&mut self, key: K, value: V)
        requires
            !old(self)@.dom().contains(key.deep_view()),
        ensures
            final(self)@ == old(self)@.insert(key.deep_view(), value.deep_view()),
    {
        proof {
            use_type_invariant(&*self);
        }
        let ghost keys = self.keys();
        let ghost k = key.deep_view();
        let ghost v = value.deep_view();
        let mut taken: AssocMap<K, V> = AssocMap::new();
        std::mem::swap(&mut taken, self);
        let AssocMap { mut names, mut items } = taken;
        names.push(key);
        items.push(value);
        let ghost new_keys = names.deep_view();
        proof {
            assert(new_keys =~= keys.push(k));
            assert forall|i: int, j: int|
                #![trigger new_keys[i], new_keys[j]]
                0 <= i < j < new_keys.len() implies new_keys[i] != new_keys[j] by {
                if j < keys.len() {
                    assert(keys[i] != keys[j]);
                } else {
                    assert(keys.contains(keys[i]));
                }
            }
        }
        *self = AssocMap { names, items };
        proof {
            lemma_distinct_unique(keys);
            lemma_distinct_unique(new_keys);
            let n = keys.len() as int;
            assert(new_keys[n] == k);
            assert forall|x: K::V| #[trigger] self@.dom().contains(x) == old(self)@.insert(
                k,
                v,
            ).dom().contains(x) by {
                if new_keys.contains(x) && x != k {
                    let i = new_keys.index_of(x);
                    assert(keys[i] == x);
                }
                if keys.contains(x) {
                    let i = keys.index_of(x);
                    assert(new_keys[i] == x);
                }
            }
            assert forall|x: K::V| #[trigger] self@.dom().contains(x) implies self@[x] == old(
                self,
            )@.insert(k, v)[x] by {
                let i = new_keys.index_of(x);
                assert(new_keys[i] == x);
                if i < n {
                    assert(keys[i] == x);
                }
            }
            assert(self@ =~= old(self)@.insert(k, v));
        }
    }

    /// Takes a key out of the map.
    pub fn remove(&mut self, key: &K) -> (r: Option<V>)
        ensures
            final(self)@ == old(self)@.remove(key.deep_view()),
            match r {
                Some(v) => old(self)@.dom().contains(key.deep_view()) && v.deep_view()
                    == old(self)@[key.deep_view()],
                None => !old(self)@.dom().contains(key.deep_view()),
            },
    {
        proof {
            use_type_invariant(&*self);
            lemma_distinct_unique(self.keys());
        }
        let ghost keys = self.keys();
        let ghost k = key.deep_view();
        match self.position(key) {
            None => {
                assert(self@ =~= self@.remove(k));
                None
            },
            Some(at) => {
                assert(keys[at as int] == k);
                let mut taken: AssocMap<K, V> = AssocMap::new();
                std::mem::swap(&mut taken, self);
                let AssocMap { mut names, mut items } = taken;
                let _ = names.remove(at);
                let removed = items.remove(at);
                let ghost new_keys = names.deep_view();
                proof {
                    assert forall|i: int|
                        0 <= i < new_keys.len() implies #[trigger] new_keys[i] == if i < at {
                        keys[i]
                    } else {
                        keys[i + 1]
                    } by {}
                    assert(distinct(new_keys));
                }
                *self = AssocMap { names, items };
                proof {
                    lemma_distinct_unique(new_keys);
                    assert forall|x: K::V| #[trigger] self@.dom().contains(x) == old(self)@.remove(
                        k,
                    ).dom().contains(x) by {
                        if new_keys.contains(x) {
                            let i = new_keys.index_of(x);
                            if i < at {
                                assert(keys[i] == x);
                            } else {
                                assert(keys[i + 1] == x);
                            }
                        }
                        if keys.contains(x) && x != k {
                            let i = keys.index_of(x);
                            if i < at {
                                assert(new_keys[i] == x);
                            } else {
                                assert(i != at);
                                assert(new_keys[i - 1] == x);
                            }
                        }
                    }
                    assert forall|x: K::V| #[trigger] self@.dom().contains(x) implies self@[x]
                        == old(self)@.remove(k)[x] by {
                        let i = new_keys.index_of(x);
                        assert(new_keys[i] == x);
                        if i < at {
                            assert(keys[i] == x);
                        } else {
                            assert(keys[i + 1] == x);
                        }
                    }
                    assert(self@ =~= old(self)@.remove(k));
                }
                Some(removed)
            },
        }
    }

    /// The number of keys.
    pub fn len(&self) -> (n: usize)
        ensures
            n == self.keys().len(),
            n == self.values().len(),
            distinct(self.keys()),
            forall|i: int|
                #![trigger self.keys()[i]]
                0 <= i < n ==> self@.dom().contains(self.keys()[i]) && self@[self.keys()[i]]
                    == self.values()[i],
            forall|k: K::V| #[trigger] self@.dom().contains(k) <==> self.keys().contains(k),
    {
        proof {
            use_type_invariant(self);
            lemma_distinct_unique(self.keys());
        }
        self.names.len()
    }

    /// The key at a position.
    pub fn key_at(&self, i: usize) -> (r: &K)
        requires
            i < self.keys().len(),
        ensures
            r.deep_view() == self.keys()[i as int],
    {
        &self.names[i]
    }

    /// The value at a position.
    pub fn value_at(&self, i: usize) -> (r: &V)
        requires
            i < self.keys().len(),
        ensures
            r.deep_view() == self.values()[i as int],
            self@.dom().contains(self.keys()[i as int]),
            r.deep_view() == self@[self.keys()[i as int]],
    {
        proof {
            use_type_invariant(self);
            lemma_distinct_unique(self.keys());
        }
        &self.items[i]
    }

    /// Takes the last key out of the map.
    pub fn pop(&mut self) -> (r: Option<(K, V)>)
        ensures
            match r {
                Some(e) => {
                    &&& old(self)@.dom().contains(e.0.deep_view())
                    &&& e.1.deep_view() == old(self)@[e.0.deep_view()]
                    &&& final(self)@ == old(self)@.remove(e.0.deep_view())
                    &&& final(self).keys().len() < old(self).keys().len()
                },
                None => old(self)@ == Map::<K::V, V::V>::empty() && final(self)@ == old(self)@,
            },
    {
        proof {
            use_type_invariant(&*self);
            lemma_distinct_unique(self.keys());
        }
        let ghost keys = self.keys();
        let mut taken: AssocMap<K, V> = AssocMap::new();
        std::mem::swap(&mut taken, self);
        let AssocMap { mut names, mut items } = taken;
        match (names.pop(), items.pop()) {
            (Some(key), Some(value)) => {
                let ghost k = key.deep_view();
                let ghost new_keys = names.deep_view();
                proof {
                    assert(new_keys =~= keys.drop_last());
                    assert(k == keys.last());
                    assert(distinct(new_keys));
                }
                *self = AssocMap { names, items };
                proof {
                    lemma_distinct_unique(new_keys);
                    assert forall|x: K::V| #[trigger] self@.dom().contains(x) == old(self)@.remove(
                        k,
                    ).dom().contains(x) by {
                        if new_keys.contains(x) {
                            let i = new_keys.index_of(x);
                            assert(keys[i] == x);
                        }
                        if keys.contains(x) && x != k {
                            let i = keys.index_of(x);
                            assert(new_keys[i] == x);
                        }
                    }
                    assert forall|x: K::V| #[trigger] self@.dom().contains(x) implies self@[x]
                        == old(self)@.remove(k)[x] by {
                        let i = new_keys.index_of(x);
                        assert(new_keys[i] == x);
                        assert(keys[i] == x);
                    }
                    assert(self@ =~= old(self)@.remove(k));
                }
                Some((key, value))
            },
            _ => {
                assert(old(self)@ =~= Map::<K::V, V::V>::empty());
                None
            },
        }
    }
}

impl<K: EqKey + Duplicate, V: Duplicate> Duplicate for AssocMap<K, V> {
    fn duplicate(&self) -> (r: AssocMap<K, V>) {
        proof {
            use_type_invariant(self);
        }
        let mut names: Vec<K> = Vec::new();
        let mut items: Vec<V> = Vec::new();
        let total: usize = self.names.len();
        let mut i: usize = 0;
        while i < total
            invariant
                i <= total,
                total == self.names@.len() == self.items@.len(),
                names@.len() == i,
                items@.len() == i,
                forall|k: int|
                    0 <= k < i ==> (#[trigger] names@[k]).deep_view() == self.names@[k].deep_view(),
                forall|k: int|
                    0 <= k < i ==> (#[trigger] items@[k]).deep_view() == self.items@[k].deep_view(),
            decreases total - i,
        {
            names.push(self.names[i].duplicate());
            items.push(self.items[i].duplicate());
            i = i + 1;
        }
        assert(names.deep_view() =~= self.names.deep_view());
        assert(items.deep_view() =~= self.items.deep_view());
        AssocMap { names, items }
    }
}

} // verus!
