//! Maps of maps.

use vstd::prelude::*;

use crate::common::ordmap::OrdMap;

verus! {

/// The map under a name.
pub open spec fn under<V>(m: Map<Seq<char>, Map<Seq<char>, V>>, table: Seq<char>) -> Map<
    Seq<char>,
    V,
> {
    if m.dom().contains(table) {
        m[table]
    } else {
        Map::empty()
    }
}

/// A map of maps with a value put under two names.
pub open spec fn put<V>(
    m: Map<Seq<char>, Map<Seq<char>, V>>,
    table: Seq<char>,
    name: Seq<char>,
    value: V,
) -> Map<Seq<char>, Map<Seq<char>, V>> {
    m.insert(table, under(m, table).insert(name, value))
}

/// Puts a value under two names.
pub fn put_under<V: DeepView>(
    m: &mut OrdMap<String, OrdMap<String, V>>,
    table: &String,
    name: String,
    value: V,
)
    ensures
        final(m)@ == put(old(m)@, table@, name@, value.deep_view()),
{
    if m.contains_key(table) {
        match m.get_mut(table) {
            Some(inner) => {
                inner.insert(name, value);
            },
            None => {},
        }
    } else {
        let mut inner: OrdMap<String, V> = OrdMap::new();
        inner.insert(name, value);
        m.insert(table.clone(), inner);
    }
}

} // verus!
