//! Keeping indexes in step with the rows of their tables.

use vstd::prelude::*;

use crate::common::assoc::AssocMap;
use crate::common::error::{DbResult, ErrorView};
use crate::common::ordmap::{Duplicate, OrdMap};
use crate::common::ordset::{sorted, OrdSet};
use crate::common::schema::{IndexMeta, Schema};
use crate::common::value::{DbValue, Row, RowId};
use crate::v1::model::{
    entry_with, entry_without, gathered, gathered_from, is_taken, keys_free, keys_free_from,
    rebuilt_from, row_indexed_from, row_unindexed_from, with_entries, IndexStateView,
};
use crate::v1::state::{key_list, IndexState};
use crate::v2::codec::project_index_key;
use crate::v2::storage::fail_not_unique;

verus! {

/// Whether an outcome is the one that the model gives.
pub open spec fn outcome(r: DbResult<()>, model: Result<(), ErrorView>) -> bool {
    match r {
        Ok(_) => model == Ok::<(), ErrorView>(()),
        Err(e) => model == Err::<(), ErrorView>(e@),
    }
}

/// Puts a row under a key.
pub fn add_entry(entries: &mut AssocMap<Vec<DbValue>, OrdSet<RowId>>, key: Vec<DbValue>, id: RowId)
    ensures
        final(entries)@ == entry_with(old(entries)@, key.deep_view(), id),
{
    let known = entries.get(&key).is_some();
    if known {
        match entries.get_mut(&key) {
            Some(ids) => {
                ids.insert(id);
            },
            None => {},
        }
    } else {
        entries.insert_new(key, OrdSet::single(id));
    }
}

/// Takes a row from under a key.
pub fn remove_entry(
    entries: &mut AssocMap<Vec<DbValue>, OrdSet<RowId>>,
    key: &Vec<DbValue>,
    id: RowId,
)
    ensures
        final(entries)@ == entry_without(old(entries)@, key.deep_view(), id),
{
    let ghost start = entries@;
    match entries.remove(key) {
        Some(ids) => {
            let mut left = ids;
            left.remove(&id);
            if left.is_empty() {
                assert(entries@ =~= entry_without(start, key.deep_view(), id));
            } else {
                entries.insert_new(key.duplicate(), left);
                assert(entries@ =~= entry_without(start, key.deep_view(), id));
            }
        },
        None => {
            assert(entries@ =~= start);
        },
    }
}

fn has_other(ids: &OrdSet<RowId>, but: Option<RowId>) -> (r: bool)
    ensures
        r == (exists|id: RowId| #[trigger] ids@.contains(id) && but != Some(id)),
{
    let total: usize = ids.len();
    let ghost keys = ids.keys();
    let mut i: usize = 0;
    while i < total
        invariant
            i <= total,
            total == keys.len(),
            keys == ids.keys(),
            keys.to_set() == ids@,
            forall|k: int| 0 <= k < i ==> but == Some(#[trigger] keys[k]),
        decreases total - i,
    {
        let id: RowId = *ids.item_at(i);
        assert(keys.to_set().contains(keys[i as int]));
        let same = match but {
            Some(other) => other == id,
            None => false,
        };
        if !same {
            assert(ids@.contains(id) && but != Some(id));
            return true;
        }
        i = i + 1;
    }
    proof {
        assert forall|id: RowId| #[trigger] ids@.contains(id) implies but == Some(id) by {
            assert(keys.to_set().contains(id));
            let k = choose|k: int| 0 <= k < keys.len() && keys[k] == id;
            assert(but == Some(keys[k]));
        }
    }
    false
}

fn key_is_taken(
    meta: &IndexMeta,
    entries: &AssocMap<Vec<DbValue>, OrdSet<RowId>>,
    key: &Vec<DbValue>,
    but: Option<RowId>,
) -> (r: bool)
    ensures
        r == is_taken(
            IndexStateView { meta: meta@, entries: entries@ },
            key.deep_view(),
            but,
        ),
{
    if !meta.enforces_unique_key(key.as_slice()) {
        return false;
    }
    match entries.get(key) {
        None => false,
        Some(ids) => has_other(ids, but),
    }
}

/// Checks that a row can be in all indexes.
pub fn validate_unique_index_constraints(
    schema: &Schema,
    by_name: &OrdMap<String, IndexState>,
    row: &Row,
    but: Option<RowId>,
) -> (r: DbResult<()>)
    ensures
        outcome(r, keys_free(*schema, by_name@, row.deep_view(), but)),
{
    let names = key_list(by_name);
    let ghost all = names.deep_view();
    let ghost values = row.deep_view();
    let ghost whole = keys_free_from(*schema, by_name@, all, values, but, 0);
    let mut i: usize = 0;
    while i < names.len()
        invariant
            i <= names@.len(),
            all == names.deep_view(),
            all.to_set() == by_name@.dom(),
            values == row.deep_view(),
            whole == keys_free(*schema, by_name@, values, but),
            whole == keys_free_from(*schema, by_name@, all, values, but, i as int),
        decreases names@.len() - i,
    {
        assert(all[i as int] == names@[i as int]@);
        assert(all.to_set().contains(all[i as int]));
        match by_name.get(&names[i]) {
            Some(index) => {
                let key = project_index_key(schema, &index.meta, row)?;
                if key_is_taken(&index.meta, &index.entries, &key, but) {
                    return Err(fail_not_unique(index.meta.name.as_str()));
                }
            },
            None => {},
        }
        i = i + 1;
    }
    Ok(())
}

/// Puts a row into all indexes.
pub fn add_row_to_indexes(
    schema: &Schema,
    by_name: &mut OrdMap<String, IndexState>,
    id: RowId,
    row: &Row,
) -> (r: DbResult<()>)
    ensures
        ({
            let model = row_indexed_from(
                *schema,
                old(by_name)@,
                sorted::<String>(old(by_name)@.dom()),
                id,
                row.deep_view(),
                0,
            );
            &&& final(by_name)@ == model.0
            &&& outcome(r, model.1)
        }),
{
    let names = key_list(by_name);
    let ghost all = names.deep_view();
    let ghost values = row.deep_view();
    let ghost start = by_name@;
    let ghost whole = row_indexed_from(*schema, start, all, id, values, 0);
    let mut i: usize = 0;
    while i < names.len()
        invariant
            i <= names@.len(),
            all == names.deep_view(),
            all.to_set() == by_name@.dom(),
            start == old(by_name)@,
            all == sorted::<String>(start.dom()),
            values == row.deep_view(),
            whole == row_indexed_from(*schema, start, all, id, values, 0),
            whole == row_indexed_from(*schema, by_name@, all, id, values, i as int),
        decreases names@.len() - i,
    {
        assert(all[i as int] == names@[i as int]@);
        assert(all.to_set().contains(all[i as int]));
        let ghost before = by_name@;
        let key = match by_name.get(&names[i]) {
            Some(index) => {
                let key = project_index_key(schema, &index.meta, row)?;
                if key_is_taken(&index.meta, &index.entries, &key, None) {
                    return Err(fail_not_unique(index.meta.name.as_str()));
                }
                key
            },
            None => {
                return Ok(());
            },
        };
        let ghost k = key.deep_view();
        match by_name.get_mut(&names[i]) {
            Some(index) => {
                add_entry(&mut index.entries, key, id);
            },
            None => {},
        }
        assert(by_name@ =~= with_entries(
            before,
            all[i as int],
            entry_with(before[all[i as int]].entries, k, id),
        ));
        assert(by_name@.dom() =~= before.dom());
        i = i + 1;
    }
    Ok(())
}

/// Takes a row out of all indexes.
pub fn remove_row_from_indexes(
    schema: &Schema,
    by_name: &mut OrdMap<String, IndexState>,
    id: RowId,
    row: &Row,
) -> (r: DbResult<()>)
    ensures
        ({
            let model = row_unindexed_from(
                *schema,
                old(by_name)@,
                sorted::<String>(old(by_name)@.dom()),
                id,
                row.deep_view(),
                0,
            );
            &&& final(by_name)@ == model.0
            &&& outcome(r, model.1)
        }),
{
    let names = key_list(by_name);
    let ghost all = names.deep_view();
    let ghost values = row.deep_view();
    let ghost start = by_name@;
    let ghost whole = row_unindexed_from(*schema, start, all, id, values, 0);
    let mut i: usize = 0;
    while i < names.len()
        invariant
            i <= names@.len(),
            all == names.deep_view(),
            all.to_set() == by_name@.dom(),
            start == old(by_name)@,
            all == sorted::<String>(start.dom()),
            values == row.deep_view(),
            whole == row_unindexed_from(*schema, start, all, id, values, 0),
            whole == row_unindexed_from(*schema, by_name@, all, id, values, i as int),
        decreases names@.len() - i,
    {
        assert(all[i as int] == names@[i as int]@);
        assert(all.to_set().contains(all[i as int]));
        let ghost before = by_name@;
        let key = match by_name.get(&names[i]) {
            Some(index) => project_index_key(schema, &index.meta, row)?,
            None => {
                return Ok(());
            },
        };
        match by_name.get_mut(&names[i]) {
            Some(index) => {
                remove_entry(&mut index.entries, &key, id);
            },
            None => {},
        }
        assert(by_name@ =~= with_entries(
            before,
            all[i as int],
            entry_without(before[all[i as int]].entries, key.deep_view(), id),
        ));
        assert(by_name@.dom() =~= before.dom());
        i = i + 1;
    }
    Ok(())
}

/// The entries of an index over rows, and what went wrong, if anything.
pub fn gather_entries(
    schema: &Schema,
    meta: &IndexMeta,
    checked: bool,
    rows: &OrdMap<RowId, Row>,
) -> (r: (AssocMap<Vec<DbValue>, OrdSet<RowId>>, DbResult<()>))
    ensures
        ({
            let model = gathered(*schema, meta@, checked, rows@);
            &&& r.0@ == model.0
            &&& outcome(r.1, model.1)
        }),
{
    let ids = key_list(rows);
    let ghost all = ids.deep_view();
    let ghost whole = gathered(*schema, meta@, checked, rows@);
    let mut out: AssocMap<Vec<DbValue>, OrdSet<RowId>> = AssocMap::new();
    let mut i: usize = 0;
    while i < ids.len()
        invariant
            i <= ids@.len(),
            all == ids.deep_view(),
            all.to_set() == rows@.dom(),
            whole == gathered(*schema, meta@, checked, rows@),
            whole == gathered_from(*schema, meta@, checked, rows@, all, out@, i as int),
        decreases ids@.len() - i,
    {
        assert(all[i as int] == ids@[i as int]);
        assert(all.to_set().contains(all[i as int]));
        match rows.get(&ids[i]) {
            Some(row) => {
                let key = match project_index_key(schema, meta, row) {
                    Ok(key) => key,
                    Err(e) => {
                        return (out, Err(e));
                    },
                };
                if checked && key_is_taken(meta, &out, &key, None) {
                    return (out, Err(fail_not_unique(meta.name.as_str())));
                }
                add_entry(&mut out, key, ids[i]);
            },
            None => {},
        }
        i = i + 1;
    }
    (out, Ok(()))
}

/// Makes all indexes anew over rows.
pub fn rebuild_indexes_for_schema(
    schema: &Schema,
    by_name: &mut OrdMap<String, IndexState>,
    rows: &OrdMap<RowId, Row>,
) -> (r: DbResult<()>)
    ensures
        ({
            let model = rebuilt_from(
                *schema,
                old(by_name)@,
                sorted::<String>(old(by_name)@.dom()),
                rows@,
                0,
            );
            &&& final(by_name)@ == model.0
            &&& outcome(r, model.1)
        }),
{
    let names = key_list(by_name);
    let ghost all = names.deep_view();
    let ghost start = by_name@;
    let ghost whole = rebuilt_from(*schema, start, all, rows@, 0);
    let mut i: usize = 0;
    while i < names.len()
        invariant
            i <= names@.len(),
            all == names.deep_view(),
            all.to_set() == by_name@.dom(),
            start == old(by_name)@,
            all == sorted::<String>(start.dom()),
            whole == rebuilt_from(*schema, start, all, rows@, 0),
            whole == rebuilt_from(*schema, by_name@, all, rows@, i as int),
        decreases names@.len() - i,
    {
        assert(all[i as int] == names@[i as int]@);
        assert(all.to_set().contains(all[i as int]));
        let ghost before = by_name@;
        let gathered_now = match by_name.get(&names[i]) {
            Some(index) => gather_entries(schema, &index.meta, false, rows),
            None => {
                return Ok(());
            },
        };
        let (entries, r) = gathered_now;
        let ghost e = entries@;
        match by_name.get_mut(&names[i]) {
            Some(index) => {
                index.entries = entries;
            },
            None => {},
        }
        assert(by_name@ =~= with_entries(before, all[i as int], e));
        assert(by_name@.dom() =~= before.dom());
        match r {
            Ok(_) => {},
            Err(e) => {
                return Err(e);
            },
        }
        i = i + 1;
    }
    Ok(())
}

} // verus!
