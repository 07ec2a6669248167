//! Searching indexes.

use vstd::prelude::*;

use crate::common::error::{storage, DbError, DbResult, ErrorView};
use crate::common::ordset::{sorted, OrdSet};
use crate::common::text::{nat_text, u64_text};
use crate::common::value::{CompareOp, DbValue, RowId, SqlValue, TransactionId};
use crate::v1::model::{below, EngineView, IndexStateView};
use crate::v1::state::{FileStorage, IndexState};
use crate::v2::index_store::{id_list, is_wanted, matches_bounds, starts_with, Wanted};
use crate::v2::locks::BoundView;
use crate::v2::storage::{fail_no_index, ids_result};
use crate::v2::storage_model::no_index;
use crate::v2::txn_manager::given_bound;

verus! {

/// The rows under the keys of an index that are wanted.
pub open spec fn ids_wanted(index: IndexStateView, w: Wanted) -> Set<RowId> {
    Set::new(
        |id: RowId|
            exists|key: Seq<SqlValue>| #[trigger]
                index.entries.dom().contains(key) && is_wanted(w, key)
                    && index.entries[key].contains(id),
    )
}

/// The rows under a key of an index.
pub open spec fn ids_under(index: IndexStateView, key: Seq<SqlValue>) -> Set<RowId> {
    if index.entries.dom().contains(key) {
        index.entries[key]
    } else {
        Set::empty()
    }
}

impl EngineView {
    /// An index that a transaction searches.
    pub open spec fn index_for(self, txn: TransactionId, table: Seq<char>, index: Seq<char>) -> Result<
        IndexStateView,
        ErrorView,
    > {
        match self.idle(txn) {
            Some(e) => Err(e),
            None => if below(self.state.indexes, table).dom().contains(index) {
                Ok(below(self.state.indexes, table)[index])
            } else {
                Err(no_index(index, table))
            },
        }
    }

    /// The rows with a key.
    pub open spec fn looked_up(
        self,
        txn: TransactionId,
        table: Seq<char>,
        index: Seq<char>,
        key: Seq<SqlValue>,
    ) -> Result<Seq<RowId>, ErrorView> {
        match self.index_for(txn, table, index) {
            Err(e) => Err(e),
            Ok(ix) => Ok(sorted::<RowId>(ids_under(ix, key))),
        }
    }

    /// The rows whose key begins with some values.
    pub open spec fn with_prefix(
        self,
        txn: TransactionId,
        table: Seq<char>,
        index: Seq<char>,
        prefix: Seq<SqlValue>,
    ) -> Result<Seq<RowId>, ErrorView> {
        match self.index_for(txn, table, index) {
            Err(e) => Err(e),
            Ok(ix) => if prefix.len() > ix.meta.columns.len() {
                Err(
                    storage(
                        "index "@ + ix.meta.name + " expected at most "@ + nat_text(
                            ix.meta.columns.len(),
                        ) + " key values but got "@ + nat_text(prefix.len()),
                    ),
                )
            } else {
                Ok(sorted::<RowId>(ids_wanted(ix, Wanted { prefix, bounds: None })))
            },
        }
    }

    /// The rows whose key begins with some values and goes on with one within bounds.
    pub open spec fn within(
        self,
        txn: TransactionId,
        table: Seq<char>,
        index: Seq<char>,
        prefix: Seq<SqlValue>,
        lower: Option<BoundView>,
        upper: Option<BoundView>,
    ) -> Result<Seq<RowId>, ErrorView> {
        match self.index_for(txn, table, index) {
            Err(e) => Err(e),
            Ok(ix) => if prefix.len() >= ix.meta.columns.len() {
                Err(
                    storage(
                        "index "@ + ix.meta.name + " has no range column after prefix of length "@
                            + nat_text(prefix.len()),
                    ),
                )
            } else {
                Ok(
                    sorted::<RowId>(
                        ids_wanted(ix, Wanted { prefix, bounds: Some((lower, upper)) }),
                    ),
                )
            },
        }
    }
}

fn wants(
    key: &Vec<DbValue>,
    prefix: &[DbValue],
    ranged: bool,
    lower: Option<(CompareOp, &DbValue)>,
    upper: Option<(CompareOp, &DbValue)>,
) -> (r: bool)
    ensures
        r == is_wanted(
            (Wanted {
                prefix: prefix.deep_view(),
                bounds: if ranged {
                    Some((given_bound(lower), given_bound(upper)))
                } else {
                    None
                },
            }),
            key.deep_view(),
        ),
{
    if !starts_with(key, prefix) {
        return false;
    }
    if !ranged {
        return true;
    }
    let at: usize = prefix.len();
    if at >= key.len() {
        return false;
    }
    assert(key.deep_view()[at as int] == key@[at as int]@);
    matches_bounds(&key[at], lower, upper)
}

fn gather(
    index: &IndexState,
    prefix: &[DbValue],
    ranged: bool,
    lower: Option<(CompareOp, &DbValue)>,
    upper: Option<(CompareOp, &DbValue)>,
) -> (r: Vec<RowId>)
    ensures
        r@ == sorted::<RowId>(
            ids_wanted(
                index@,
                (Wanted {
                    prefix: prefix.deep_view(),
                    bounds: if ranged {
                        Some((given_bound(lower), given_bound(upper)))
                    } else {
                        None
                    },
                }),
            ),
        ),
{
    let ghost w = Wanted {
        prefix: prefix.deep_view(),
        bounds: if ranged {
            Some((given_bound(lower), given_bound(upper)))
        } else {
            None
        },
    };
    let entries = &index.entries;
    let total: usize = entries.len();
    let ghost keys = entries.keys();
    let mut out: OrdSet<RowId> = OrdSet::new();
    let mut i: usize = 0;
    while i < total
        invariant
            i <= total,
            total == keys.len(),
            keys == entries.keys(),
            entries@ == index@.entries,
            forall|j: int| 0 <= j < total ==> entries@.dom().contains(#[trigger] keys[j]),
            w == (Wanted {
                prefix: prefix.deep_view(),
                bounds: if ranged {
                    Some((given_bound(lower), given_bound(upper)))
                } else {
                    None
                },
            }),
            forall|id: RowId| #[trigger]
                out@.contains(id) <==> exists|j: int|
                    0 <= j < i && is_wanted(w, #[trigger] keys[j]) && entries@[keys[j]].contains(
                        id,
                    ),
        decreases total - i,
    {
        let ghost before = out@;
        if wants(entries.key_at(i), prefix, ranged, lower, upper) {
            out.add_all(entries.value_at(i));
        }
        proof {
            assert forall|id: RowId| #[trigger] out@.contains(id) <==> exists|j: int|
                0 <= j < i + 1 && is_wanted(w, #[trigger] keys[j]) && entries@[keys[j]].contains(
                    id,
                ) by {
                if out@.contains(id) && !before.contains(id) {
                    assert(is_wanted(w, keys[i as int]) && entries@[keys[i as int]].contains(id));
                }
                if before.contains(id) {
                    let j = choose|j: int|
                        0 <= j < i && is_wanted(w, #[trigger] keys[j])
                            && entries@[keys[j]].contains(id);
                    assert(is_wanted(w, keys[j]));
                }
            }
        }
        i = i + 1;
    }
    proof {
        let target = ids_wanted(index@, w);
        assert forall|id: RowId| out@.contains(id) == target.contains(id) by {
            if out@.contains(id) {
                let j = choose|j: int|
                    0 <= j < total && is_wanted(w, #[trigger] keys[j]) && entries@[keys[j]].contains(
                        id,
                    );
                assert(entries@.dom().contains(keys[j]));
            }
            if target.contains(id) {
                let key = choose|key: Seq<SqlValue>| #[trigger]
                    index@.entries.dom().contains(key) && is_wanted(w, key)
                        && index@.entries[key].contains(id);
                assert(entries@.dom().contains(key));
                assert(keys.contains(key));
                let j = choose|j: int| 0 <= j < keys.len() && keys[j] == key;
                assert(is_wanted(w, keys[j]) && entries@[keys[j]].contains(id));
            }
        }
        assert(out@ =~= target);
    }
    id_list(&out)
}

impl FileStorage {
    fn find_index(&self, transaction_id: TransactionId, schema_name: &str, index_name: &str) -> (r:
        DbResult<&IndexState>)
        ensures
            match r {
                Ok(ix) => self@.index_for(transaction_id, schema_name@, index_name@) == Ok::<
                    IndexStateView,
                    ErrorView,
                >(ix@),
                Err(e) => self@.index_for(transaction_id, schema_name@, index_name@) == Err::<
                    IndexStateView,
                    ErrorView,
                >(e@),
            },
    {
        self.validate_transaction(transaction_id)?;
        match self.state.indexes.get(&schema_name.to_owned()) {
            None => Err(fail_no_index(index_name, schema_name)),
            Some(by_name) => match by_name.get(&index_name.to_owned()) {
                None => Err(fail_no_index(index_name, schema_name)),
                Some(index) => Ok(index),
            },
        }
    }

    /// The rows with a key, in the order of their numbers.
    pub fn lookup_index(
        &self,
        transaction_id: TransactionId,
        schema_name: &str,
        index_name: &str,
        key: &Vec<DbValue>,
    ) -> (r: DbResult<Vec<RowId>>)
        ensures
            ids_result(r) == self@.looked_up(
                transaction_id,
                schema_name@,
                index_name@,
                key.deep_view(),
            ),
    {
        let index = self.find_index(transaction_id, schema_name, index_name)?;
        match index.entries.get(key) {
            Some(ids) => Ok(id_list(ids)),
            None => {
                let none: OrdSet<RowId> = OrdSet::new();
                Ok(id_list(&none))
            },
        }
    }

    /// The rows whose key begins with some values, in the order of their numbers.
    pub fn scan_index_prefix(
        &self,
        transaction_id: TransactionId,
        schema_name: &str,
        index_name: &str,
        key_prefix: &[DbValue],
    ) -> (r: DbResult<Vec<RowId>>)
        ensures
            ids_result(r) == self@.with_prefix(
                transaction_id,
                schema_name@,
                index_name@,
                key_prefix.deep_view(),
            ),
    {
        let index = self.find_index(transaction_id, schema_name, index_name)?;
        if key_prefix.len() > index.meta.columns.len() {
            let mut message = "index ".to_owned();
            message.append(index.meta.name.as_str());
            message.append(" expected at most ");
            message.append(u64_text(index.meta.columns.len() as u64).as_str());
            message.append(" key values but got ");
            message.append(u64_text(key_prefix.len() as u64).as_str());
            return Err(DbError::storage(message.as_str()));
        }
        Ok(gather(index, key_prefix, false, None, None))
    }

    /// The rows whose key begins with some values and goes on with one within bounds, in the
    /// order of their numbers.
    pub fn scan_index_range(
        &self,
        transaction_id: TransactionId,
        schema_name: &str,
        index_name: &str,
        key_prefix: &[DbValue],
        lower: Option<(CompareOp, &DbValue)>,
        upper: Option<(CompareOp, &DbValue)>,
    ) -> (r: DbResult<Vec<RowId>>)
        ensures
            ids_result(r) == self@.within(
                transaction_id,
                schema_name@,
                index_name@,
                key_prefix.deep_view(),
                given_bound(lower),
                given_bound(upper),
            ),
    {
        let index = self.find_index(transaction_id, schema_name, index_name)?;
        if key_prefix.len() >= index.meta.columns.len() {
            let mut message = "index ".to_owned();
            message.append(index.meta.name.as_str());
            message.append(" has no range column after prefix of length ");
            message.append(u64_text(key_prefix.len() as u64).as_str());
            return Err(DbError::storage(message.as_str()));
        }
        Ok(gather(index, key_prefix, true, lower, upper))
    }
}

} // verus!
