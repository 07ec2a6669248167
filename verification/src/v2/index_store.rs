//! Indexes of tables: making, dropping and searching them.

use vstd::prelude::*;

use crate::common::error::{storage, DbError, DbResult, ErrorView};
use crate::common::nested::{put, put_under};
use crate::common::ordmap::{Duplicate, OrdMap};
use crate::common::ordset::{lemma_is_sorted, sorted, OrdSet};
use crate::common::schema::{IndexMeta, IndexView, Schema};
use crate::common::text::{nat_text, same_text, u64_text};
use crate::common::value::{CompareOp, DbValue, RowId, SqlValue, TransactionId};
use crate::v2::btree::{BTree, IndexTree};
use crate::v2::catalog::{CatalogModel, SharedSchema};
use crate::v2::codec::{
    decode_index_key, decode_row, decode_row_ids, encode_index_key, ids_of, key_of, no_column,
    project_index_key, projected, row_of,
};
use crate::v2::locks::{inside, matches_compare, BoundView, LockKindView, PredicateLockView};
use crate::v2::page::PageId;
use crate::v2::pager_model::PagerModel;
use crate::v2::storage::{
    engine_step, fail_no_index, fail_not_unique, filter_index_row_ids_for_key, ids_result,
    list_rows, upsert_index_entry, FileStorage, IndexSlot,
};
use crate::v2::storage_model::{
    entry_added, index_of, indexes_of, key_bytes, listed, no_index, not_unique, roots_of, table_of,
    with_key, SlotView, StorageModel,
};
use crate::v2::tables::{
    lemma_changed_twice, lemma_fewer_trees, lemma_index_made, lemma_room, lemma_same_names,
    lemma_same_trees, lemma_unchanged, rows_in, same_trees, tree_changed, Tables,
};
use crate::v2::tree::{all_entries, tree_made};
use crate::v2::tree_node::{ByteKey, EntryView, LeafEntry};
use crate::v2::tree_shape::tree_holds;
use crate::v2::txn_manager::given_bound;
use crate::v2::txn_model::not_active;

verus! {

// ---------------------------------------------------------------------------
// Models

/// The failure of an index over the same column twice.
pub open spec fn column_twice(column: Seq<char>) -> ErrorView {
    storage("duplicate index column "@ + column)
}

/// What is wrong with the columns of a new index, from one on, if anything.
pub open spec fn columns_fault(schema: Schema, columns: Seq<Seq<char>>, i: int) -> Option<ErrorView>
    decreases columns.len() - i,
{
    if i < 0 || i >= columns.len() {
        None
    } else if schema.position(columns[i]) is None {
        Some(no_column(columns[i], schema.name@))
    } else if columns.take(i).contains(columns[i]) {
        Some(column_twice(columns[i]))
    } else {
        columns_fault(schema, columns, i + 1)
    }
}

/// What is wrong with a new index, if anything.
pub open spec fn index_fault(schema: Schema, by_name: Map<Seq<char>, IndexView>, index: IndexView) -> Option<
    ErrorView,
> {
    if index.columns.len() == 0 {
        Some(storage("index must define at least one column"@))
    } else {
        match columns_fault(schema, index.columns, 0) {
            Some(e) => Some(e),
            None => if by_name.dom().contains(index.name) {
                Some(storage("index "@ + index.name + " already exists"@))
            } else {
                None
            },
        }
    }
}

/// The pager once a new index lists a row, and the root of the index then.
pub open spec fn row_listed(
    m: PagerModel,
    txn: u64,
    root: PageId,
    schema: Schema,
    index: IndexView,
    entry: EntryView<u64>,
) -> (PagerModel, Result<PageId, ErrorView>) {
    match row_of(entry.value) {
        Err(e) => (m, Err(e)),
        Ok(row) => match projected(schema, index.columns, row) {
            Err(e) => (m, Err(e)),
            Ok(key) => match taken(m, root, index, key) {
                Err(e) => (m, Err(e)),
                Ok(_) => entry_added(m, txn, root, key_bytes(key), RowId(entry.key)),
            },
        },
    }
}

/// Whether a key that must be the only one of its kind is in an index already.
pub open spec fn taken(m: PagerModel, root: PageId, index: IndexView, key: Seq<SqlValue>) -> Result<
    (),
    ErrorView,
> {
    if !IndexMeta::key_is_unique(index, key) {
        Ok(())
    } else {
        match listed(m, root, key_bytes(key)) {
            Err(e) => Err(e),
            Ok(None) => Ok(()),
            Ok(Some(ids)) => if ids.len() > 0 {
                Err(not_unique(index.name))
            } else {
                Ok(())
            },
        }
    }
}

/// The pager once a new index lists rows, from one on, and the root of the index then.
pub open spec fn rows_listed(
    m: PagerModel,
    txn: u64,
    root: PageId,
    schema: Schema,
    index: IndexView,
    entries: Seq<EntryView<u64>>,
    i: int,
) -> (PagerModel, Result<PageId, ErrorView>)
    decreases entries.len() - i,
{
    if i < 0 || i >= entries.len() {
        (m, Ok(root))
    } else {
        match row_listed(m, txn, root, schema, index, entries[i]) {
            (a, Err(e)) => (a, Err(e)),
            (a, Ok(next)) => rows_listed(a, txn, next, schema, index, entries, i + 1),
        }
    }
}

/// The failure of a key with the wrong number of values.
pub open spec fn wrong_key(index: Seq<char>, middle: Seq<char>, want: nat, got: nat) -> ErrorView {
    storage(
        "index "@ + index + middle + nat_text(want) + " key values but got "@ + nat_text(got),
    )
}

/// What a key of an index is to be: to start with values, and to have the next value inside
/// bounds, where such are given.
pub struct Wanted {
    pub prefix: Seq<SqlValue>,
    pub bounds: Option<(Option<BoundView>, Option<BoundView>)>,
}

/// Whether a key is wanted.
pub open spec fn is_wanted(w: Wanted, key: Seq<SqlValue>) -> bool {
    &&& w.prefix.len() <= key.len() && key.take(w.prefix.len() as int) == w.prefix
    &&& w.bounds matches Some(b) ==> w.prefix.len() < key.len() && inside(
        key[w.prefix.len() as int],
        b.0,
    ) && inside(key[w.prefix.len() as int], b.1)
}

impl StorageModel {
    /// The engine once a table has a new index.
    pub open spec fn index_made(self, txn: TransactionId, table: Seq<char>, index: IndexView) -> (
        StorageModel,
        Result<(), ErrorView>,
    ) {
        match self.idle(txn) {
            Some(e) => (self, Err(e)),
            None => match table_of(self.catalog, table) {
                Err(e) => (self, Err(e)),
                Ok((schema, root)) => match index_fault(
                    schema,
                    indexes_of(self.catalog, table),
                    index,
                ) {
                    Some(e) => (self, Err(e)),
                    None => self.index_filled(txn, table, schema, root, index),
                },
            },
        }
    }

    /// The engine once a table has a new index that lists its rows.
    pub open spec fn index_filled(
        self,
        txn: TransactionId,
        table: Seq<char>,
        schema: Schema,
        root: PageId,
        index: IndexView,
    ) -> (StorageModel, Result<(), ErrorView>) {
        match all_entries::<u64>(self.pager, root) {
            Err(e) => (self, Err(e)),
            Ok(entries) => match tree_made::<ByteKey>(self.pager, txn.0) {
                (p, Err(e)) => (self.with_pager(p), Err(e)),
                (p, Ok(start)) => match rows_listed(p, txn.0, start, schema, index, entries, 0) {
                    (q, Err(e)) => (self.with_pager(q), Err(e)),
                    (q, Ok(end)) => (
                        self.with_pager(q).with_catalog(
                            CatalogModel {
                                indexes: put(self.catalog.indexes, table, index.name, index),
                                index_roots: put(self.catalog.index_roots, table, index.name, end),
                                ..self.catalog
                            },
                        ),
                        Ok(()),
                    ),
                },
            },
        }
    }

    /// The engine once a table has an index less.
    pub open spec fn index_dropped(self, txn: TransactionId, table: Seq<char>, index: Seq<char>) -> (
        StorageModel,
        Result<(), ErrorView>,
    ) {
        match self.idle(txn) {
            Some(e) => (self, Err(e)),
            None => if !indexes_of(self.catalog, table).dom().contains(index) {
                (self, Err(no_index(index, table)))
            } else {
                (
                    self.with_catalog(
                        CatalogModel {
                            indexes: self.catalog.indexes.insert(
                                table,
                                self.catalog.indexes[table].remove(index),
                            ),
                            index_roots: if self.catalog.index_roots.dom().contains(table) {
                                self.catalog.index_roots.insert(
                                    table,
                                    self.catalog.index_roots[table].remove(index),
                                )
                            } else {
                                self.catalog.index_roots
                            },
                            ..self.catalog
                        },
                    ),
                    Ok(()),
                )
            },
        }
    }

    /// The engine once a transaction has locked part of an index.
    pub open spec fn part_locked(self, lock: PredicateLockView) -> (
        StorageModel,
        Result<(), ErrorView>,
    ) {
        if self.pager.txns.txns.dom().contains(lock.txn_id) {
            (self.with_txns(self.pager.txns.predicate_locked(lock)), Ok(()))
        } else {
            (self, Err(not_active(lock.txn_id)))
        }
    }

    /// The rows of a list that a transaction sees with a key. The snapshot is only taken
    /// where there are rows.
    pub open spec fn rows_with_key(
        self,
        txn: TransactionId,
        schema: Schema,
        root: PageId,
        columns: Seq<Seq<char>>,
        key: Seq<SqlValue>,
        ids: Seq<RowId>,
    ) -> (StorageModel, Result<Seq<RowId>, ErrorView>) {
        if ids.len() == 0 {
            (self, Ok(Seq::empty()))
        } else {
            match self.snapshot_of(txn) {
                (a, Err(e)) => (a, Err(e)),
                (a, Ok(snapshot)) => (
                    a,
                    with_key(a.pager, txn, snapshot, schema, root, columns, key, ids),
                ),
            }
        }
    }

    /// The rows of a table that a transaction sees with a key of an index.
    pub open spec fn looked_up(
        self,
        txn: TransactionId,
        table: Seq<char>,
        index: Seq<char>,
        key: Seq<SqlValue>,
    ) -> (StorageModel, Result<Seq<RowId>, ErrorView>) {
        match self.search_target(txn, table, index) {
            Err(e) => (self, Err(e)),
            Ok((schema, root, slot)) => if key.len() != slot.meta.columns.len() {
                (
                    self,
                    Err(
                        wrong_key(
                            slot.meta.name,
                            " expected "@,
                            slot.meta.columns.len(),
                            key.len(),
                        ),
                    ),
                )
            } else {
                match self.part_locked(
                    PredicateLockView {
                        txn_id: txn,
                        table,
                        index: Some(index),
                        kind: LockKindView::Record(key),
                    },
                ) {
                    (a, Err(e)) => (a, Err(e)),
                    (a, Ok(_)) => match listed(a.pager, slot.root, key_bytes(key)) {
                        Err(e) => (a, Err(e)),
                        Ok(None) => (a, Ok(Seq::empty())),
                        Ok(Some(ids)) => a.rows_with_key(
                            txn,
                            schema,
                            root,
                            slot.meta.columns,
                            key,
                            ids,
                        ),
                    },
                }
            },
        }
    }

    /// The table and the index that are to be searched.
    pub open spec fn search_target(self, txn: TransactionId, table: Seq<char>, index: Seq<char>) -> Result<
        (Schema, PageId, SlotView),
        ErrorView,
    > {
        match self.idle(txn) {
            Some(e) => Err(e),
            None => match table_of(self.catalog, table) {
                Err(e) => Err(e),
                Ok((schema, root)) => match index_of(self.catalog, table, index) {
                    Err(e) => Err(e),
                    Ok(slot) => Ok((schema, root, slot)),
                },
            },
        }
    }

    /// The rows that a transaction sees under the wanted keys among entries of an index, from
    /// one on.
    pub open spec fn gathered_from(
        self,
        txn: TransactionId,
        schema: Schema,
        root: PageId,
        columns: Seq<Seq<char>>,
        wanted: Wanted,
        entries: Seq<EntryView<Seq<u8>>>,
        i: int,
        out: Set<RowId>,
    ) -> (StorageModel, Result<Set<RowId>, ErrorView>)
        decreases entries.len() - i,
    {
        if i < 0 || i >= entries.len() {
            (self, Ok(out))
        } else {
            match self.entry_gathered(txn, schema, root, columns, wanted, entries[i]) {
                (a, Err(e)) => (a, Err(e)),
                (a, Ok(ids)) => a.gathered_from(
                    txn,
                    schema,
                    root,
                    columns,
                    wanted,
                    entries,
                    i + 1,
                    out.union(ids.to_set()),
                ),
            }
        }
    }

    /// The rows that a transaction sees under the key of an entry of an index, where it is
    /// wanted.
    pub open spec fn entry_gathered(
        self,
        txn: TransactionId,
        schema: Schema,
        root: PageId,
        columns: Seq<Seq<char>>,
        wanted: Wanted,
        entry: EntryView<Seq<u8>>,
    ) -> (StorageModel, Result<Seq<RowId>, ErrorView>) {
        match key_of(entry.key) {
            Err(e) => (self, Err(e)),
            Ok(key) => if !is_wanted(wanted, key) {
                (self, Ok(Seq::empty()))
            } else {
                match ids_of(entry.value) {
                    Err(e) => (self, Err(e)),
                    Ok(ids) => self.rows_with_key(txn, schema, root, columns, key, ids),
                }
            },
        }
    }

    /// The rows that a transaction sees under the wanted keys of an index, in ascending
    /// order.
    pub open spec fn gathered(
        self,
        txn: TransactionId,
        schema: Schema,
        root: PageId,
        slot: SlotView,
        wanted: Wanted,
    ) -> (StorageModel, Result<Seq<RowId>, ErrorView>) {
        match all_entries::<ByteKey>(self.pager, slot.root) {
            Err(e) => (self, Err(e)),
            Ok(entries) => match self.gathered_from(
                txn,
                schema,
                root,
                slot.meta.columns,
                wanted,
                entries,
                0,
                Set::empty(),
            ) {
                (a, Err(e)) => (a, Err(e)),
                (a, Ok(ids)) => (a, Ok(sorted::<RowId>(ids))),
            },
        }
    }

    /// The rows of a table that a transaction sees with the first values of a key of an index.
    pub open spec fn prefix_scanned(
        self,
        txn: TransactionId,
        table: Seq<char>,
        index: Seq<char>,
        prefix: Seq<SqlValue>,
    ) -> (StorageModel, Result<Seq<RowId>, ErrorView>) {
        match self.search_target(txn, table, index) {
            Err(e) => (self, Err(e)),
            Ok((schema, root, slot)) => if prefix.len() > slot.meta.columns.len() {
                (
                    self,
                    Err(
                        wrong_key(
                            slot.meta.name,
                            " expected at most "@,
                            slot.meta.columns.len(),
                            prefix.len(),
                        ),
                    ),
                )
            } else {
                match self.part_locked(
                    PredicateLockView {
                        txn_id: txn,
                        table,
                        index: Some(index),
                        kind: LockKindView::NextKey { prefix, lower: None, upper: None },
                    },
                ) {
                    (a, Err(e)) => (a, Err(e)),
                    (a, Ok(_)) => a.gathered(
                        txn,
                        schema,
                        root,
                        slot,
                        Wanted { prefix, bounds: None },
                    ),
                }
            },
        }
    }

    /// The rows of a table that a transaction sees with the first values of a key of an index
    /// and the next value inside bounds.
    pub open spec fn range_scanned(
        self,
        txn: TransactionId,
        table: Seq<char>,
        index: Seq<char>,
        prefix: Seq<SqlValue>,
        lower: Option<BoundView>,
        upper: Option<BoundView>,
    ) -> (StorageModel, Result<Seq<RowId>, ErrorView>) {
        match self.search_target(txn, table, index) {
            Err(e) => (self, Err(e)),
            Ok((schema, root, slot)) => if prefix.len() >= slot.meta.columns.len() {
                (
                    self,
                    Err(
                        storage(
                            "index "@ + slot.meta.name
                                + " has no range column after prefix of length "@ + nat_text(
                                prefix.len(),
                            ),
                        ),
                    ),
                )
            } else {
                match self.part_locked(
                    PredicateLockView {
                        txn_id: txn,
                        table,
                        index: Some(index),
                        kind: LockKindView::NextKey { prefix, lower, upper },
                    },
                ) {
                    (a, Err(e)) => (a, Err(e)),
                    (a, Ok(_)) => a.gathered(
                        txn,
                        schema,
                        root,
                        slot,
                        Wanted { prefix, bounds: Some((lower, upper)) },
                    ),
                }
            },
        }
    }
}

// ---------------------------------------------------------------------------
// Making indexes

fn occurs_before(columns: &Vec<String>, i: usize) -> (r: bool)
    requires
        i < columns@.len(),
    ensures
        r == columns.deep_view().take(i as int).contains(columns.deep_view()[i as int]),
{
    let ghost all = columns.deep_view();
    let mut k: usize = 0;
    while k < i
        invariant
            k <= i < columns@.len(),
            all == columns.deep_view(),
            forall|j: int| 0 <= j < k ==> #[trigger] all[j] != all[i as int],
        decreases i - k,
    {
        assert(all[k as int] == columns@[k as int]@);
        if same_text(columns[k].as_str(), columns[i].as_str()) {
            assert(all.take(i as int)[k as int] == all[i as int]);
            return true;
        }
        k = k + 1;
    }
    false
}

fn validate_new_index(
    schema: &Schema,
    by_name: Option<&OrdMap<String, IndexMeta>>,
    index: &IndexMeta,
) -> (r: DbResult<()>)
    ensures
        ({
            let known = match by_name {
                Some(m) => m@,
                None => Map::empty(),
            };
            match r {
                Ok(_) => index_fault(*schema, known, index@) is None,
                Err(e) => index_fault(*schema, known, index@) == Some(e@),
            }
        }),
{
    if index.columns.len() == 0 {
        return Err(DbError::storage("index must define at least one column"));
    }
    let ghost columns = index.columns.deep_view();
    let mut i: usize = 0;
    while i < index.columns.len()
        invariant
            i <= index.columns@.len(),
            0 < index.columns@.len(),
            columns == index.columns.deep_view(),
            columns_fault(*schema, columns, i as int) == columns_fault(*schema, columns, 0),
        decreases index.columns@.len() - i,
    {
        let column: &String = &index.columns[i];
        assert(columns[i as int] == column@);
        match schema.column_index(column.as_str()) {
            None => {
                let mut message = "unknown column ".to_owned();
                message.append(column.as_str());
                message.append(" on table ");
                message.append(schema.name.as_str());
                return Err(DbError::storage(message.as_str()));
            },
            Some(_) => {},
        }
        if occurs_before(&index.columns, i) {
            let mut message = "duplicate index column ".to_owned();
            message.append(column.as_str());
            return Err(DbError::storage(message.as_str()));
        }
        i = i + 1;
    }
    let exists_already = match by_name {
        Some(m) => m.contains_key(&index.name),
        None => false,
    };
    if exists_already {
        let mut message = "index ".to_owned();
        message.append(index.name.as_str());
        message.append(" already exists");
        return Err(DbError::storage(message.as_str()));
    }
    Ok(())
}

/// The model of the number of a page or an error.
pub open spec fn root_result(r: DbResult<PageId>) -> Result<PageId, ErrorView> {
    match r {
        Ok(p) => Ok(p),
        Err(e) => Err(e@),
    }
}

fn fail_key(index: &str, middle: &str, want: usize, got: usize) -> (r: DbError)
    ensures
        r@ == wrong_key(index@, middle@, want as nat, got as nat),
{
    let mut message = "index ".to_owned();
    message.append(index);
    message.append(middle);
    message.append(u64_text(want as u64).as_str());
    message.append(" key values but got ");
    message.append(u64_text(got as u64).as_str());
    DbError::storage(message.as_str())
}

/// Whether a key begins with some values.
pub fn starts_with(key: &Vec<DbValue>, prefix: &[DbValue]) -> (r: bool)
    ensures
        r == (prefix.deep_view().len() <= key.deep_view().len() && key.deep_view().take(
            prefix.deep_view().len() as int,
        ) == prefix.deep_view()),
{
    if prefix.len() > key.len() {
        return false;
    }
    let ghost k = key.deep_view();
    let ghost p = prefix.deep_view();
    let mut i: usize = 0;
    while i < prefix.len()
        invariant
            i <= prefix@.len() <= key@.len(),
            k == key.deep_view(),
            p == prefix.deep_view(),
            forall|j: int| 0 <= j < i ==> #[trigger] p[j] == k[j],
        decreases prefix@.len() - i,
    {
        assert(p[i as int] == prefix@[i as int]@);
        if !prefix[i].same(&key[i]) {
            assert(k.take(p.len() as int)[i as int] != p[i as int]);
            return false;
        }
        i = i + 1;
    }
    assert(k.take(p.len() as int) =~= p);
    true
}

/// Whether a value lies within bounds.
pub fn matches_bounds(
    candidate: &DbValue,
    lower: Option<(CompareOp, &DbValue)>,
    upper: Option<(CompareOp, &DbValue)>,
) -> (r: bool)
    ensures
        r == (inside(candidate@, given_bound(lower)) && inside(candidate@, given_bound(upper))),
{
    let above = match lower {
        Some((op, value)) => matches_compare(candidate, op, value),
        None => true,
    };
    let below = match upper {
        Some((op, value)) => matches_compare(candidate, op, value),
        None => true,
    };
    above && below
}

/// What a key of an index is to be.
struct Want<'a> {
    prefix: &'a [DbValue],
    ranged: bool,
    lower: Option<(CompareOp, &'a DbValue)>,
    upper: Option<(CompareOp, &'a DbValue)>,
}

impl<'a> Want<'a> {
    spec fn model(&self) -> Wanted {
        Wanted {
            prefix: self.prefix.deep_view(),
            bounds: if self.ranged {
                Some((given_bound(self.lower), given_bound(self.upper)))
            } else {
                None
            },
        }
    }
}

fn wants(w: &Want, key: &Vec<DbValue>) -> (r: bool)
    ensures
        r == is_wanted(w.model(), key.deep_view()),
{
    if !starts_with(key, w.prefix) {
        return false;
    }
    if !w.ranged {
        return true;
    }
    let at: usize = w.prefix.len();
    if at >= key.len() {
        return false;
    }
    assert(key.deep_view()[at as int] == key@[at as int]@);
    matches_bounds(&key[at], w.lower, w.upper)
}

/// Gathering rows leaves all trees as they are.
proof fn lemma_gathered_from(
    m: StorageModel,
    txn: TransactionId,
    schema: Schema,
    root: PageId,
    columns: Seq<Seq<char>>,
    wanted: Wanted,
    entries: Seq<EntryView<Seq<u8>>>,
    i: int,
    out: Set<RowId>,
)
    ensures
        same_trees(
            m,
            m.gathered_from(txn, schema, root, columns, wanted, entries, i, out).0,
        ),
    decreases entries.len() - i,
{
    if 0 <= i < entries.len() {
        let (a, r) = m.entry_gathered(txn, schema, root, columns, wanted, entries[i]);
        match r {
            Err(_) => {},
            Ok(ids) => {
                lemma_gathered_from(
                    a,
                    txn,
                    schema,
                    root,
                    columns,
                    wanted,
                    entries,
                    i + 1,
                    out.union(ids.to_set()),
                );
            },
        }
    }
}

proof fn lemma_gathered(
    m: StorageModel,
    txn: TransactionId,
    schema: Schema,
    root: PageId,
    slot: SlotView,
    wanted: Wanted,
)
    ensures
        same_trees(m, m.gathered(txn, schema, root, slot, wanted).0),
{
    match all_entries::<ByteKey>(m.pager, slot.root) {
        Err(_) => {},
        Ok(entries) => {
            lemma_gathered_from(
                m,
                txn,
                schema,
                root,
                slot.meta.columns,
                wanted,
                entries,
                0,
                Set::empty(),
            );
        },
    }
}

proof fn lemma_prefix_scanned(
    m: StorageModel,
    txn: TransactionId,
    table: Seq<char>,
    index: Seq<char>,
    prefix: Seq<SqlValue>,
)
    ensures
        same_trees(m, m.prefix_scanned(txn, table, index, prefix).0),
{
    match m.search_target(txn, table, index) {
        Err(_) => {},
        Ok((schema, root, slot)) => {
            let a = m.part_locked(
                PredicateLockView {
                    txn_id: txn,
                    table,
                    index: Some(index),
                    kind: LockKindView::NextKey { prefix, lower: None, upper: None },
                },
            ).0;
            lemma_gathered(a, txn, schema, root, slot, Wanted { prefix, bounds: None });
        },
    }
}

proof fn lemma_range_scanned(
    m: StorageModel,
    txn: TransactionId,
    table: Seq<char>,
    index: Seq<char>,
    prefix: Seq<SqlValue>,
    lower: Option<BoundView>,
    upper: Option<BoundView>,
)
    ensures
        same_trees(m, m.range_scanned(txn, table, index, prefix, lower, upper).0),
{
    match m.search_target(txn, table, index) {
        Err(_) => {},
        Ok((schema, root, slot)) => {
            let a = m.part_locked(
                PredicateLockView {
                    txn_id: txn,
                    table,
                    index: Some(index),
                    kind: LockKindView::NextKey { prefix, lower, upper },
                },
            ).0;
            let wanted = Wanted { prefix, bounds: Some((lower, upper)) };
            lemma_gathered(a, txn, schema, root, slot, wanted);
        },
    }
}

impl FileStorage {
    fn list_row(
        &mut self,
        transaction_id: TransactionId,
        root: PageId,
        schema: &Schema,
        index: &IndexMeta,
        entry: &LeafEntry<u64>,
    ) -> (r: DbResult<PageId>)
        requires
            old(self)@.pager.sound(),
        ensures
            ({
                let model = row_listed(
                    old(self)@.pager,
                    transaction_id.0,
                    root,
                    *schema,
                    index@,
                    entry.deep_view(),
                );
                final(self)@ == old(self)@.with_pager(model.0) && root_result(r) == model.1
            }),
            final(self)@.pager.sound(),
            forall|pages: Set<PageId>, c: Map<Seq<u8>, Seq<u8>>| #[trigger]
                tree_holds::<ByteKey>(old(self)@.pager, root, pages, c) && r is Ok ==> tree_changed::<
                    ByteKey,
                >(old(self)@.pager, pages, final(self)@.pager, r->Ok_0),
    {
        let ghost start = self@;
        assert(start =~= start.with_pager(start.pager));
        let row = decode_row(entry.value.as_slice())?;
        let key = project_index_key(schema, index, &row)?;
        let bytes = match encode_index_key(key.as_slice()) {
            Ok(bytes) => bytes,
            Err(e) => {
                return Err(e);
            },
        };
        if index.enforces_unique_key(key.as_slice()) {
            match list_rows(&self.pager, root, bytes.as_slice())? {
                Some(ids) => {
                    if ids.len() > 0 {
                        return Err(fail_not_unique(index.name.as_str()));
                    }
                },
                None => {},
            }
        }
        upsert_index_entry(
            &mut self.pager,
            transaction_id.0,
            root,
            bytes.as_slice(),
            RowId(entry.key),
        )
    }

    fn list_all_rows(
        &mut self,
        transaction_id: TransactionId,
        start: PageId,
        schema: &Schema,
        index: &IndexMeta,
        entries: &Vec<LeafEntry<u64>>,
    ) -> (r: DbResult<PageId>)
        requires
            old(self)@.pager.sound(),
        ensures
            ({
                let model = rows_listed(
                    old(self)@.pager,
                    transaction_id.0,
                    start,
                    *schema,
                    index@,
                    entries.deep_view(),
                    0,
                );
                final(self)@ == old(self)@.with_pager(model.0) && root_result(r) == model.1
            }),
            final(self)@.pager.sound(),
            forall|pages: Set<PageId>, c: Map<Seq<u8>, Seq<u8>>| #[trigger]
                tree_holds::<ByteKey>(old(self)@.pager, start, pages, c) && r is Ok
                    ==> tree_changed::<ByteKey>(
                    old(self)@.pager,
                    pages,
                    final(self)@.pager,
                    r->Ok_0,
                ),
    {
        let ghost before = self@;
        let ghost all = entries.deep_view();
        let ghost whole = rows_listed(
            before.pager,
            transaction_id.0,
            start,
            *schema,
            index@,
            all,
            0,
        );
        let mut root: PageId = start;
        let mut i: usize = 0;
        proof {
            lemma_unchanged::<ByteKey>(before.pager, start);
        }
        while i < entries.len()
            invariant
                i <= entries@.len(),
                all == entries.deep_view(),
                before == old(self)@,
                forall|pages: Set<PageId>, c: Map<Seq<u8>, Seq<u8>>| #[trigger]
                    tree_holds::<ByteKey>(before.pager, start, pages, c) ==> tree_changed::<ByteKey>(
                        before.pager,
                        pages,
                        self@.pager,
                        root,
                    ),
                self@.pager.sound(),
                self@ == before.with_pager(self@.pager),
                whole == rows_listed(
                    before.pager,
                    transaction_id.0,
                    start,
                    *schema,
                    index@,
                    all,
                    0,
                ),
                rows_listed(
                    self@.pager,
                    transaction_id.0,
                    root,
                    *schema,
                    index@,
                    all,
                    i as int,
                ) == whole,
            decreases entries@.len() - i,
        {
            assert(all[i as int] == entries@[i as int].deep_view());
            let ghost middle = self@.pager;
            let ghost between = root;
            root = self.list_row(transaction_id, root, schema, index, &entries[i])?;
            proof {
                assert forall|pages: Set<PageId>, c: Map<Seq<u8>, Seq<u8>>| #[trigger]
                    tree_holds::<ByteKey>(before.pager, start, pages, c) implies tree_changed::<
                    ByteKey,
                >(before.pager, pages, self@.pager, root) by {
                    lemma_changed_twice::<ByteKey>(
                        before.pager,
                        pages,
                        middle,
                        between,
                        self@.pager,
                        root,
                    );
                }
            }
            i = i + 1;
        }
        Ok(root)
    }

    /// Makes an index of a table.
    pub fn create_index(&mut self, transaction_id: TransactionId, schema_name: &str, index: IndexMeta) -> (r:
        DbResult<()>)
        requires
            old(self)@.pager.sound(),
        ensures
            engine_step(
                r,
                final(self)@,
                old(self)@.index_made(transaction_id, schema_name@, index@),
            ),
            final(self)@.pager.sound(),
            forall|tables: Tables| #[trigger]
                rows_in(old(self)@, tables) && r is Ok ==> rows_in(final(self)@, tables),
    {
        let ghost start = self@;
        self.validate_transaction(transaction_id)?;
        let (schema, table_root): (SharedSchema, PageId) = self.catalog.table_schema_and_root(
            schema_name,
        )?;
        let name: String = schema_name.to_owned();
        validate_new_index(&schema.schema, self.catalog.indexes.get(&name), &index)?;
        let table = BTree::from_root(table_root);
        let entries: Vec<LeafEntry<u64>> = table.scan_all(&self.pager)?;
        let tree = IndexTree::create(&mut self.pager, transaction_id.0);
        let ghost made = self@;
        assert(made =~= start.with_pager(made.pager));
        let tree = tree?;
        let root = self.list_all_rows(
            transaction_id,
            tree.root_page_id(),
            &schema.schema,
            &index,
            &entries,
        )?;
        put_under(&mut self.catalog.index_roots, &name, index.name.clone(), root);
        let index_name: String = index.name.clone();
        put_under(&mut self.catalog.indexes, &name, index_name, index);
        assert(self@ =~= start.index_made(transaction_id, schema_name@, index@).0);
        proof {
            assert forall|tables: Tables| #[trigger] rows_in(start, tables) implies rows_in(
                self@,
                tables,
            ) by {
                lemma_room(start, tables);
                lemma_changed_twice::<ByteKey>(
                    start.pager,
                    Set::empty(),
                    made.pager,
                    tree@,
                    self@.pager,
                    root,
                );
                assert(self@.catalog.index_roots =~= start.catalog.index_roots.insert(
                    schema_name@,
                    roots_of(start.catalog, schema_name@).insert(index@.name, root),
                ));
                lemma_index_made(start, tables, schema_name@, index@.name, self@, root);
            }
        }
        Ok(())
    }

    /// Drops an index of a table.
    pub fn drop_index(&mut self, transaction_id: TransactionId, schema_name: &str, index_name: &str) -> (r:
        DbResult<()>)
        requires
            old(self)@.pager.sound(),
        ensures
            engine_step(
                r,
                final(self)@,
                old(self)@.index_dropped(transaction_id, schema_name@, index_name@),
            ),
            final(self)@.pager.sound(),
            forall|tables: Tables| #[trigger]
                rows_in(old(self)@, tables) && r is Ok ==> rows_in(final(self)@, tables),
    {
        let ghost start = self@;
        self.validate_transaction(transaction_id)?;
        let table: String = schema_name.to_owned();
        let index: String = index_name.to_owned();
        let known = match self.catalog.indexes.get(&table) {
            Some(by_name) => by_name.contains_key(&index),
            None => false,
        };
        if !known {
            return Err(fail_no_index(index_name, schema_name));
        }
        match self.catalog.indexes.get_mut(&table) {
            Some(by_name) => {
                by_name.remove(&index);
            },
            None => {},
        }
        match self.catalog.index_roots.get_mut(&table) {
            Some(roots) => {
                roots.remove(&index);
            },
            None => {},
        }
        assert(self@ =~= start.index_dropped(transaction_id, schema_name@, index_name@).0);
        proof {
            assert forall|tables: Tables| #[trigger] rows_in(start, tables) implies rows_in(
                self@,
                tables,
            ) by {
                lemma_fewer_trees(start, tables, self@);
                lemma_same_names(start, tables);
                assert(tables.restrict(self@.catalog.table_roots.dom()) =~= tables);
            }
        }
        Ok(())
    }

    /// An index of a table, where there is one of that name.
    pub fn get_index(&self, transaction_id: TransactionId, schema_name: &str, index_name: &str) -> (r:
        DbResult<Option<IndexMeta>>)
        ensures
            match r {
                Ok(Some(index)) => {
                    &&& self@.idle(transaction_id) is None
                    &&& indexes_of(self@.catalog, schema_name@).dom().contains(index_name@)
                    &&& indexes_of(self@.catalog, schema_name@)[index_name@] == index@
                },
                Ok(None) => self@.idle(transaction_id) is None && !indexes_of(
                    self@.catalog,
                    schema_name@,
                ).dom().contains(index_name@),
                Err(e) => self@.idle(transaction_id) == Some(e@),
            },
    {
        self.validate_transaction(transaction_id)?;
        match self.catalog.indexes.get(&schema_name.to_owned()) {
            None => Ok(None),
            Some(by_name) => match by_name.get(&index_name.to_owned()) {
                None => Ok(None),
                Some(index) => Ok(Some(index.duplicate())),
            },
        }
    }

    /// The indexes of a table, in the order of their names.
    pub fn list_indexes(&self, transaction_id: TransactionId, schema_name: &str) -> (r: DbResult<
        Vec<IndexMeta>,
    >)
        ensures
            match r {
                Ok(list) => {
                    &&& self@.idle(transaction_id) is None
                    &&& list.deep_view() == listed_indexes(
                        indexes_of(self@.catalog, schema_name@),
                    )
                },
                Err(e) => self@.idle(transaction_id) == Some(e@),
            },
    {
        self.validate_transaction(transaction_id)?;
        let mut out: Vec<IndexMeta> = Vec::new();
        match self.catalog.indexes.get(&schema_name.to_owned()) {
            None => {
                proof {
                    assert(Seq::<Seq<char>>::empty().to_set() =~= Set::<Seq<char>>::empty());
                    lemma_is_sorted::<String>(Seq::empty(), Set::empty());
                    assert(indexes_of(self@.catalog, schema_name@).dom() =~= Set::empty());
                    assert(out.deep_view() =~= listed_indexes(
                        indexes_of(self@.catalog, schema_name@),
                    ));
                }
            },
            Some(by_name) => {
                let total: usize = by_name.len();
                let ghost names = by_name.keys();
                let mut i: usize = 0;
                while i < total
                    invariant
                        i <= total,
                        total == names.len(),
                        names == by_name.keys(),
                        out@.len() == i,
                        forall|k: int|
                            0 <= k < i ==> (#[trigger] out@[k])@ == by_name@[names[k]],
                    decreases total - i,
                {
                    let index: &IndexMeta = by_name.value_at(i);
                    out.push(index.duplicate());
                    i = i + 1;
                }
                proof {
                    assert(names.to_set() =~= by_name@.dom());
                    lemma_is_sorted::<String>(names, by_name@.dom());
                    assert(out.deep_view() =~= listed_indexes(by_name@));
                }
            },
        }
        Ok(out)
    }

    fn find_search_target(
        &self,
        transaction_id: TransactionId,
        table: &str,
        index: &str,
    ) -> (r: DbResult<(SharedSchema, PageId, IndexSlot)>)
        ensures
            match r {
                Ok((s, p, slot)) => self@.search_target(transaction_id, table@, index@) == Ok::<
                    (Schema, PageId, SlotView),
                    ErrorView,
                >((s.deep_view(), p, slot.deep_view())),
                Err(e) => self@.search_target(transaction_id, table@, index@) == Err::<
                    (Schema, PageId, SlotView),
                    ErrorView,
                >(e@),
            },
    {
        self.validate_transaction(transaction_id)?;
        let (schema, root): (SharedSchema, PageId) = self.catalog.table_schema_and_root(table)?;
        let slot = self.catalog.index_meta_and_root(table, index)?;
        Ok((schema, root, slot))
    }

    fn seen_with_key(
        &mut self,
        transaction_id: TransactionId,
        schema: &Schema,
        root: PageId,
        index: &IndexMeta,
        key: &[DbValue],
        ids: &Vec<RowId>,
    ) -> (r: DbResult<Vec<RowId>>)
        requires
            old(self)@.pager.sound(),
        ensures
            ({
                let model = old(self)@.rows_with_key(
                    transaction_id,
                    *schema,
                    root,
                    index@.columns,
                    key.deep_view(),
                    ids@,
                );
                final(self)@ == model.0 && ids_result(r) == model.1
            }),
            final(self)@.pager.sound(),
    {
        if ids.len() == 0 {
            let none: Vec<RowId> = Vec::new();
            assert(none@ =~= Seq::<RowId>::empty());
            return Ok(none);
        }
        let snapshot = self.snapshot_for_transaction(transaction_id)?;
        filter_index_row_ids_for_key(
            &self.pager,
            transaction_id,
            &snapshot,
            schema,
            root,
            index,
            key,
            ids,
        )
    }

    /// The rows of a table that a transaction sees with a key of an index.
    pub fn lookup_index(
        &mut self,
        transaction_id: TransactionId,
        schema_name: &str,
        index_name: &str,
        key: &[DbValue],
    ) -> (r: DbResult<Vec<RowId>>)
        requires
            old(self)@.pager.sound(),
        ensures
            ({
                let model = old(self)@.looked_up(
                    transaction_id,
                    schema_name@,
                    index_name@,
                    key.deep_view(),
                );
                final(self)@ == model.0 && ids_result(r) == model.1
            }),
            final(self)@.pager.sound(),
            forall|tables: Tables| #[trigger]
                rows_in(old(self)@, tables) ==> rows_in(final(self)@, tables),
    {
        let ghost start = self@;
        proof {
            lemma_same_trees(
                start,
                start.looked_up(
                    transaction_id,
                    schema_name@,
                    index_name@,
                    key.deep_view(),
                ).0,
            );
        }
        let (schema, root, slot): (SharedSchema, PageId, IndexSlot) = self.find_search_target(
            transaction_id,
            schema_name,
            index_name,
        )?;
        if key.len() != slot.meta.columns.len() {
            return Err(
                fail_key(
                    slot.meta.name.as_str(),
                    " expected ",
                    slot.meta.columns.len(),
                    key.len(),
                ),
            );
        }
        let locked = self.pager.txns_mut().acquire_exact_key_lock(
            transaction_id,
            schema_name,
            index_name,
            key,
        );
        assert(self@ =~= start.with_txns(self@.pager.txns));
        assert(start =~= start.with_txns(start.pager.txns));
        locked?;
        match encode_index_key(key) {
            Err(e) => Err(e),
            Ok(bytes) => match list_rows(&self.pager, slot.root, bytes.as_slice())? {
                None => {
                    let none: Vec<RowId> = Vec::new();
                    assert(none@ =~= Seq::<RowId>::empty());
                    Ok(none)
                },
                Some(ids) => self.seen_with_key(
                    transaction_id,
                    &schema.schema,
                    root,
                    &slot.meta,
                    key,
                    &ids,
                ),
            },
        }
    }

    fn gather_entry(
        &mut self,
        transaction_id: TransactionId,
        schema: &Schema,
        root: PageId,
        index: &IndexMeta,
        want: &Want,
        entry: &LeafEntry<ByteKey>,
    ) -> (r: DbResult<Vec<RowId>>)
        requires
            old(self)@.pager.sound(),
        ensures
            ({
                let model = old(self)@.entry_gathered(
                    transaction_id,
                    *schema,
                    root,
                    index@.columns,
                    want.model(),
                    entry.deep_view(),
                );
                final(self)@ == model.0 && ids_result(r) == model.1
            }),
            final(self)@.pager.sound(),
    {
        let key = decode_index_key(entry.key.bytes.as_slice())?;
        if !wants(want, &key) {
            let none: Vec<RowId> = Vec::new();
            assert(none@ =~= Seq::<RowId>::empty());
            return Ok(none);
        }
        let ids = decode_row_ids(entry.value.as_slice())?;
        self.seen_with_key(transaction_id, schema, root, index, key.as_slice(), &ids)
    }

    fn gather(
        &mut self,
        transaction_id: TransactionId,
        schema: &Schema,
        root: PageId,
        slot: &IndexSlot,
        want: &Want,
    ) -> (r: DbResult<Vec<RowId>>)
        requires
            old(self)@.pager.sound(),
        ensures
            ({
                let model = old(self)@.gathered(
                    transaction_id,
                    *schema,
                    root,
                    slot.deep_view(),
                    want.model(),
                );
                final(self)@ == model.0 && ids_result(r) == model.1
            }),
            final(self)@.pager.sound(),
    {
        let tree = IndexTree::from_root(slot.root);
        let entries: Vec<LeafEntry<ByteKey>> = tree.scan_all(&self.pager)?;
        let ghost all = entries.deep_view();
        let ghost columns = slot.meta@.columns;
        let ghost start = self@;
        let ghost whole = start.gathered_from(
            transaction_id,
            *schema,
            root,
            columns,
            want.model(),
            all,
            0,
            Set::empty(),
        );
        let mut out: OrdSet<RowId> = OrdSet::new();
        let mut i: usize = 0;
        while i < entries.len()
            invariant
                i <= entries@.len(),
                all == entries.deep_view(),
                columns == slot.meta@.columns,
                start == old(self)@,
                all_entries::<ByteKey>(start.pager, slot.root) == Ok::<_, ErrorView>(all),
                self@.pager.sound(),
                whole == start.gathered_from(
                    transaction_id,
                    *schema,
                    root,
                    columns,
                    want.model(),
                    all,
                    0,
                    Set::empty(),
                ),
                self@.gathered_from(
                    transaction_id,
                    *schema,
                    root,
                    columns,
                    want.model(),
                    all,
                    i as int,
                    out@,
                ) == whole,
            decreases entries@.len() - i,
        {
            assert(all[i as int] == entries@[i as int].deep_view());
            let ids = self.gather_entry(
                transaction_id,
                schema,
                root,
                &slot.meta,
                want,
                &entries[i],
            )?;
            add_ids(&mut out, &ids);
            i = i + 1;
        }
        Ok(id_list(&out))
    }

    /// The rows of a table that a transaction sees with the first values of a key of an index.
    pub fn scan_index_prefix(
        &mut self,
        transaction_id: TransactionId,
        schema_name: &str,
        index_name: &str,
        key_prefix: &[DbValue],
    ) -> (r: DbResult<Vec<RowId>>)
        requires
            old(self)@.pager.sound(),
        ensures
            ({
                let model = old(self)@.prefix_scanned(
                    transaction_id,
                    schema_name@,
                    index_name@,
                    key_prefix.deep_view(),
                );
                final(self)@ == model.0 && ids_result(r) == model.1
            }),
            final(self)@.pager.sound(),
            forall|tables: Tables| #[trigger]
                rows_in(old(self)@, tables) ==> rows_in(final(self)@, tables),
    {
        let ghost start = self@;
        proof {
            lemma_prefix_scanned(
                start,
                transaction_id,
                schema_name@,
                index_name@,
                key_prefix.deep_view(),
            );
            lemma_same_trees(
                start,
                start.prefix_scanned(
                    transaction_id,
                    schema_name@,
                    index_name@,
                    key_prefix.deep_view(),
                ).0,
            );
        }
        let (schema, root, slot): (SharedSchema, PageId, IndexSlot) = self.find_search_target(
            transaction_id,
            schema_name,
            index_name,
        )?;
        if key_prefix.len() > slot.meta.columns.len() {
            return Err(
                fail_key(
                    slot.meta.name.as_str(),
                    " expected at most ",
                    slot.meta.columns.len(),
                    key_prefix.len(),
                ),
            );
        }
        let locked = self.pager.txns_mut().acquire_prefix_lock(
            transaction_id,
            schema_name,
            index_name,
            key_prefix,
        );
        assert(self@ =~= start.with_txns(self@.pager.txns));
        assert(start =~= start.with_txns(start.pager.txns));
        locked?;
        let want = Want { prefix: key_prefix, ranged: false, lower: None, upper: None };
        self.gather(transaction_id, &schema.schema, root, &slot, &want)
    }

    /// The rows of a table that a transaction sees with the first values of a key of an index
    /// and the next value inside bounds.
    pub fn scan_index_range(
        &mut self,
        transaction_id: TransactionId,
        schema_name: &str,
        index_name: &str,
        key_prefix: &[DbValue],
        lower: Option<(CompareOp, &DbValue)>,
        upper: Option<(CompareOp, &DbValue)>,
    ) -> (r: DbResult<Vec<RowId>>)
        requires
            old(self)@.pager.sound(),
        ensures
            ({
                let model = old(self)@.range_scanned(
                    transaction_id,
                    schema_name@,
                    index_name@,
                    key_prefix.deep_view(),
                    given_bound(lower),
                    given_bound(upper),
                );
                final(self)@ == model.0 && ids_result(r) == model.1
            }),
            final(self)@.pager.sound(),
            forall|tables: Tables| #[trigger]
                rows_in(old(self)@, tables) ==> rows_in(final(self)@, tables),
    {
        let ghost start = self@;
        proof {
            lemma_range_scanned(
                start,
                transaction_id,
                schema_name@,
                index_name@,
                key_prefix.deep_view(),
                given_bound(lower),
                given_bound(upper),
            );
            lemma_same_trees(
                start,
                start.range_scanned(
                    transaction_id,
                    schema_name@,
                    index_name@,
                    key_prefix.deep_view(),
                    given_bound(lower),
                    given_bound(upper),
                ).0,
            );
        }
        let (schema, root, slot): (SharedSchema, PageId, IndexSlot) = self.find_search_target(
            transaction_id,
            schema_name,
            index_name,
        )?;
        if key_prefix.len() >= slot.meta.columns.len() {
            let mut message = "index ".to_owned();
            message.append(slot.meta.name.as_str());
            message.append(" has no range column after prefix of length ");
            message.append(u64_text(key_prefix.len() as u64).as_str());
            return Err(DbError::storage(message.as_str()));
        }
        let locked = self.pager.txns_mut().acquire_range_lock(
            transaction_id,
            schema_name,
            index_name,
            key_prefix,
            lower,
            upper,
        );
        assert(self@ =~= start.with_txns(self@.pager.txns));
        assert(start =~= start.with_txns(start.pager.txns));
        locked?;
        let want = Want { prefix: key_prefix, ranged: true, lower, upper };
        self.gather(transaction_id, &schema.schema, root, &slot, &want)
    }
}

/// Indexes in the order of their names.
pub open spec fn listed_indexes(by_name: Map<Seq<char>, IndexView>) -> Seq<IndexView> {
    sorted::<String>(by_name.dom()).map_values(|n: Seq<char>| by_name[n])
}

/// Adds numbers of rows to a set.
pub fn add_ids(out: &mut OrdSet<RowId>, ids: &Vec<RowId>)
    ensures
        final(out)@ == old(out)@.union(ids@.to_set()),
{
    let ghost before = out@;
    let mut i: usize = 0;
    while i < ids.len()
        invariant
            i <= ids@.len(),
            before == old(out)@,
            out@ == before.union(ids@.take(i as int).to_set()),
        decreases ids@.len() - i,
    {
        out.insert(ids[i]);
        proof {
            let a = ids@.take(i as int);
            let b = ids@.take(i + 1);
            assert(b =~= a.push(ids@[i as int]));
            assert forall|x: RowId| #[trigger] b.to_set().contains(x) <==> a.to_set().contains(x)
                || x == ids@[i as int] by {
                if b.contains(x) {
                    let k = choose|k: int| 0 <= k < b.len() && b[k] == x;
                    if k < i {
                        assert(a[k] == x);
                    }
                }
                if a.contains(x) {
                    let k = choose|k: int| 0 <= k < a.len() && a[k] == x;
                    assert(b[k] == x);
                }
                assert(b[i as int] == ids@[i as int]);
            }
            assert(out@ =~= before.union(b.to_set()));
        }
        i = i + 1;
    }
    assert(ids@.take(i as int) =~= ids@);
}

/// Numbers of rows as a list in ascending order.
pub fn id_list(ids: &OrdSet<RowId>) -> (r: Vec<RowId>)
    ensures
        r@ == sorted::<RowId>(ids@),
{
    let total: usize = ids.len();
    let mut out: Vec<RowId> = Vec::new();
    let mut i: usize = 0;
    while i < total
        invariant
            i <= total,
            total == ids.keys().len(),
            out@ =~= ids.keys().take(i as int),
        decreases total - i,
    {
        out.push(*ids.item_at(i));
        i = i + 1;
    }
    proof {
        assert(ids.keys().take(i as int) =~= ids.keys());
        lemma_is_sorted::<RowId>(ids.keys(), ids@);
    }
    out
}

} // verus!
