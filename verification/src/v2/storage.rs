//! The storage engine: rows of tables with their indexes, kept in pages.

use vstd::prelude::*;

use crate::common::error::{bare, storage, DbError, DbResult, ErrorCode, ErrorView};
use crate::common::json::json_bytes;
use crate::common::ordmap::{Duplicate, OrdMap};
use crate::common::ordset::lemma_is_sorted;
use crate::common::schema::{IndexMeta, Schema};
use crate::common::text::u64_text;
use crate::common::value::{
    copy_values, same_values, DbValue, IsolationLevel, Row, RowId, SqlValue, TransactionId,
};
use crate::v2::btree::{BTree, IndexTree};
use crate::v2::catalog::{CatalogState, SharedSchema};
use crate::v2::codec::{
    decode_row_ids, encode_index_key, encode_row_ids, encode_uncommitted_row_version, fresh,
    project_index_key, seen_row, versions_json, visible_row, Held, VersionView,
};
use crate::v2::locks::{IndexKey, IndexKeyView};
use crate::v2::page::PageId;
use crate::v2::pager::{lemma_waits_kept, Pager};
use crate::v2::storage_model::{
    entry_added, entry_removed, ids_without, indexes_of, keys_from, listed, named_keys, no_root,
    no_table, not_unique, ordered, placed, rivals, roots_of, row_keys, seen_at, seen_rows,
    seen_rows_from, slots, slots_from, table_of, uniqueness, with_index_root, with_key,
    with_key_from, with_table_root, wrong_count, FaultsView, PlanView, RowView, SlotView,
    StorageModel,
};
use crate::v2::tables::{
    lemma_index_put, lemma_lists_seen, lemma_row_put, lemma_same_trees, lemma_slots_alike,
    lemma_slots_kept, lemma_table_held, lemma_unchanged, lists_seen, rows_in, seen_in, slot_stands,
    slots_stand, starts_at, stored, tree_changed, with_versions, Tables,
};
use crate::v2::tree::all_entries;
use crate::v2::tree_node::{ByteKey, EntryView, LeafEntry};
use crate::v2::tree_shape::{lists_contents, tree_holds};
use crate::v2::tx_types::{SnapshotView, TxnSnapshot, TxnStatus, UndoRecord};

verus! {

/// The storage engine: the pages with their transactions, the catalog, and the catalog as it
/// was when each transaction began.
pub struct FileStorage {
    pub pager: Pager,
    pub catalog: CatalogState,
    pub sessions: OrdMap<TransactionId, CatalogState>,
}

impl View for FileStorage {
    type V = StorageModel;

    open spec fn view(&self) -> StorageModel {
        StorageModel {
            pager: self.pager@,
            catalog: self.catalog@,
            sessions: self.sessions@,
        }
    }
}

/// An index of a table, and where it starts.
pub struct IndexSlot {
    pub name: String,
    pub meta: IndexMeta,
    pub root: PageId,
}

impl DeepView for IndexSlot {
    type V = SlotView;

    open spec fn deep_view(&self) -> SlotView {
        SlotView { name: self.name@, meta: self.meta@, root: self.root }
    }
}

/// What a row is to be written with: its table, the indexes of the table, and the key of the
/// row in each.
pub struct WritePlan {
    pub schema: SharedSchema,
    pub root: PageId,
    pub slots: Vec<IndexSlot>,
    pub keys: Vec<Vec<DbValue>>,
}

impl DeepView for WritePlan {
    type V = PlanView;

    open spec fn deep_view(&self) -> PlanView {
        PlanView {
            schema: self.schema.deep_view(),
            root: self.root,
            slots: self.slots.deep_view(),
            keys: self.keys.deep_view(),
        }
    }
}

/// Outcomes of checking a row, which the caller brings along: of its values alone, and of its
/// key against the rows that are there.
pub struct RowFaults {
    pub values: Option<DbError>,
    pub key: Option<DbError>,
}

/// The model of an optional error.
pub open spec fn fault_view(e: Option<DbError>) -> Option<ErrorView> {
    match e {
        Some(x) => Some(x@),
        None => None,
    }
}

impl View for RowFaults {
    type V = FaultsView;

    open spec fn view(&self) -> FaultsView {
        FaultsView { values: fault_view(self.values), key: fault_view(self.key) }
    }
}

/// Whether a result and what it leaves behind are what the model says.
pub open spec fn engine_step<T>(
    r: DbResult<T>,
    after: StorageModel,
    model: (StorageModel, Result<T, ErrorView>),
) -> bool {
    &&& after == model.0
    &&& match r {
        Ok(v) => model.1 == Ok::<T, ErrorView>(v),
        Err(e) => model.1 == Err::<T, ErrorView>(e@),
    }
}

impl FileStorage {
    /// Copies the engine.
    pub fn copy(&self) -> (r: FileStorage)
        ensures
            r@ == self@,
    {
        FileStorage {
            pager: self.pager.copy(),
            catalog: self.catalog.duplicate(),
            sessions: self.sessions.duplicate(),
        }
    }

    /// Asks for a page that a transaction has to wait for. A statement that came to the page
    /// is taken back by going back to a copy first, and run again once the page is granted.
    pub fn acquire_page_write_lock(&mut self, transaction_id: TransactionId, page_id: PageId) -> (r:
        DbResult<()>)
        requires
            old(self)@.pager.sound(),
        ensures
            engine_step(r, final(self)@, old(self)@.page_asked(transaction_id, page_id)),
            final(self)@.pager.sound(),
    {
        self.pager.acquire_page_write_lock(transaction_id.0, page_id)
    }
}

// ---------------------------------------------------------------------------
// Messages

fn fail_two(start: &str, a: &str, middle: &str, b: &str) -> (r: DbError)
    ensures
        r@ == storage(start@ + a@ + middle@ + b@),
{
    let mut message = start.to_owned();
    message.append(a);
    message.append(middle);
    message.append(b);
    DbError::storage(message.as_str())
}

/// The failure of a table that there is not.
pub fn fail_no_table(table: &str) -> (r: DbError)
    ensures
        r@ == no_table(table@),
{
    let mut message = "unknown table: ".to_owned();
    message.append(table);
    DbError::storage(message.as_str())
}

/// The failure of an index without a start.
pub fn fail_no_root(index: &str, table: &str) -> (r: DbError)
    ensures
        r@ == no_root(index@, table@),
{
    fail_two("missing index root for ", index, " on table ", table)
}

/// The failure of an index that there is not.
pub fn fail_no_index(index: &str, table: &str) -> (r: DbError)
    ensures
        r@ == crate::v2::storage_model::no_index(index@, table@),
{
    fail_two("unknown index ", index, " on table ", table)
}

/// The failure of a row with the wrong number of values.
pub fn fail_wrong_count(start: &str, table: &str, want: usize, got: usize) -> (r: DbError)
    ensures
        r@ == wrong_count(start@, table@, want as nat, got as nat),
{
    let mut message = start.to_owned();
    message.append(table);
    message.append(" expected ");
    message.append(u64_text(want as u64).as_str());
    message.append(" values but got ");
    message.append(u64_text(got as u64).as_str());
    DbError::storage(message.as_str())
}

/// The failure of a row that is not the only one with its key.
pub fn fail_not_unique(index: &str) -> (r: DbError)
    ensures
        r@ == not_unique(index@),
{
    let mut message = "unique index ".to_owned();
    message.append(index);
    message.append(" constraint failed");
    DbError::storage(message.as_str())
}

// ---------------------------------------------------------------------------
// Lists of rows in indexes

fn place_id(ids: &mut Vec<RowId>, id: RowId)
    ensures
        final(ids)@ == placed(old(ids)@, id),
    decreases old(ids)@.len(),
{
    let count: usize = ids.len();
    if count == 0 {
        ids.push(id);
        assert(ids@ =~= seq![id]);
        return;
    }
    let last: RowId = ids[count - 1];
    if last.0 <= id.0 {
        ids.push(id);
        return;
    }
    let ghost before = ids@;
    ids.pop();
    assert(ids@ =~= before.drop_last());
    place_id(ids, id);
    ids.push(last);
}

fn order_ids(ids: &Vec<RowId>) -> (r: Vec<RowId>)
    ensures
        r@ == ordered(ids@),
{
    let mut out: Vec<RowId> = Vec::new();
    let mut i: usize = 0;
    assert(ids@.take(0) =~= Seq::empty());
    while i < ids.len()
        invariant
            i <= ids@.len(),
            out@ == ordered(ids@.take(i as int)),
        decreases ids@.len() - i,
    {
        assert(ids@.take(i + 1).drop_last() =~= ids@.take(i as int));
        assert(ids@.take(i + 1).last() == ids@[i as int]);
        place_id(&mut out, ids[i]);
        i = i + 1;
    }
    assert(ids@.take(i as int) =~= ids@);
    out
}

/// Whether a list holds a row.
pub fn lists(ids: &Vec<RowId>, id: RowId) -> (r: bool)
    ensures
        r == ids@.contains(id),
{
    let mut i: usize = 0;
    while i < ids.len()
        invariant
            i <= ids@.len(),
            forall|k: int| 0 <= k < i ==> #[trigger] ids@[k] != id,
        decreases ids@.len() - i,
    {
        if ids[i] == id {
            assert(ids@[i as int] == id);
            return true;
        }
        i = i + 1;
    }
    false
}

/// A list of rows without one.
pub fn without_id(ids: &Vec<RowId>, id: RowId) -> (r: Vec<RowId>)
    ensures
        r@ == ids_without(ids@, id),
{
    let mut out: Vec<RowId> = Vec::new();
    let mut i: usize = 0;
    let ghost keep = |x: RowId| x != id;
    assert(ids@.take(0) =~= Seq::empty());
    assert(out@ =~= ids_without(ids@.take(0), id)) by {
        reveal(Seq::filter);
    }
    while i < ids.len()
        invariant
            i <= ids@.len(),
            out@ == ids_without(ids@.take(i as int), id),
        decreases ids@.len() - i,
    {
        let item: RowId = ids[i];
        proof {
            assert(ids@.take(i + 1).drop_last() =~= ids@.take(i as int));
            assert(ids@.take(i + 1).last() == item);
            reveal(Seq::filter);
        }
        if item != id {
            out.push(item);
        }
        i = i + 1;
    }
    assert(ids@.take(i as int) =~= ids@);
    out
}

/// The model of an optional list of rows or an error.
pub open spec fn listed_view(r: DbResult<Option<Vec<RowId>>>) -> Result<
    Option<Seq<RowId>>,
    ErrorView,
> {
    match r {
        Ok(Some(v)) => Ok(Some(v@)),
        Ok(None) => Ok(None),
        Err(e) => Err(e@),
    }
}

/// The rows that an index lists under a key.
pub fn list_rows(pager: &Pager, root: PageId, key: &[u8]) -> (r: DbResult<Option<Vec<RowId>>>)
    ensures
        listed_view(r) == listed(pager@, root, key@),
{
    let tree = IndexTree::from_root(root);
    match tree.get(pager, key)? {
        None => Ok(None),
        Some(bytes) => {
            let ids = decode_row_ids(bytes.as_slice())?;
            Ok(Some(ids))
        },
    }
}

/// Lets an index list a row under a key; hands back the root of the index.
pub fn upsert_index_entry(pager: &mut Pager, txn_id: u64, root: PageId, key: &[u8], row_id: RowId) -> (r:
    DbResult<PageId>)
    requires
        old(pager)@.sound(),
    ensures
        crate::v2::pager::step(
            r,
            final(pager)@,
            entry_added(old(pager)@, txn_id, root, key@, row_id),
        ),
        forall|pages: Set<PageId>, c: Map<Seq<u8>, Seq<u8>>| #[trigger]
            tree_holds::<ByteKey>(old(pager)@, root, pages, c) && r is Ok ==> tree_changed::<
                ByteKey,
            >(old(pager)@, pages, final(pager)@, r->Ok_0),
        final(pager)@.sound(),
{
    let before: Vec<RowId> = match list_rows(pager, root, key)? {
        Some(ids) => ids,
        None => Vec::new(),
    };
    let after: Vec<RowId> = if lists(&before, row_id) {
        before
    } else {
        let mut longer = before;
        longer.push(row_id);
        order_ids(&longer)
    };
    match encode_row_ids(after.as_slice()) {
        Err(e) => Err(e),
        Ok(bytes) => {
            let mut tree = IndexTree::from_root(root);
            tree.insert(pager, txn_id, key, bytes.as_slice())?;
            Ok(tree.root_page_id())
        },
    }
}

/// Lets an index list a row under a key no more; hands back the root of the index.
pub fn remove_row_id_from_index_entry(
    pager: &mut Pager,
    txn_id: u64,
    root: PageId,
    key: &[u8],
    row_id: RowId,
) -> (r: DbResult<PageId>)
    requires
        old(pager)@.sound(),
    ensures
        crate::v2::pager::step(
            r,
            final(pager)@,
            entry_removed(old(pager)@, txn_id, root, key@, row_id),
        ),
        forall|pages: Set<PageId>, c: Map<Seq<u8>, Seq<u8>>| #[trigger]
            tree_holds::<ByteKey>(old(pager)@, root, pages, c) && r is Ok ==> tree_changed::<
                ByteKey,
            >(old(pager)@, pages, final(pager)@, r->Ok_0),
        final(pager)@.sound(),
{
    proof {
        lemma_unchanged::<ByteKey>(pager@, root);
    }
    match list_rows(pager, root, key)? {
        None => Ok(root),
        Some(ids) => {
            let left = without_id(&ids, row_id);
            let mut tree = IndexTree::from_root(root);
            if left.len() == 0 {
                tree.delete(pager, txn_id, key)?;
                return Ok(root);
            }
            match encode_row_ids(left.as_slice()) {
                Err(e) => Err(e),
                Ok(bytes) => {
                    tree.insert(pager, txn_id, key, bytes.as_slice())?;
                    Ok(tree.root_page_id())
                },
            }
        },
    }
}

// ---------------------------------------------------------------------------
// What is seen

/// What a transaction sees of a row of a table.
pub fn visible_row_at_root(
    pager: &Pager,
    txn_id: TransactionId,
    snapshot: &TxnSnapshot,
    root: PageId,
    row_id: RowId,
) -> (r: DbResult<Option<Row>>)
    ensures
        crate::v2::codec::opt_row_result(r) == seen_at(
            pager@,
            txn_id,
            snapshot.deep_view(),
            root,
            row_id,
        ),
        forall|pages: Set<PageId>, rows: Map<u64, Held>| #[trigger]
            tree_holds::<u64>(pager@, root, pages, stored(rows))
                ==> crate::v2::codec::opt_row_result(r) == Ok::<_, ErrorView>(
                seen_in(rows, row_id.0, txn_id.0, snapshot.deep_view()),
            ),
{
    let tree = BTree::from_root(root);
    let got = tree.get(pager, row_id.0);
    proof {
        assert forall|pages: Set<PageId>, rows: Map<u64, Held>| #[trigger]
            tree_holds::<u64>(pager@, root, pages, stored(rows)) implies {
            if rows.dom().contains(row_id.0) {
                crate::v2::tree::value_result(got) == Ok::<_, ErrorView>(
                    Some(rows[row_id.0].bytes()),
                )
            } else {
                crate::v2::tree::value_result(got) == Ok::<Option<Seq<u8>>, ErrorView>(None)
            }
        } by {
            assert(stored(rows).dom().contains(row_id.0) <==> rows.dom().contains(row_id.0));
        }
    }
    match got? {
        None => Ok(None),
        Some(bytes) => visible_row(bytes.as_slice(), txn_id.0, snapshot),
    }
}

/// The model of a list of rows or an error.
pub open spec fn ids_result(r: DbResult<Vec<RowId>>) -> Result<Seq<RowId>, ErrorView> {
    match r {
        Ok(v) => Ok(v@),
        Err(e) => Err(e@),
    }
}

/// The rows of a list that a transaction sees with a key.
pub fn filter_index_row_ids_for_key(
    pager: &Pager,
    txn_id: TransactionId,
    snapshot: &TxnSnapshot,
    schema: &Schema,
    root: PageId,
    index: &IndexMeta,
    key: &[DbValue],
    ids: &Vec<RowId>,
) -> (r: DbResult<Vec<RowId>>)
    ensures
        ids_result(r) == with_key(
            pager@,
            txn_id,
            snapshot.deep_view(),
            *schema,
            root,
            index@.columns,
            key.deep_view(),
            ids@,
        ),
{
    let mut out: Vec<RowId> = Vec::new();
    let mut i: usize = 0;
    while i < ids.len()
        invariant
            i <= ids@.len(),
            with_key_from(
                pager@,
                txn_id,
                snapshot.deep_view(),
                *schema,
                root,
                index@.columns,
                key.deep_view(),
                ids@,
                i as int,
                out@,
            ) == with_key(
                pager@,
                txn_id,
                snapshot.deep_view(),
                *schema,
                root,
                index@.columns,
                key.deep_view(),
                ids@,
            ),
        decreases ids@.len() - i,
    {
        match visible_row_at_root(pager, txn_id, snapshot, root, ids[i])? {
            None => {},
            Some(row) => {
                let other = project_index_key(schema, index, &row)?;
                if same_values(other.as_slice(), key) {
                    out.push(ids[i]);
                }
            },
        }
        i = i + 1;
    }
    Ok(out)
}

/// A row with its number.
#[derive(Debug)]
pub struct StoredRow {
    pub id: RowId,
    pub row: Row,
}

impl DeepView for StoredRow {
    type V = RowView;

    open spec fn deep_view(&self) -> RowView {
        RowView { id: self.id, row: self.row.deep_view() }
    }
}

/// The model of rows or an error.
pub open spec fn rows_result(r: DbResult<Vec<StoredRow>>) -> Result<Seq<RowView>, ErrorView> {
    match r {
        Ok(v) => Ok(v.deep_view()),
        Err(e) => Err(e@),
    }
}

fn is_skipped(skip: Option<RowId>, key: u64) -> (r: bool)
    ensures
        r == (skip == Some(RowId(key))),
{
    match skip {
        Some(id) => id.0 == key,
        None => false,
    }
}

/// The rows of a table that a transaction sees, but for one.
pub fn visible_rows(
    pager: &Pager,
    root: PageId,
    txn_id: TransactionId,
    snapshot: &TxnSnapshot,
    skip: Option<RowId>,
) -> (r: DbResult<Vec<StoredRow>>)
    ensures
        rows_result(r) == seen_rows(pager@, root, txn_id, snapshot.deep_view(), skip),
        forall|pages: Set<PageId>, rows: Map<u64, Held>| #[trigger]
            tree_holds::<u64>(pager@, root, pages, stored(rows)) && skip is None ==> r is Ok
                && lists_seen(r->Ok_0.deep_view(), rows, txn_id.0, snapshot.deep_view()),
{
    let tree = BTree::from_root(root);
    let entries: Vec<LeafEntry<u64>> = tree.scan_all(pager)?;
    let ghost all = entries.deep_view();
    let mut out: Vec<StoredRow> = Vec::new();
    assert(out.deep_view() =~= Seq::<RowView>::empty());
    let mut i: usize = 0;
    while i < entries.len()
        invariant
            i <= entries@.len(),
            all == entries.deep_view(),
            all_entries::<u64>(pager@, root) == Ok::<_, ErrorView>(all),
            seen_rows_from(all, txn_id, snapshot.deep_view(), skip, i as int, out.deep_view())
                == seen_rows(pager@, root, txn_id, snapshot.deep_view(), skip),
            forall|pages: Set<PageId>, rows: Map<u64, Held>| #[trigger]
                tree_holds::<u64>(pager@, root, pages, stored(rows)) ==> lists_contents::<u64>(
                    all,
                    stored(rows),
                ),
            forall|pages: Set<PageId>, rows: Map<u64, Held>, k: int|
                #![trigger tree_holds::<u64>(pager@, root, pages, stored(rows)), all[k]]
                tree_holds::<u64>(pager@, root, pages, stored(rows)) && skip is None && 0 <= k < i
                    ==> seen_row(all[k].value, txn_id.0, snapshot.deep_view()) == Ok::<
                    _,
                    ErrorView,
                >(seen_in(rows, all[k].key, txn_id.0, snapshot.deep_view())),
        decreases entries@.len() - i,
    {
        assert(all[i as int] == entries@[i as int].deep_view());
        proof {
            assert forall|pages: Set<PageId>, rows: Map<u64, Held>| #[trigger]
                tree_holds::<u64>(pager@, root, pages, stored(rows)) implies {
                &&& rows.dom().contains(all[i as int].key)
                &&& all[i as int].value == rows[all[i as int].key].bytes()
            } by {
                let e = all[i as int];
                assert(all[i as int] == (EntryView { key: e.key, value: e.value }));
                assert(crate::v2::tree_shape::listed(all, e.key, e.value));
            }
        }
        if !is_skipped(skip, entries[i].key) {
            match visible_row(entries[i].value.as_slice(), txn_id.0, snapshot)? {
                None => {},
                Some(row) => {
                    let ghost before = out.deep_view();
                    let item = StoredRow { id: RowId(entries[i].key), row };
                    out.push(item);
                    assert(out.deep_view() =~= before.push(item.deep_view()));
                },
            }
        }
        i = i + 1;
    }
    proof {
        assert forall|pages: Set<PageId>, rows: Map<u64, Held>| #[trigger]
            tree_holds::<u64>(pager@, root, pages, stored(rows)) && skip is None implies lists_seen(
            out.deep_view(),
            rows,
            txn_id.0,
            snapshot.deep_view(),
        ) by {
            lemma_lists_seen(all, rows, txn_id, snapshot.deep_view(), out.deep_view());
        }
    }
    Ok(out)
}

// ---------------------------------------------------------------------------
// The catalog

/// The model of a table and its start, or an error.
pub open spec fn table_result(r: DbResult<(SharedSchema, PageId)>) -> Result<
    (Schema, PageId),
    ErrorView,
> {
    match r {
        Ok((s, p)) => Ok((s.deep_view(), p)),
        Err(e) => Err(e@),
    }
}

/// The model of indexes or an error.
pub open spec fn slots_result(r: DbResult<Vec<IndexSlot>>) -> Result<Seq<SlotView>, ErrorView> {
    match r {
        Ok(v) => Ok(v.deep_view()),
        Err(e) => Err(e@),
    }
}

impl CatalogState {
    /// The definition of a table, and where it starts.
    pub fn table_schema_and_root(&self, table: &str) -> (r: DbResult<(SharedSchema, PageId)>)
        ensures
            table_result(r) == table_of(self@, table@),
    {
        let name: String = table.to_owned();
        match self.schemas.get(&name) {
            None => Err(fail_no_table(table)),
            Some(schema) => match self.table_roots.get(&name) {
                None => {
                    let mut message = "missing table root for ".to_owned();
                    message.append(table);
                    Err(DbError::storage(message.as_str()))
                },
                Some(root) => Ok((schema.duplicate(), *root)),
            },
        }
    }

    /// Where an index of a table starts.
    pub fn index_root(&self, table: &String, index: &String) -> (r: Option<PageId>)
        ensures
            match r {
                Some(p) => roots_of(self@, table@).dom().contains(index@) && roots_of(
                    self@,
                    table@,
                )[index@] == p,
                None => !roots_of(self@, table@).dom().contains(index@),
            },
    {
        match self.index_roots.get(table) {
            None => None,
            Some(roots) => match roots.get(index) {
                None => None,
                Some(p) => Some(*p),
            },
        }
    }

    /// An index of a table, and where it starts.
    pub fn index_meta_and_root(&self, table: &str, index: &str) -> (r: DbResult<IndexSlot>)
        ensures
            match r {
                Ok(slot) => crate::v2::storage_model::index_of(self@, table@, index@) == Ok::<
                    SlotView,
                    ErrorView,
                >(slot.deep_view()),
                Err(e) => crate::v2::storage_model::index_of(self@, table@, index@) == Err::<
                    SlotView,
                    ErrorView,
                >(e@),
            },
    {
        let name: String = table.to_owned();
        let index_name: String = index.to_owned();
        match self.indexes.get(&name) {
            None => Err(fail_no_index(index, table)),
            Some(by_name) => match by_name.get(&index_name) {
                None => Err(fail_no_index(index, table)),
                Some(meta) => match self.index_root(&name, &index_name) {
                    None => Err(fail_no_root(index, table)),
                    Some(root) => Ok(
                        IndexSlot { name: index_name, meta: meta.duplicate(), root },
                    ),
                },
            },
        }
    }

    /// The indexes of a table, in the order of their names.
    pub fn indexes_for_table(&self, table: &str) -> (r: DbResult<Vec<IndexSlot>>)
        ensures
            slots_result(r) == slots(self@, table@),
            r matches Ok(list) ==> slots_stand(self@, table@, list.deep_view(), 0),
    {
        let name: String = table.to_owned();
        let mut out: Vec<IndexSlot> = Vec::new();
        assert(out.deep_view() =~= Seq::<SlotView>::empty());
        let by_name: &OrdMap<String, IndexMeta> = match self.indexes.get(&name) {
            None => {
                proof {
                    assert(Seq::<Seq<char>>::empty().to_set() =~= Set::<Seq<char>>::empty());
                    lemma_is_sorted::<String>(Seq::empty(), Set::empty());
                    assert(indexes_of(self@, table@).dom() =~= Set::empty());
                }
                return Ok(out);
            },
            Some(m) => m,
        };
        let total: usize = by_name.len();
        let ghost names = by_name.keys();
        proof {
            assert(names.to_set() =~= by_name@.dom());
            lemma_is_sorted::<String>(names, by_name@.dom());
        }
        let mut i: usize = 0;
        while i < total
            invariant
                i <= total,
                total == names.len(),
                names == by_name.keys(),
                name@ == table@,
                by_name@ == indexes_of(self@, table@),
                slots_from(self@, table@, names, i as int, out.deep_view()) == slots(self@, table@),
                out@.len() == i,
                forall|j: int|
                    0 <= j < i ==> slot_stands(self@, table@, #[trigger] out.deep_view()[j])
                        && out.deep_view()[j].name == names[j],
            decreases total - i,
        {
            let index_name: &String = by_name.key_at(i);
            let meta: &IndexMeta = by_name.value_at(i);
            match self.index_root(&name, index_name) {
                None => {
                    return Err(fail_no_root(index_name.as_str(), table));
                },
                Some(root) => {
                    let ghost before = out.deep_view();
                    let slot = IndexSlot { name: index_name.clone(), meta: meta.duplicate(), root };
                    out.push(slot);
                    assert(out.deep_view() =~= before.push(slot.deep_view()));
                },
            }
            i = i + 1;
        }
        Ok(out)
    }

    /// Notes where a table starts now.
    pub fn move_table(&mut self, table: &str, before: PageId, root: PageId)
        ensures
            final(self)@ == with_table_root(old(self)@, table@, before, root),
    {
        if root != before {
            self.table_roots.insert(table.to_owned(), root);
        }
    }

    /// Notes where an index of a table starts now.
    pub fn move_index(&mut self, table: &str, index: &str, before: PageId, root: PageId)
        ensures
            final(self)@ == with_index_root(old(self)@, table@, index@, before, root),
    {
        if root != before {
            let ghost start = self@;
            let name: String = table.to_owned();
            let mut roots: OrdMap<String, PageId> = match self.index_roots.remove(&name) {
                Some(m) => m,
                None => OrdMap::new(),
            };
            roots.insert(index.to_owned(), root);
            self.index_roots.insert(name, roots);
            assert(self@.index_roots =~= with_index_root(
                start,
                table@,
                index@,
                before,
                root,
            ).index_roots);
        }
    }
}

/// The model of keys or an error.
pub open spec fn keys_result(r: DbResult<Vec<Vec<DbValue>>>) -> Result<
    Seq<Seq<SqlValue>>,
    ErrorView,
> {
    match r {
        Ok(v) => Ok(v.deep_view()),
        Err(e) => Err(e@),
    }
}

/// The keys of a row in indexes.
pub fn project_keys(schema: &Schema, slots: &Vec<IndexSlot>, row: &Row) -> (r: DbResult<
    Vec<Vec<DbValue>>,
>)
    ensures
        keys_result(r) == row_keys(*schema, slots.deep_view(), row.deep_view()),
        r matches Ok(v) ==> v@.len() == slots@.len(),
{
    let ghost all = slots.deep_view();
    let mut out: Vec<Vec<DbValue>> = Vec::new();
    assert(out.deep_view() =~= Seq::<Seq<SqlValue>>::empty());
    let mut i: usize = 0;
    while i < slots.len()
        invariant
            i <= slots@.len(),
            out@.len() == i,
            all == slots.deep_view(),
            keys_from(*schema, all, row.deep_view(), i as int, out.deep_view()) == row_keys(
                *schema,
                all,
                row.deep_view(),
            ),
        decreases slots@.len() - i,
    {
        assert(all[i as int] == slots@[i as int].deep_view());
        let key = project_index_key(schema, &slots[i].meta, row)?;
        let ghost before = out.deep_view();
        out.push(key);
        assert(out.deep_view() =~= before.push(key.deep_view()));
        i = i + 1;
    }
    Ok(out)
}

/// The keys of a row with the names of their indexes.
pub fn name_keys(slots: &Vec<IndexSlot>, keys: &Vec<Vec<DbValue>>) -> (r: Vec<IndexKey>)
    requires
        slots@.len() == keys@.len(),
    ensures
        r.deep_view() == named_keys(slots.deep_view(), keys.deep_view()),
{
    let mut out: Vec<IndexKey> = Vec::new();
    let mut i: usize = 0;
    while i < slots.len()
        invariant
            i <= slots@.len(),
            slots@.len() == keys@.len(),
            out@.len() == i,
            forall|k: int|
                0 <= k < i ==> (#[trigger] out@[k]).deep_view() == (IndexKeyView {
                    index: slots@[k].meta@.name,
                    key: keys@[k].deep_view(),
                }),
        decreases slots@.len() - i,
    {
        out.push(
            IndexKey {
                index: slots[i].meta.name.clone(),
                key: copy_values(keys[i].as_slice()),
            },
        );
        i = i + 1;
    }
    assert(out.deep_view() =~= named_keys(slots.deep_view(), keys.deep_view()));
    out
}

// ---------------------------------------------------------------------------
// Uniqueness

fn count_rivals(
    pager: &Pager,
    txn_id: TransactionId,
    snapshot: &TxnSnapshot,
    plan: &WritePlan,
    i: usize,
    own: Option<RowId>,
) -> (r: DbResult<usize>)
    requires
        i < plan.slots@.len() == plan.keys@.len(),
    ensures
        match r {
            Ok(n) => rivals(
                pager@,
                txn_id,
                snapshot.deep_view(),
                plan.deep_view(),
                plan.deep_view().slots[i as int],
                plan.deep_view().keys[i as int],
                own,
            ) == Ok::<nat, ErrorView>(n as nat),
            Err(e) => rivals(
                pager@,
                txn_id,
                snapshot.deep_view(),
                plan.deep_view(),
                plan.deep_view().slots[i as int],
                plan.deep_view().keys[i as int],
                own,
            ) == Err::<nat, ErrorView>(e@),
        },
{
    let slot: &IndexSlot = &plan.slots[i];
    let key: &Vec<DbValue> = &plan.keys[i];
    assert(plan.deep_view().slots[i as int] == slot.deep_view());
    assert(plan.deep_view().keys[i as int] == key.deep_view());
    let bytes = match encode_index_key(key.as_slice()) {
        Ok(bytes) => bytes,
        Err(e) => {
            return Err(e);
        },
    };
    match list_rows(pager, slot.root, bytes.as_slice())? {
        None => Ok(0),
        Some(ids) => {
            let same = filter_index_row_ids_for_key(
                pager,
                txn_id,
                snapshot,
                &plan.schema.schema,
                plan.root,
                &slot.meta,
                key.as_slice(),
                &ids,
            )?;
            match own {
                None => Ok(same.len()),
                Some(id) => Ok(without_id(&same, id).len()),
            }
        },
    }
}

/// Checks that a row is the only one with its keys, as far as they must be.
pub fn check_uniqueness(
    pager: &Pager,
    txn_id: TransactionId,
    snapshot: &TxnSnapshot,
    plan: &WritePlan,
    own: Option<RowId>,
) -> (r: DbResult<()>)
    requires
        plan.slots@.len() == plan.keys@.len(),
    ensures
        match r {
            Ok(_) => uniqueness(pager@, txn_id, snapshot.deep_view(), plan.deep_view(), own, 0)
                == Ok::<(), ErrorView>(()),
            Err(e) => uniqueness(pager@, txn_id, snapshot.deep_view(), plan.deep_view(), own, 0)
                == Err::<(), ErrorView>(e@),
        },
{
    let mut i: usize = 0;
    while i < plan.slots.len()
        invariant
            i <= plan.slots@.len() == plan.keys@.len(),
            uniqueness(
                pager@,
                txn_id,
                snapshot.deep_view(),
                plan.deep_view(),
                own,
                i as int,
            ) == uniqueness(pager@, txn_id, snapshot.deep_view(), plan.deep_view(), own, 0),
        decreases plan.slots@.len() - i,
    {
        assert(plan.deep_view().slots[i as int] == plan.slots@[i as int].deep_view());
        assert(plan.deep_view().keys[i as int] == plan.keys@[i as int].deep_view());
        if plan.slots[i].meta.enforces_unique_key(plan.keys[i].as_slice()) {
            let n: usize = count_rivals(pager, txn_id, snapshot, plan, i, own)?;
            if n > 0 {
                return Err(fail_not_unique(plan.slots[i].meta.name.as_str()));
            }
        }
        i = i + 1;
    }
    Ok(())
}

// ---------------------------------------------------------------------------
// The engine

/// The model of a plan or an error.
pub open spec fn plan_result(r: DbResult<WritePlan>) -> Result<PlanView, ErrorView> {
    match r {
        Ok(p) => Ok(p.deep_view()),
        Err(e) => Err(e@),
    }
}

impl FileStorage {
    /// Checks that a transaction is active.
    pub fn validate_transaction(&self, transaction_id: TransactionId) -> (r: DbResult<()>)
        ensures
            match r {
                Ok(_) => self@.idle(transaction_id) is None,
                Err(e) => self@.idle(transaction_id) == Some(e@),
            },
    {
        match self.pager.transactions().status(transaction_id) {
            Ok(status) => {
                if status == TxnStatus::Active {
                    Ok(())
                } else {
                    Err(DbError::bare(ErrorCode::TxnNotActive(transaction_id.0)))
                }
            },
            Err(e) => Err(e),
        }
    }

    /// Checks a row to be written against the locks of other transactions.
    pub fn check_write_conflicts(
        &mut self,
        transaction_id: TransactionId,
        table: &str,
        keys: &Vec<IndexKey>,
    ) -> (r: DbResult<()>)
        requires
            old(self)@.pager.sound(),
        ensures
            engine_step(
                r,
                final(self)@,
                old(self)@.conflicts_checked(transaction_id, table@, keys.deep_view()),
            ),
            final(self)@.pager.sound(),
    {
        let ghost start = self@;
        if !self.pager.transactions().has_epoch_room() {
            return Err(DbError::bare(ErrorCode::LockEpochsUsedUp));
        }
        assert(start.pager.txns.epoch_has_room(transaction_id));
        let slice = keys.as_slice();
        assert(slice.deep_view() =~= keys.deep_view());
        let r = self.pager.txns_mut().check_write_conflicts(transaction_id, table, slice);
        assert(self@ =~= start.conflicts_checked(transaction_id, table@, keys.deep_view()).0);
        match r {
            Ok(_) => Ok(()),
            Err(e) => Err(e),
        }
    }

    /// The snapshot that a transaction reads by.
    pub fn snapshot_for_transaction(&mut self, transaction_id: TransactionId) -> (r: DbResult<
        TxnSnapshot,
    >)
        requires
            old(self)@.pager.sound(),
        ensures
            final(self)@ == old(self)@.snapshot_of(transaction_id).0,
            match r {
                Ok(s) => old(self)@.snapshot_of(transaction_id).1 == Ok::<SnapshotView, ErrorView>(
                    s.deep_view(),
                ),
                Err(e) => old(self)@.snapshot_of(transaction_id).1 == Err::<SnapshotView, ErrorView>(
                    e@,
                ),
            },
            final(self)@.pager.sound(),
    {
        let ghost start = self@;
        let level = match self.pager.transactions().isolation_level(transaction_id) {
            Ok(level) => level,
            Err(e) => {
                assert(self@ =~= start.with_txns(start.pager.txns));
                return Err(e);
            },
        };
        if level == IsolationLevel::ReadCommitted {
            let r = self.pager.txns_mut().refresh_snapshot(transaction_id);
            proof {
                lemma_waits_kept(start.pager.txns, self@.pager.txns);
                assert(self@ =~= start.snapshot_of(transaction_id).0);
            }
            r
        } else {
            assert(self@ =~= start.with_txns(start.pager.txns));
            self.pager.transactions().snapshot(transaction_id)
        }
    }

    /// Notes how to take back a change.
    pub fn record_undo(&mut self, transaction_id: TransactionId, record: UndoRecord) -> (r: DbResult<
        (),
    >)
        requires
            old(self)@.pager.sound(),
        ensures
            engine_step(
                r,
                final(self)@,
                old(self)@.noted(transaction_id, record.deep_view()),
            ),
            final(self)@.pager.sound(),
    {
        let ghost start = self@;
        let r = self.pager.txns_mut().record_undo(transaction_id, record);
        proof {
            lemma_waits_kept(start.pager.txns, self@.pager.txns);
            assert(self@ =~= start.noted(transaction_id, record.deep_view()).0);
        }
        r
    }

    fn plan_insert(
        &self,
        transaction_id: TransactionId,
        table: &str,
        row: &Row,
        values_fault: &Option<DbError>,
    ) -> (r: DbResult<WritePlan>)
        ensures
            plan_result(r) == self@.insert_plan(
                transaction_id,
                table@,
                row.deep_view(),
                fault_view(*values_fault),
            ),
            r matches Ok(p) ==> slots_stand(self@.catalog, table@, p.deep_view().slots, 0),
            r matches Ok(p) ==> p.slots@.len() == p.keys@.len(),
    {
        self.validate_transaction(transaction_id)?;
        let (schema, root): (SharedSchema, PageId) = self.catalog.table_schema_and_root(table)?;
        if row.len() != schema.schema.columns.len() {
            return Err(
                fail_wrong_count("insert into ", table, schema.schema.columns.len(), row.len()),
            );
        }
        match values_fault {
            Some(e) => {
                return Err(e.copy());
            },
            None => {},
        }
        let slots = self.catalog.indexes_for_table(table)?;
        let keys = project_keys(&schema.schema, &slots, row)?;
        Ok(WritePlan { schema, root, slots, keys })
    }

    /// Checks that a row with a plan may be written.
    pub fn check_write(
        &self,
        transaction_id: TransactionId,
        plan: &WritePlan,
        snapshot: &TxnSnapshot,
        key_fault: &Option<DbError>,
        own: Option<RowId>,
    ) -> (r: DbResult<()>)
        requires
            plan.slots@.len() == plan.keys@.len(),
        ensures
            match r {
                Ok(_) => self@.write_allowed(
                    transaction_id,
                    plan.deep_view(),
                    snapshot.deep_view(),
                    fault_view(*key_fault),
                    own,
                ) == Ok::<(), ErrorView>(()),
                Err(e) => self@.write_allowed(
                    transaction_id,
                    plan.deep_view(),
                    snapshot.deep_view(),
                    fault_view(*key_fault),
                    own,
                ) == Err::<(), ErrorView>(e@),
            },
    {
        let _ = visible_rows(&self.pager, plan.root, transaction_id, snapshot, own)?;
        match key_fault {
            Some(e) => {
                return Err(e.copy());
            },
            None => {},
        }
        check_uniqueness(&self.pager, transaction_id, snapshot, plan, own)
    }

    fn number_row(&mut self, transaction_id: TransactionId, table: &str) -> (r: DbResult<RowId>)
        requires
            old(self)@.pager.sound(),
        ensures
            engine_step(r, final(self)@, old(self)@.numbered(transaction_id, table@)),
            final(self)@.pager.sound(),
    {
        let ghost start = self@;
        let name: String = table.to_owned();
        let fallback: u64 = match self.catalog.next_row_ids.get(&name) {
            Some(n) => *n,
            None => 1,
        };
        if self.pager.transactions().next_row_number(table, fallback) == u64::MAX {
            assert(self@ =~= start.with_txns(start.pager.txns));
            return Err(DbError::bare(ErrorCode::RowNumbersUsedUp));
        }
        let r = self.pager.txns_mut().allocate_row_id(transaction_id, table, fallback);
        proof {
            lemma_waits_kept(start.pager.txns, self@.pager.txns);
        }
        match r {
            Err(e) => {
                assert(self@ =~= start.with_txns(start.pager.txns));
                Err(e)
            },
            Ok(id) => {
                let after: u64 = if id.0 < u64::MAX {
                    id.0 + 1
                } else {
                    id.0
                };
                self.catalog.next_row_ids.insert(name, after);
                assert(self@ =~= start.numbered(transaction_id, table@).0);
                Ok(id)
            },
        }
    }

    /// Puts bytes under the number of a row of a table.
    pub fn put_row(
        &mut self,
        transaction_id: TransactionId,
        table: &str,
        root: PageId,
        row_id: RowId,
        bytes: &[u8],
    ) -> (r: DbResult<()>)
        requires
            old(self)@.pager.sound(),
        ensures
            engine_step(
                r,
                final(self)@,
                old(self)@.row_put(transaction_id, table@, root, row_id, bytes@),
            ),
            final(self)@.pager.sound(),
            forall|tables: Tables, v: Seq<VersionView>|
                #![trigger rows_in(old(self)@, tables), versions_json(v)]
                rows_in(old(self)@, tables) && starts_at(old(self)@.catalog, table@, root)
                    && bytes@ == json_bytes(versions_json(v)) && r is Ok ==> rows_in(
                    final(self)@,
                    with_versions(tables, table@, row_id.0, v),
                ),
    {
        let ghost start = self@;
        let mut tree = BTree::from_root(root);
        tree.insert(&mut self.pager, transaction_id.0, row_id.0, bytes)?;
        self.catalog.move_table(table, root, tree.root_page_id());
        proof {
            assert forall|tables: Tables, v: Seq<VersionView>|
                #![trigger rows_in(start, tables), versions_json(v)]
                rows_in(start, tables) && starts_at(start.catalog, table@, root) && bytes@
                    == json_bytes(versions_json(v)) implies rows_in(
                self@,
                with_versions(tables, table@, row_id.0, v),
            ) by {
                lemma_row_put(
                    start,
                    tables,
                    table@,
                    root,
                    self@.pager,
                    tree@,
                    row_id.0,
                    v,
                );
            }
        }
        Ok(())
    }

    /// Lets an index list a row, and notes how to take that back.
    pub fn enter_index(
        &mut self,
        transaction_id: TransactionId,
        table: &str,
        slot: &IndexSlot,
        key: &Vec<DbValue>,
        row_id: RowId,
    ) -> (r: DbResult<()>)
        requires
            old(self)@.pager.sound(),
        ensures
            engine_step(
                r,
                final(self)@,
                old(self)@.index_entered(
                    transaction_id,
                    table@,
                    slot.deep_view(),
                    key.deep_view(),
                    row_id,
                ),
            ),
            final(self)@.pager.sound(),
            forall|tables: Tables| #[trigger]
                rows_in(old(self)@, tables) && slot_stands(
                    old(self)@.catalog,
                    table@,
                    slot.deep_view(),
                ) && r is Ok ==> rows_in(final(self)@, tables),
            final(self)@.catalog.table_roots == old(self)@.catalog.table_roots,
            r is Ok ==> exists|root: PageId| final(self)@.catalog == #[trigger] with_index_root(
                old(self)@.catalog,
                table@,
                slot.deep_view().name,
                slot.root,
                root,
            ),
    {
        let ghost start = self@;
        let record = UndoRecord::IndexInsert {
            table: table.to_owned(),
            index: slot.name.clone(),
            row_id,
            key: copy_values(key.as_slice()),
        };
        self.record_undo(transaction_id, record)?;
        let ghost noted = self@;
        match encode_index_key(key.as_slice()) {
            Err(e) => Err(e),
            Ok(bytes) => {
                let root = upsert_index_entry(
                    &mut self.pager,
                    transaction_id.0,
                    slot.root,
                    bytes.as_slice(),
                    row_id,
                )?;
                self.catalog.move_index(table, slot.name.as_str(), slot.root, root);
                proof {
                    lemma_same_trees(start, noted);
                    assert forall|tables: Tables| #[trigger]
                        rows_in(start, tables) && slot_stands(
                            start.catalog,
                            table@,
                            slot.deep_view(),
                        ) implies rows_in(self@, tables) by {
                        lemma_index_put(
                            noted,
                            tables,
                            table@,
                            slot.deep_view(),
                            self@.pager,
                            root,
                        );
                    }
                }
                Ok(())
            },
        }
    }

    fn enter_indexes(
        &mut self,
        transaction_id: TransactionId,
        table: &str,
        plan: &WritePlan,
        row_id: RowId,
    ) -> (r: DbResult<()>)
        requires
            old(self)@.pager.sound(),
            plan.slots@.len() == plan.keys@.len(),
        ensures
            engine_step(
                r,
                final(self)@,
                old(self)@.indexed_from(transaction_id, table@, plan.deep_view(), row_id, 0),
            ),
            final(self)@.pager.sound(),
            forall|tables: Tables| #[trigger]
                rows_in(old(self)@, tables) && slots_stand(
                    old(self)@.catalog,
                    table@,
                    plan.deep_view().slots,
                    0,
                ) && r is Ok ==> rows_in(final(self)@, tables),
    {
        let ghost list = plan.deep_view().slots;
        let ghost whole = self@.indexed_from(transaction_id, table@, plan.deep_view(), row_id, 0);
        let mut i: usize = 0;
        while i < plan.slots.len()
            invariant
                i <= plan.slots@.len() == plan.keys@.len(),
                self@.pager.sound(),
                whole == old(self)@.indexed_from(
                    transaction_id,
                    table@,
                    plan.deep_view(),
                    row_id,
                    0,
                ),
                self@.indexed_from(transaction_id, table@, plan.deep_view(), row_id, i as int)
                    == whole,
                list == plan.deep_view().slots,
                slots_stand(old(self)@.catalog, table@, list, 0) ==> slots_stand(
                    self@.catalog,
                    table@,
                    list,
                    i as int,
                ),
                forall|tables: Tables| #[trigger]
                    rows_in(old(self)@, tables) && slots_stand(
                        old(self)@.catalog,
                        table@,
                        list,
                        0,
                    ) ==> rows_in(self@, tables),
            decreases plan.slots@.len() - i,
        {
            let ghost before = self@;
            assert(plan.deep_view().slots[i as int] == plan.slots@[i as int].deep_view());
            assert(plan.deep_view().keys[i as int] == plan.keys@[i as int].deep_view());
            self.enter_index(transaction_id, table, &plan.slots[i], &plan.keys[i], row_id)?;
            proof {
                let root = choose|root: PageId| self@.catalog == #[trigger] with_index_root(
                    before.catalog,
                    table@,
                    list[i as int].name,
                    list[i as int].root,
                    root,
                );
                if slots_stand(old(self)@.catalog, table@, list, 0) {
                    lemma_slots_kept(before.catalog, table@, list, i as int, root);
                    assert(slot_stands(before.catalog, table@, list[i as int]));
                }
            }
            i = i + 1;
        }
        Ok(())
    }

    fn place_row(
        &mut self,
        transaction_id: TransactionId,
        table: &str,
        plan: &WritePlan,
        row: &Row,
    ) -> (r: DbResult<RowId>)
        requires
            old(self)@.pager.sound(),
            plan.slots@.len() == plan.keys@.len(),
        ensures
            engine_step(
                r,
                final(self)@,
                old(self)@.row_placed(transaction_id, table@, plan.deep_view(), row.deep_view()),
            ),
            final(self)@.pager.sound(),
            forall|tables: Tables| #[trigger]
                rows_in(old(self)@, tables) && starts_at(old(self)@.catalog, table@, plan.root)
                    && slots_stand(old(self)@.catalog, table@, plan.deep_view().slots, 0)
                    && r is Ok ==> rows_in(
                    final(self)@,
                    with_versions(
                        tables,
                        table@,
                        r->Ok_0.0,
                        seq![fresh(row.deep_view(), transaction_id.0)],
                    ),
                ),
    {
        let ghost start = self@;
        let row_id = self.number_row(transaction_id, table)?;
        let record = UndoRecord::InsertRow { table: table.to_owned(), row_id };
        self.record_undo(transaction_id, record)?;
        let ghost noted = self@;
        proof {
            lemma_same_trees(start, noted);
        }
        match encode_uncommitted_row_version(row, transaction_id.0) {
            Err(e) => Err(e),
            Ok(bytes) => {
                self.put_row(transaction_id, table, plan.root, row_id, bytes.as_slice())?;
                assert(self@.catalog.index_roots == start.catalog.index_roots);
                proof {
                    lemma_slots_alike(start.catalog, self@.catalog, table@, plan.deep_view().slots);
                }
                self.enter_indexes(transaction_id, table, plan, row_id)?;
                Ok(row_id)
            },
        }
    }

    /// Inserts a row into a table; hands back its number. The table then holds the row, made by
    /// the transaction, and all tables hold otherwise what they held.
    pub fn insert_row(
        &mut self,
        transaction_id: TransactionId,
        schema_name: &str,
        row: &Row,
        faults: &RowFaults,
    ) -> (r: DbResult<RowId>)
        requires
            old(self)@.pager.sound(),
        ensures
            engine_step(
                r,
                final(self)@,
                old(self)@.inserted(transaction_id, schema_name@, row.deep_view(), faults@),
            ),
            final(self)@.pager.sound(),
            forall|tables: Tables| #[trigger]
                rows_in(old(self)@, tables) && r is Ok ==> tables.dom().contains(schema_name@)
                    && rows_in(
                    final(self)@,
                    with_versions(
                        tables,
                        schema_name@,
                        r->Ok_0.0,
                        seq![fresh(row.deep_view(), transaction_id.0)],
                    ),
                ),
    {
        let ghost start = self@;
        let plan = self.plan_insert(transaction_id, schema_name, row, &faults.values)?;
        let keys = name_keys(&plan.slots, &plan.keys);
        self.check_write_conflicts(transaction_id, schema_name, &keys)?;
        let snapshot = self.snapshot_for_transaction(transaction_id)?;
        self.check_write(transaction_id, &plan, &snapshot, &faults.key, None)?;
        proof {
            lemma_same_trees(start, self@);
            assert forall|tables: Tables| #[trigger] rows_in(start, tables) implies tables.dom().contains(
                schema_name@,
            ) by {
                let _ = lemma_table_held(start, tables, schema_name@);
            }
        }
        self.place_row(transaction_id, schema_name, &plan, row)
    }
}

} // verus!
