//! What is stored in files between transactions, and how the state comes back from it.

use vstd::prelude::*;

use crate::common::assoc::AssocMap;
use crate::common::ordmap::{Duplicate, OrdMap};
use crate::common::ordset::{sorted, OrdSet};
use crate::common::schema::{IndexMeta, IndexView, Schema};
use crate::common::value::{DbValue, Row, RowId, SqlValue, TransactionId};
use crate::v1::model::{below, IndexStateView, StateView};
use crate::v1::state::{key_list, IndexState, PersistedState};
use crate::v1::storage::row_list;
use crate::v2::catalog::{next_number, SharedSchema};
use crate::v2::index_store::{add_ids, id_list};
use crate::v2::storage_model::RowView;

verus! {

/// The file of the definitions.
pub struct CatalogFile {
    pub schemas: OrdMap<String, SharedSchema>,
}

/// A row in the file of a table.
pub struct TableRowRecord {
    pub row_id: RowId,
    pub row: Row,
}

/// The file of a table.
pub struct TableFile {
    pub next_row_id: u64,
    pub rows: Vec<TableRowRecord>,
}

/// A key in the file of an index, with its rows.
pub struct IndexEntryFile {
    pub key: Vec<DbValue>,
    pub row_ids: Vec<RowId>,
}

/// The file of an index.
pub struct IndexFile {
    pub meta: IndexMeta,
    pub entries: Vec<IndexEntryFile>,
}

/// The file that says which transaction is under way.
pub struct ActiveTransactionFile {
    pub transaction_id: TransactionId,
}

/// The files of a table: its rows, and its indexes.
pub struct StoredTable {
    pub name: String,
    pub table: TableFile,
    pub indexes: Vec<IndexFile>,
}

/// The model of the file of a table.
#[verifier::ext_equal]
pub struct TableFileView {
    pub next_row_id: u64,
    pub rows: Seq<RowView>,
}

/// The model of a key in the file of an index.
#[verifier::ext_equal]
pub struct IndexEntryView {
    pub key: Seq<SqlValue>,
    pub row_ids: Seq<RowId>,
}

/// The model of the file of an index.
#[verifier::ext_equal]
pub struct IndexFileView {
    pub meta: IndexView,
    pub entries: Seq<IndexEntryView>,
}

/// The model of the files of a table.
#[verifier::ext_equal]
pub struct StoredTableView {
    pub name: Seq<char>,
    pub table: TableFileView,
    pub indexes: Seq<IndexFileView>,
}

impl DeepView for TableRowRecord {
    type V = RowView;

    open spec fn deep_view(&self) -> RowView {
        RowView { id: self.row_id, row: self.row.deep_view() }
    }
}

impl DeepView for TableFile {
    type V = TableFileView;

    open spec fn deep_view(&self) -> TableFileView {
        TableFileView { next_row_id: self.next_row_id, rows: self.rows.deep_view() }
    }
}

impl DeepView for IndexEntryFile {
    type V = IndexEntryView;

    open spec fn deep_view(&self) -> IndexEntryView {
        IndexEntryView { key: self.key.deep_view(), row_ids: self.row_ids@ }
    }
}

impl DeepView for IndexFile {
    type V = IndexFileView;

    open spec fn deep_view(&self) -> IndexFileView {
        IndexFileView { meta: self.meta@, entries: self.entries.deep_view() }
    }
}

impl DeepView for StoredTable {
    type V = StoredTableView;

    open spec fn deep_view(&self) -> StoredTableView {
        StoredTableView {
            name: self.name@,
            table: self.table.deep_view(),
            indexes: self.indexes.deep_view(),
        }
    }
}

impl Default for TableFile {
    /// The file of a table that was never stored: no rows, and the first row number.
    fn default() -> (r: TableFile)
        ensures
            r.deep_view() == (TableFileView { next_row_id: 1, rows: Seq::empty() }),
    {
        let r = TableFile { next_row_id: 1, rows: Vec::new() };
        assert(r.deep_view().rows =~= Seq::<RowView>::empty());
        r
    }
}

// ---------------------------------------------------------------------------
// Models

/// A map of pairs: a later pair takes the place of an earlier one with the same key.
pub open spec fn loaded<K, V>(pairs: Seq<(K, V)>) -> Map<K, V>
    decreases pairs.len(),
{
    if pairs.len() == 0 {
        Map::empty()
    } else {
        loaded(pairs.drop_last()).insert(pairs.last().0, pairs.last().1)
    }
}

/// The rows of a file.
pub open spec fn rows_loaded(rows: Seq<RowView>) -> Map<RowId, Seq<SqlValue>> {
    loaded(rows.map_values(|r: RowView| (r.id, r.row)))
}

/// The index of a file.
pub open spec fn index_loaded(file: IndexFileView) -> IndexStateView {
    IndexStateView {
        meta: file.meta,
        entries: loaded(
            file.entries.map_values(|e: IndexEntryView| (e.key, e.row_ids.to_set())),
        ),
    }
}

/// The indexes of files.
pub open spec fn indexes_loaded(files: Seq<IndexFileView>) -> Map<Seq<char>, IndexStateView> {
    loaded(files.map_values(|f: IndexFileView| (f.meta.name, index_loaded(f))))
}

/// The state that files hold.
pub open spec fn state_loaded(schemas: Map<Seq<char>, Schema>, tables: Seq<StoredTableView>) -> StateView {
    StateView {
        schemas,
        rows: loaded(tables.map_values(|t: StoredTableView| (t.name, rows_loaded(t.table.rows)))),
        indexes: loaded(tables.map_values(|t: StoredTableView| (t.name, indexes_loaded(t.indexes)))),
        next_row_ids: loaded(
            tables.map_values(|t: StoredTableView| (t.name, t.table.next_row_id)),
        ),
    }
}

/// A state in which each table has rows, indexes and a next row number, and nothing else has.
pub open spec fn completed(s: StateView) -> StateView {
    StateView {
        schemas: s.schemas,
        rows: Map::new(
            |t: Seq<char>| s.schemas.dom().contains(t),
            |t: Seq<char>| below(s.rows, t),
        ),
        indexes: Map::new(
            |t: Seq<char>| s.schemas.dom().contains(t),
            |t: Seq<char>| below(s.indexes, t),
        ),
        next_row_ids: Map::new(
            |t: Seq<char>| s.schemas.dom().contains(t),
            |t: Seq<char>| next_number(s.next_row_ids, t),
        ),
    }
}

/// Whether each index is found under its own name.
pub open spec fn well_named(by_name: Map<Seq<char>, IndexStateView>) -> bool {
    forall|n: Seq<char>| #[trigger] by_name.dom().contains(n) ==> by_name[n].meta.name == n
}

proof fn lemma_loaded<K, V>(pairs: Seq<(K, V)>, m: Map<K, V>)
    requires
        forall|i: int|
            0 <= i < pairs.len() ==> m.dom().contains((#[trigger] pairs[i]).0) && m[pairs[i].0]
                == pairs[i].1,
    ensures
        forall|k: K| #[trigger]
            loaded(pairs).dom().contains(k) ==> m.dom().contains(k) && loaded(pairs)[k] == m[k],
        forall|i: int|
            0 <= i < pairs.len() ==> loaded(pairs).dom().contains((#[trigger] pairs[i]).0),
    decreases pairs.len(),
{
    if pairs.len() > 0 {
        let front = pairs.drop_last();
        assert forall|i: int| 0 <= i < front.len() implies m.dom().contains(
            (#[trigger] front[i]).0,
        ) && m[front[i].0] == front[i].1 by {
            assert(front[i] == pairs[i]);
        }
        lemma_loaded(front, m);
        let last = pairs[pairs.len() - 1];
        assert(pairs.last() == last);
        assert(m.dom().contains(last.0) && m[last.0] == last.1);
        assert forall|k: K| #[trigger] loaded(pairs).dom().contains(k) implies m.dom().contains(k)
            && loaded(pairs)[k] == m[k] by {
            if k != last.0 {
                assert(loaded(front).dom().contains(k));
            }
        }
        assert forall|i: int| 0 <= i < pairs.len() implies loaded(pairs).dom().contains(
            (#[trigger] pairs[i]).0,
        ) by {
            if i < front.len() {
                assert(front[i] == pairs[i]);
            }
        }
    }
}

/// Pairs of each key of a map with its value are that map.
pub proof fn lemma_loaded_all<K, V>(pairs: Seq<(K, V)>, keys: Seq<K>, m: Map<K, V>)
    requires
        keys.len() == pairs.len(),
        keys.to_set() == m.dom(),
        forall|i: int|
            0 <= i < pairs.len() ==> (#[trigger] pairs[i]).0 == keys[i] && pairs[i].1 == m[keys[i]],
    ensures
        loaded(pairs) == m,
{
    assert forall|i: int| 0 <= i < pairs.len() implies m.dom().contains((#[trigger] pairs[i]).0)
        && m[pairs[i].0] == pairs[i].1 by {
        assert(keys.to_set().contains(keys[i]));
    }
    lemma_loaded(pairs, m);
    assert forall|k: K| m.dom().contains(k) implies loaded(pairs).dom().contains(k) by {
        assert(keys.to_set().contains(k));
        let i = choose|i: int| 0 <= i < keys.len() && keys[i] == k;
        assert(loaded(pairs).dom().contains(pairs[i].0));
    }
    assert(loaded(pairs) =~= m);
}

proof fn lemma_loaded_step<K, V>(pairs: Seq<(K, V)>, i: int)
    requires
        0 <= i < pairs.len(),
    ensures
        loaded(pairs.take(i + 1)) == loaded(pairs.take(i)).insert(pairs[i].0, pairs[i].1),
        loaded(pairs.take(0)) == Map::<K, V>::empty(),
{
    assert(pairs.take(i + 1).drop_last() =~= pairs.take(i));
    assert(pairs.take(i + 1).last() == pairs[i]);
}

// ---------------------------------------------------------------------------
// Loading

fn load_rows(records: &Vec<TableRowRecord>) -> (r: OrdMap<RowId, Row>)
    ensures
        r@ == rows_loaded(records.deep_view()),
{
    let ghost pairs = records.deep_view().map_values(|r: RowView| (r.id, r.row));
    let mut out: OrdMap<RowId, Row> = OrdMap::new();
    let mut i: usize = 0;
    assert(pairs.take(0) =~= Seq::empty());
    while i < records.len()
        invariant
            i <= records@.len(),
            pairs == records.deep_view().map_values(|r: RowView| (r.id, r.row)),
            out@ == loaded(pairs.take(i as int)),
        decreases records@.len() - i,
    {
        assert(records.deep_view()[i as int] == records@[i as int].deep_view());
        proof {
            lemma_loaded_step(pairs, i as int);
        }
        out.insert(records[i].row_id, records[i].row.duplicate());
        i = i + 1;
    }
    assert(pairs.take(i as int) =~= pairs);
    out
}

impl IndexState {
    /// The index of a file.
    pub fn from_file(file: &IndexFile) -> (r: IndexState)
        ensures
            r@ == index_loaded(file.deep_view()),
    {
        let ghost pairs = file.entries.deep_view().map_values(
            |e: IndexEntryView| (e.key, e.row_ids.to_set()),
        );
        let mut entries: AssocMap<Vec<DbValue>, OrdSet<RowId>> = AssocMap::new();
        let mut i: usize = 0;
        assert(pairs.take(0) =~= Seq::empty());
        while i < file.entries.len()
            invariant
                i <= file.entries@.len(),
                pairs == file.entries.deep_view().map_values(
                    |e: IndexEntryView| (e.key, e.row_ids.to_set()),
                ),
                entries@ == loaded(pairs.take(i as int)),
            decreases file.entries@.len() - i,
        {
            assert(file.entries.deep_view()[i as int] == file.entries@[i as int].deep_view());
            proof {
                lemma_loaded_step(pairs, i as int);
            }
            let ghost before = entries@;
            let entry: &IndexEntryFile = &file.entries[i];
            let mut ids: OrdSet<RowId> = OrdSet::new();
            add_ids(&mut ids, &entry.row_ids);
            assert(ids@ =~= entry.row_ids@.to_set());
            entries.remove(&entry.key);
            entries.insert_new(entry.key.duplicate(), ids);
            assert(entries@ =~= before.insert(entry.key.deep_view(), entry.row_ids@.to_set()));
            i = i + 1;
        }
        assert(pairs.take(i as int) =~= pairs);
        IndexState { meta: file.meta.duplicate(), entries }
    }

    /// The file of an index. The index comes back from it.
    pub fn to_file(&self) -> (r: IndexFile)
        ensures
            index_loaded(r.deep_view()) == self@,
            forall|i: int|
                0 <= i < r.entries@.len() ==> {
                    &&& self@.entries.dom().contains((#[trigger] r.entries@[i]).key.deep_view())
                    &&& r.entries@[i].row_ids@ == sorted::<RowId>(
                        self@.entries[r.entries@[i].key.deep_view()],
                    )
                },
    {
        let total: usize = self.entries.len();
        let ghost keys = self.entries.keys();
        let mut out: Vec<IndexEntryFile> = Vec::new();
        let mut i: usize = 0;
        while i < total
            invariant
                i <= total,
                total == keys.len(),
                keys == self.entries.keys(),
                out@.len() == i,
                forall|k: int|
                    0 <= k < i ==> {
                        &&& (#[trigger] out@[k]).key.deep_view() == keys[k]
                        &&& self.entries@.dom().contains(keys[k])
                        &&& out@[k].row_ids@ == sorted::<RowId>(self.entries@[keys[k]])
                        &&& out@[k].row_ids@.to_set() == self.entries@[keys[k]]
                    },
            decreases total - i,
        {
            let ids: &OrdSet<RowId> = self.entries.value_at(i);
            let count: usize = ids.len();
            let list = id_list(ids);
            out.push(IndexEntryFile { key: self.entries.key_at(i).duplicate(), row_ids: list });
            i = i + 1;
        }
        let r = IndexFile { meta: self.meta.duplicate(), entries: out };
        proof {
            let pairs = r.deep_view().entries.map_values(
                |e: IndexEntryView| (e.key, e.row_ids.to_set()),
            );
            assert forall|k: int| 0 <= k < pairs.len() implies (#[trigger] pairs[k]).0 == keys[k]
                && pairs[k].1 == self@.entries[keys[k]] by {
                assert(r.deep_view().entries[k] == out@[k].deep_view());
            }
            assert(keys.to_set() =~= self@.entries.dom());
            lemma_loaded_all(pairs, keys, self@.entries);
        }
        r
    }
}

fn load_indexes(files: &Vec<IndexFile>) -> (r: OrdMap<String, IndexState>)
    ensures
        r@ == indexes_loaded(files.deep_view()),
{
    let ghost pairs = files.deep_view().map_values(
        |f: IndexFileView| (f.meta.name, index_loaded(f)),
    );
    let mut out: OrdMap<String, IndexState> = OrdMap::new();
    let mut i: usize = 0;
    assert(pairs.take(0) =~= Seq::empty());
    while i < files.len()
        invariant
            i <= files@.len(),
            pairs == files.deep_view().map_values(
                |f: IndexFileView| (f.meta.name, index_loaded(f)),
            ),
            out@ == loaded(pairs.take(i as int)),
        decreases files@.len() - i,
    {
        assert(files.deep_view()[i as int] == files@[i as int].deep_view());
        proof {
            lemma_loaded_step(pairs, i as int);
        }
        out.insert(files[i].meta.name.clone(), IndexState::from_file(&files[i]));
        i = i + 1;
    }
    assert(pairs.take(i as int) =~= pairs);
    out
}

/// The state that files hold.
pub fn load_state(catalog: CatalogFile, tables: &Vec<StoredTable>) -> (r: PersistedState)
    ensures
        r@ == state_loaded(catalog.schemas@, tables.deep_view()),
{
    let ghost all = tables.deep_view();
    let ghost row_pairs = all.map_values(
        |t: StoredTableView| (t.name, rows_loaded(t.table.rows)),
    );
    let ghost index_pairs = all.map_values(
        |t: StoredTableView| (t.name, indexes_loaded(t.indexes)),
    );
    let ghost number_pairs = all.map_values(|t: StoredTableView| (t.name, t.table.next_row_id));
    let mut state = PersistedState::new();
    state.schemas = catalog.schemas;
    let mut i: usize = 0;
    assert(row_pairs.take(0) =~= Seq::empty());
    assert(index_pairs.take(0) =~= Seq::empty());
    assert(number_pairs.take(0) =~= Seq::empty());
    while i < tables.len()
        invariant
            i <= tables@.len(),
            all == tables.deep_view(),
            row_pairs == all.map_values(
                |t: StoredTableView| (t.name, rows_loaded(t.table.rows)),
            ),
            index_pairs == all.map_values(
                |t: StoredTableView| (t.name, indexes_loaded(t.indexes)),
            ),
            number_pairs == all.map_values(|t: StoredTableView| (t.name, t.table.next_row_id)),
            state@.schemas == catalog.schemas@,
            state@.rows == loaded(row_pairs.take(i as int)),
            state@.indexes == loaded(index_pairs.take(i as int)),
            state@.next_row_ids == loaded(number_pairs.take(i as int)),
        decreases tables@.len() - i,
    {
        assert(all[i as int] == tables@[i as int].deep_view());
        proof {
            lemma_loaded_step(row_pairs, i as int);
            lemma_loaded_step(index_pairs, i as int);
            lemma_loaded_step(number_pairs, i as int);
        }
        let t: &StoredTable = &tables[i];
        state.next_row_ids.insert(t.name.clone(), t.table.next_row_id);
        state.rows.insert(t.name.clone(), load_rows(&t.table.rows));
        state.indexes.insert(t.name.clone(), load_indexes(&t.indexes));
        i = i + 1;
    }
    assert(row_pairs.take(i as int) =~= row_pairs);
    assert(index_pairs.take(i as int) =~= index_pairs);
    assert(number_pairs.take(i as int) =~= number_pairs);
    state
}

// ---------------------------------------------------------------------------
// Saving

fn save_rows(rows: &OrdMap<RowId, Row>) -> (r: Vec<TableRowRecord>)
    ensures
        r.deep_view() == row_list(rows@),
        rows_loaded(r.deep_view()) == rows@,
{
    let ids = key_list(rows);
    let ghost all = ids.deep_view();
    let mut out: Vec<TableRowRecord> = Vec::new();
    let mut i: usize = 0;
    while i < ids.len()
        invariant
            i <= ids@.len(),
            all == ids.deep_view(),
            all.to_set() == rows@.dom(),
            out@.len() == i,
            forall|k: int|
                0 <= k < i ==> (#[trigger] out@[k]).deep_view() == (RowView {
                    id: all[k],
                    row: rows@[all[k]],
                }),
        decreases ids@.len() - i,
    {
        assert(all[i as int] == ids@[i as int]);
        assert(all.to_set().contains(all[i as int]));
        match rows.get(&ids[i]) {
            Some(row) => {
                out.push(TableRowRecord { row_id: ids[i], row: row.duplicate() });
            },
            None => {},
        }
        i = i + 1;
    }
    proof {
        assert(out.deep_view() =~= row_list(rows@));
        let pairs = out.deep_view().map_values(|r: RowView| (r.id, r.row));
        lemma_loaded_all(pairs, all, rows@);
    }
    out
}

fn save_indexes(by_name: &OrdMap<String, IndexState>) -> (r: Vec<IndexFile>)
    ensures
        r@.len() == by_name@.dom().len(),
        forall|i: int|
            0 <= i < r@.len() ==> index_loaded((#[trigger] r@[i]).deep_view())
                == by_name@[sorted::<String>(by_name@.dom())[i]],
        well_named(by_name@) ==> indexes_loaded(r.deep_view()) == by_name@,
{
    let total: usize = by_name.len();
    let names = key_list(by_name);
    let ghost all = names.deep_view();
    let mut out: Vec<IndexFile> = Vec::new();
    let mut i: usize = 0;
    proof {
        crate::common::ordset::lemma_is_sorted::<String>(by_name.keys(), by_name@.dom());
    }
    while i < names.len()
        invariant
            i <= names@.len(),
            all == names.deep_view(),
            all.to_set() == by_name@.dom(),
            out@.len() == i,
            forall|k: int|
                0 <= k < i ==> index_loaded((#[trigger] out@[k]).deep_view()) == by_name@[all[k]],
        decreases names@.len() - i,
    {
        assert(all[i as int] == names@[i as int]@);
        assert(all.to_set().contains(all[i as int]));
        match by_name.get(&names[i]) {
            Some(index) => {
                out.push(index.to_file());
            },
            None => {},
        }
        i = i + 1;
    }
    proof {
        let pairs = out.deep_view().map_values(
            |f: IndexFileView| (f.meta.name, index_loaded(f)),
        );
        if well_named(by_name@) {
            assert forall|k: int| 0 <= k < pairs.len() implies (#[trigger] pairs[k]).0 == all[k]
                && pairs[k].1 == by_name@[all[k]] by {
                assert(out.deep_view()[k] == out@[k].deep_view());
                assert(all.to_set().contains(all[k]));
                assert(by_name@.dom().contains(all[k]));
                assert(index_loaded(out@[k].deep_view()).meta == out@[k].deep_view().meta);
            }
            lemma_loaded_all(pairs, all, by_name@);
        }
    }
    out
}

/// Whether files are those of a table.
pub open spec fn is_stored(s: StateView, name: Seq<char>, t: StoredTableView) -> bool {
    &&& t.name == name
    &&& t.table.next_row_id == next_number(s.next_row_ids, name)
    &&& t.table.rows == row_list(below(s.rows, name))
    &&& t.indexes.len() == below(s.indexes, name).dom().len()
    &&& forall|i: int|
        0 <= i < t.indexes.len() ==> index_loaded(#[trigger] t.indexes[i]) == below(
            s.indexes,
            name,
        )[sorted::<String>(below(s.indexes, name).dom())[i]]
}

impl PersistedState {
    fn store_table(&self, name: &String) -> (r: StoredTable)
        ensures
            is_stored(self@, name@, r.deep_view()),
            rows_loaded(r.deep_view().table.rows) == below(self@.rows, name@),
            well_named(below(self@.indexes, name@)) ==> indexes_loaded(r.deep_view().indexes)
                == below(self@.indexes, name@),
    {
        let no_rows: OrdMap<RowId, Row> = OrdMap::new();
        let rows: &OrdMap<RowId, Row> = match self.rows.get(name) {
            Some(m) => m,
            None => &no_rows,
        };
        let no_indexes: OrdMap<String, IndexState> = OrdMap::new();
        let by_name: &OrdMap<String, IndexState> = match self.indexes.get(name) {
            Some(m) => m,
            None => &no_indexes,
        };
        let next_row_id: u64 = match self.next_row_ids.get(name) {
            Some(n) => *n,
            None => 1,
        };
        let indexes = save_indexes(by_name);
        let r = StoredTable {
            name: name.clone(),
            table: TableFile { next_row_id, rows: save_rows(rows) },
            indexes,
        };
        assert forall|i: int| 0 <= i < r.deep_view().indexes.len() implies index_loaded(
            #[trigger] r.deep_view().indexes[i],
        ) == by_name@[sorted::<String>(by_name@.dom())[i]] by {
            assert(r.deep_view().indexes[i] == indexes@[i].deep_view());
        }
        r
    }

    /// The files of the tables, in the order of their names. The state comes back from them,
    /// as far as it belongs to a table that is defined.
    pub fn stored_tables(&self) -> (r: Vec<StoredTable>)
        ensures
            r@.len() == sorted::<String>(self@.schemas.dom()).len(),
            forall|i: int|
                0 <= i < r@.len() ==> is_stored(
                    self@,
                    sorted::<String>(self@.schemas.dom())[i],
                    (#[trigger] r@[i]).deep_view(),
                ),
            (forall|t: Seq<char>| well_named(#[trigger] below(self@.indexes, t))) ==> state_loaded(
                self@.schemas,
                r.deep_view(),
            ) == completed(self@),
    {
        let names = key_list(&self.schemas);
        let ghost all = names.deep_view();
        let mut out: Vec<StoredTable> = Vec::new();
        let mut i: usize = 0;
        while i < names.len()
            invariant
                i <= names@.len(),
                all == names.deep_view(),
                all.to_set() == self@.schemas.dom(),
                out@.len() == i,
                forall|k: int|
                    0 <= k < i ==> {
                        &&& is_stored(self@, all[k], (#[trigger] out@[k]).deep_view())
                        &&& rows_loaded(out@[k].deep_view().table.rows) == below(self@.rows, all[k])
                        &&& well_named(below(self@.indexes, all[k])) ==> indexes_loaded(
                            out@[k].deep_view().indexes,
                        ) == below(self@.indexes, all[k])
                    },
            decreases names@.len() - i,
        {
            assert(all[i as int] == names@[i as int]@);
            out.push(self.store_table(&names[i]));
            i = i + 1;
        }
        proof {
            if forall|t: Seq<char>| well_named(#[trigger] below(self@.indexes, t)) {
                let views = out.deep_view();
                let want = completed(self@);
                assert forall|k: int| 0 <= k < views.len() implies #[trigger] views[k]
                    == out@[k].deep_view() by {}
                assert(want.rows.dom() =~= self@.schemas.dom());
                assert(want.indexes.dom() =~= self@.schemas.dom());
                assert(want.next_row_ids.dom() =~= self@.schemas.dom());
                assert forall|k: int| 0 <= k < all.len() implies self@.schemas.dom().contains(
                    #[trigger] all[k],
                ) by {
                    assert(all.to_set().contains(all[k]));
                }
                let row_pairs = views.map_values(
                    |t: StoredTableView| (t.name, rows_loaded(t.table.rows)),
                );
                assert forall|k: int| 0 <= k < row_pairs.len() implies (#[trigger] row_pairs[k]).0
                    == all[k] && row_pairs[k].1 == want.rows[all[k]] by {
                    assert(views[k] == out@[k].deep_view());
                }
                lemma_loaded_all(row_pairs, all, want.rows);
                let index_pairs = views.map_values(
                    |t: StoredTableView| (t.name, indexes_loaded(t.indexes)),
                );
                assert forall|k: int|
                    0 <= k < index_pairs.len() implies (#[trigger] index_pairs[k]).0 == all[k]
                    && index_pairs[k].1 == want.indexes[all[k]] by {
                    assert(views[k] == out@[k].deep_view());
                    assert(well_named(below(self@.indexes, all[k])));
                }
                lemma_loaded_all(index_pairs, all, want.indexes);
                let number_pairs = views.map_values(
                    |t: StoredTableView| (t.name, t.table.next_row_id),
                );
                assert forall|k: int|
                    0 <= k < number_pairs.len() implies (#[trigger] number_pairs[k]).0 == all[k]
                    && number_pairs[k].1 == want.next_row_ids[all[k]] by {
                    assert(views[k] == out@[k].deep_view());
                }
                lemma_loaded_all(number_pairs, all, want.next_row_ids);
                assert(state_loaded(self@.schemas, views) =~= want);
            }
        }
        out
    }
}

} // verus!
