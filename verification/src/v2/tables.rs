//! What the tables of the engine hold: the versions of each row, in trees that have no page in
//! common.

use vstd::prelude::*;

use crate::common::error::ErrorView;
use crate::common::json::json_bytes;
use crate::common::ordmap::OrdKey;
use crate::common::value::{RowId, SqlValue, TransactionId};
use crate::v2::catalog::CatalogModel;
use crate::v2::codec::{
    fresh, latest, law_changes_are_seen_by_their_maker, law_uncommitted_rows_are_private,
    lemma_seen_from, seen, seen_from, seen_row, sees, versions_json, with_changed, with_deleted,
    Held, VersionView,
};
use crate::v2::page::PageId;
use crate::v2::pager_model::PagerModel;
use crate::v2::storage_model::{
    roots_of, seen_rows_from, with_index_root, with_table_root, RowView, SlotView, StorageModel,
};
use crate::v2::schema_store::moved;
use crate::v2::tree_node::{ByteKey, EntryView, TreeKey};
use crate::v2::tree_shape::{
    entries_rise, grown, lemma_grown_twice, lemma_tree_kept, lemma_tree_same, listed,
    lists_contents, tree_became, tree_holds,
};
use crate::v2::tx_types::SnapshotView;
use crate::v2::values_json::row_json;

verus! {

/// The name of a tree: that of a table, or those of a table and an index.
pub enum TreeName {
    Table(Seq<char>),
    Index(Seq<char>, Seq<char>),
}

/// The trees of the engine: their pages, and what they hold.
pub struct Trees {
    pub pages: Map<TreeName, Set<PageId>>,
    pub rows: Map<Seq<char>, Map<u64, Seq<u8>>>,
    pub entries: Map<(Seq<char>, Seq<char>), Map<Seq<u8>, Seq<u8>>>,
}

/// What each table holds of its rows, by number.
pub type Tables = Map<Seq<char>, Map<u64, Held>>;

impl Trees {
    /// Whether a tree has a name.
    pub open spec fn named(self, name: TreeName) -> bool {
        match name {
            TreeName::Table(n) => self.rows.dom().contains(n),
            TreeName::Index(n, i) => self.entries.dom().contains((n, i)),
        }
    }

    /// Whether no two trees have a page in common.
    pub open spec fn apart(self) -> bool {
        forall|a: TreeName, b: TreeName|
            #![trigger self.pages[a], self.pages[b]]
            self.named(a) && self.named(b) && a != b ==> self.pages[a].disjoint(self.pages[b])
    }

    /// Whether the trees start where the catalog says, beside the first two pages.
    pub open spec fn stand(self, m: PagerModel, c: CatalogModel) -> bool {
        &&& 2 <= m.meta.page_count
        &&& self.rows.dom() == c.table_roots.dom()
        &&& forall|n: Seq<char>| #[trigger]
            self.rows.dom().contains(n) ==> tree_holds::<u64>(
                m,
                c.table_roots[n],
                self.pages[TreeName::Table(n)],
                self.rows[n],
            )
        &&& forall|n: Seq<char>, i: Seq<char>| #[trigger]
            self.entries.dom().contains((n, i)) <==> roots_of(c, n).dom().contains(i)
        &&& forall|n: Seq<char>, i: Seq<char>| #[trigger]
            self.entries.dom().contains((n, i)) ==> tree_holds::<ByteKey>(
                m,
                roots_of(c, n)[i],
                self.pages[TreeName::Index(n, i)],
                self.entries[(n, i)],
            )
        &&& self.apart()
    }
}

/// Rows as their tables hold them.
pub open spec fn stored(rows: Map<u64, Held>) -> Map<u64, Seq<u8>> {
    rows.map_values(|h: Held| h.bytes())
}

/// The rows of all tables as the tables hold them.
pub open spec fn all_stored(tables: Tables) -> Map<Seq<char>, Map<u64, Seq<u8>>> {
    tables.map_values(|rows: Map<u64, Held>| stored(rows))
}

/// Whether the tables of the engine hold certain versions of rows.
#[verifier::opaque]
pub open spec fn rows_in(m: StorageModel, tables: Tables) -> bool {
    exists|t: Trees| #[trigger]
        t.stand(m.pager, m.catalog) && t.rows == all_stored(tables)
}

/// What a transaction sees of a row among versions of rows.
pub open spec fn seen_in(
    rows: Map<u64, Held>,
    id: u64,
    txn: u64,
    snapshot: SnapshotView,
) -> Option<Seq<SqlValue>> {
    if rows.dom().contains(id) {
        seen(rows[id].versions(), txn, snapshot)
    } else {
        None
    }
}

/// Whether a list has the rows that a transaction sees, in the order of their numbers.
pub open spec fn lists_seen(
    list: Seq<RowView>,
    rows: Map<u64, Held>,
    txn: u64,
    snapshot: SnapshotView,
) -> bool {
    &&& forall|a: int, b: int|
        #![trigger list[a], list[b]]
        0 <= a < b < list.len() ==> list[a].id.0 < list[b].id.0
    &&& forall|id: u64, row: Seq<SqlValue>| #[trigger]
        list.contains(RowView { id: RowId(id), row }) <==> seen_in(rows, id, txn, snapshot) == Some(
            row,
        )
}

/// Whether a row is what a transaction sees of an entry.
spec fn seen_entry(
    row: RowView,
    entry: EntryView<u64>,
    txn: TransactionId,
    snapshot: SnapshotView,
) -> bool {
    row.id.0 == entry.key && seen_row(entry.value, txn.0, snapshot) == Ok::<_, ErrorView>(
        Some(row.row),
    )
}

/// Whether a list has what a transaction sees of entries, up to one.
spec fn lists_entries(
    list: Seq<RowView>,
    entries: Seq<EntryView<u64>>,
    txn: TransactionId,
    snapshot: SnapshotView,
    upto: int,
) -> bool {
    &&& forall|a: int, b: int|
        #![trigger list[a], list[b]]
        0 <= a < b < list.len() ==> list[a].id.0 < list[b].id.0
    &&& forall|a: int|
        0 <= a < list.len() ==> exists|k: int|
            0 <= k < upto && seen_entry(#[trigger] list[a], #[trigger] entries[k], txn, snapshot)
    &&& forall|k: int, row: RowView|
        #![trigger seen_entry(row, entries[k], txn, snapshot)]
        0 <= k < upto && seen_entry(row, entries[k], txn, snapshot) ==> list.contains(row)
}

proof fn lemma_lists_entries(
    list: Seq<RowView>,
    entries: Seq<EntryView<u64>>,
    txn: TransactionId,
    snapshot: SnapshotView,
    i: int,
)
    requires
        entries_rise::<u64>(entries),
        0 <= i <= entries.len(),
        lists_entries(list, entries, txn, snapshot, i),
    ensures
        seen_rows_from(entries, txn, snapshot, None, i, list) matches Ok(all) ==> lists_entries(
            all,
            entries,
            txn,
            snapshot,
            entries.len() as int,
        ),
    decreases entries.len() - i,
{
    if i < entries.len() {
        match seen_row(entries[i].value, txn.0, snapshot) {
            Err(_) => {},
            Ok(None) => {
                assert(lists_entries(list, entries, txn, snapshot, i + 1));
                lemma_lists_entries(list, entries, txn, snapshot, i + 1);
            },
            Ok(Some(row)) => {
                let item = RowView { id: RowId(entries[i].key), row };
                let longer = list.push(item);
                assert(seen_entry(item, entries[i], txn, snapshot));
                assert forall|a: int| 0 <= a < longer.len() implies exists|k: int|
                    0 <= k < i + 1 && seen_entry(
                        #[trigger] longer[a],
                        #[trigger] entries[k],
                        txn,
                        snapshot,
                    ) by {
                    if a < list.len() {
                        let k = choose|k: int|
                            0 <= k < i && seen_entry(
                                #[trigger] list[a],
                                #[trigger] entries[k],
                                txn,
                                snapshot,
                            );
                        assert(seen_entry(longer[a], entries[k], txn, snapshot));
                    } else {
                        assert(seen_entry(longer[a], entries[i], txn, snapshot));
                    }
                }
                assert forall|a: int, b: int|
                    #![trigger longer[a], longer[b]]
                    0 <= a < b < longer.len() implies longer[a].id.0 < longer[b].id.0 by {
                    if b == list.len() {
                        let k = choose|k: int|
                            0 <= k < i && seen_entry(
                                #[trigger] list[a],
                                #[trigger] entries[k],
                                txn,
                                snapshot,
                            );
                        assert(<u64 as OrdKey>::before(entries[k].key, entries[i].key));
                    } else {
                        assert(list[a].id.0 < list[b].id.0);
                    }
                }
                assert forall|k: int, x: RowView|
                    #![trigger seen_entry(x, entries[k], txn, snapshot)]
                    0 <= k < i + 1 && seen_entry(
                        x,
                        entries[k],
                        txn,
                        snapshot,
                    ) implies longer.contains(x) by {
                    if k < i {
                        assert(list.contains(x));
                        let a = list.index_of(x);
                        assert(longer[a] == x);
                    } else {
                        assert(x == item);
                        assert(longer[list.len() as int] == x);
                    }
                }
                lemma_lists_entries(longer, entries, txn, snapshot, i + 1);
            },
        }
    }
}

/// Going through the entries of a table gives the rows that a transaction sees.
pub proof fn lemma_lists_seen(
    entries: Seq<EntryView<u64>>,
    rows: Map<u64, Held>,
    txn: TransactionId,
    snapshot: SnapshotView,
    list: Seq<RowView>,
)
    requires
        lists_contents::<u64>(entries, stored(rows)),
        forall|k: int|
            0 <= k < entries.len() ==> seen_row(
                (#[trigger] entries[k]).value,
                txn.0,
                snapshot,
            ) == Ok::<_, ErrorView>(seen_in(rows, entries[k].key, txn.0, snapshot)),
        seen_rows_from(entries, txn, snapshot, None, 0, Seq::empty()) == Ok::<_, ErrorView>(list),
    ensures
        lists_seen(list, rows, txn.0, snapshot),
{
    lemma_lists_entries(Seq::empty(), entries, txn, snapshot, 0);
    assert forall|id: u64, row: Seq<SqlValue>| #[trigger]
        list.contains(RowView { id: RowId(id), row }) <==> seen_in(rows, id, txn.0, snapshot)
            == Some(row) by {
        let item = RowView { id: RowId(id), row };
        if list.contains(item) {
            let a = list.index_of(item);
            let k = choose|k: int|
                0 <= k < entries.len() && seen_entry(
                    #[trigger] list[a],
                    #[trigger] entries[k],
                    txn,
                    snapshot,
                );
            assert(seen_entry(item, entries[k], txn, snapshot));
        }
        if seen_in(rows, id, txn.0, snapshot) == Some(row) {
            assert(stored(rows).dom().contains(id));
            assert(listed(entries, id, stored(rows)[id]));
            let k = choose|k: int|
                0 <= k < entries.len() && #[trigger] entries[k] == (EntryView {
                    key: id,
                    value: stored(rows)[id],
                });
            assert(seen_entry(item, entries[k], txn, snapshot));
        }
    }
}

/// Tables with other versions of a row.
pub open spec fn with_versions(tables: Tables, table: Seq<char>, id: u64, v: Seq<VersionView>) -> Tables {
    tables.insert(table, tables[table].insert(id, Held::Versions(v)))
}

/// Tables once a transaction has deleted a row, where it sees it.
pub open spec fn deleted_in(
    tables: Tables,
    table: Seq<char>,
    id: u64,
    txn: u64,
    snapshot: SnapshotView,
) -> Tables {
    if seen_in(tables[table], id, txn, snapshot) is Some {
        with_versions(
            tables,
            table,
            id,
            with_deleted(tables[table][id].versions(), txn, snapshot)->Some_0,
        )
    } else {
        tables
    }
}

/// Tables once a transaction has changed a row, where it sees it otherwise.
pub open spec fn changed_in(
    tables: Tables,
    table: Seq<char>,
    id: u64,
    row: Seq<SqlValue>,
    txn: u64,
    snapshot: SnapshotView,
) -> Tables {
    let before = seen_in(tables[table], id, txn, snapshot);
    if before is Some && before != Some(row) {
        with_versions(
            tables,
            table,
            id,
            with_changed(tables[table][id].versions(), row, txn, snapshot)->Some_0,
        )
    } else {
        tables
    }
}

/// A row that was held, with one more value. Its latest version is held alone.
pub open spec fn lengthened(h: Held, value: SqlValue) -> Held {
    Held::Plain(latest(h.versions()).push(value))
}

/// Rows that were held, with one more value.
pub open spec fn all_lengthened(rows: Map<u64, Held>, value: SqlValue) -> Map<u64, Held> {
    rows.map_values(|h: Held| lengthened(h, value))
}

/// Rows once those with the first keys of a list have one more value.
pub open spec fn lengthened_upto(
    rows: Map<u64, Held>,
    entries: Seq<EntryView<u64>>,
    value: SqlValue,
    upto: int,
) -> Map<u64, Held>
    decreases upto,
{
    if upto <= 0 {
        rows
    } else {
        let before = lengthened_upto(rows, entries, value, upto - 1);
        let key = entries[upto - 1].key;
        before.insert(key, lengthened(rows[key], value))
    }
}

/// Where a list has all rows, all have one more value in the end.
proof fn lemma_all_lengthened(
    rows: Map<u64, Held>,
    entries: Seq<EntryView<u64>>,
    value: SqlValue,
)
    requires
        lists_contents::<u64>(entries, stored(rows)),
    ensures
        lengthened_upto(rows, entries, value, entries.len() as int) == all_lengthened(
            rows,
            value,
        ),
{
    let all = lengthened_upto(rows, entries, value, entries.len() as int);
    lemma_lengthened_upto(rows, entries, value, entries.len() as int);
    assert forall|k: u64| #[trigger] rows.dom().contains(k) implies exists|j: int|
        0 <= j < entries.len() && #[trigger] entries[j].key == k by {
        assert(stored(rows).dom().contains(k));
        assert(listed(entries, k, stored(rows)[k]));
    }
    assert forall|j: int| 0 <= j < entries.len() implies rows.dom().contains(
        (#[trigger] entries[j]).key,
    ) by {
        let e = entries[j];
        assert(entries[j] == (EntryView { key: e.key, value: e.value }));
        assert(listed(entries, e.key, e.value));
        assert(stored(rows).dom().contains(e.key));
    }
    assert(all =~= all_lengthened(rows, value));
}

proof fn lemma_lengthened_upto(
    rows: Map<u64, Held>,
    entries: Seq<EntryView<u64>>,
    value: SqlValue,
    upto: int,
)
    requires
        0 <= upto <= entries.len(),
    ensures
        ({
            let now = lengthened_upto(rows, entries, value, upto);
            &&& forall|k: u64| #[trigger]
                now.dom().contains(k) <==> rows.dom().contains(k) || exists|j: int|
                    0 <= j < upto && #[trigger] entries[j].key == k
            &&& forall|k: u64|
                now.dom().contains(k) ==> #[trigger] now[k] == (if exists|j: int|
                    0 <= j < upto && #[trigger] entries[j].key == k {
                    lengthened(rows[k], value)
                } else {
                    rows[k]
                })
        }),
    decreases upto,
{
    if upto > 0 {
        lemma_lengthened_upto(rows, entries, value, upto - 1);
        let before = lengthened_upto(rows, entries, value, upto - 1);
        let now = lengthened_upto(rows, entries, value, upto);
        assert(entries[upto - 1].key == entries[upto - 1].key);
        assert forall|k: u64| #[trigger] now.dom().contains(k) <==> rows.dom().contains(k) || exists|
            j: int,
        |
            0 <= j < upto && #[trigger] entries[j].key == k by {
            if before.dom().contains(k) {
            }
            if exists|j: int| 0 <= j < upto && #[trigger] entries[j].key == k {
                let j = choose|j: int| 0 <= j < upto && #[trigger] entries[j].key == k;
                if j < upto - 1 {
                    assert(before.dom().contains(k));
                }
            }
        }
        assert forall|k: u64| now.dom().contains(k) implies #[trigger] now[k] == (if exists|j: int|
            0 <= j < upto && #[trigger] entries[j].key == k {
            lengthened(rows[k], value)
        } else {
            rows[k]
        }) by {
            if k != entries[upto - 1].key {
                assert(before.dom().contains(k));
                assert(now[k] == before[k]);
            }
        }
    }
}

/// A tree that became another and then a third became the third.
proof fn lemma_became_twice<K: TreeKey>(
    m: PagerModel,
    pages: Set<PageId>,
    middle: PagerModel,
    between: PageId,
    first: Map<K::V, Seq<u8>>,
    after: PagerModel,
    root: PageId,
    second: Map<K::V, Seq<u8>>,
)
    requires
        tree_became::<K>(m, pages, middle, between, first),
        forall|p: Set<PageId>| #[trigger]
            tree_holds::<K>(middle, between, p, first) ==> tree_became::<K>(
                middle,
                p,
                after,
                root,
                second,
            ),
    ensures
        tree_became::<K>(m, pages, after, root, second),
{
    let p = choose|p: Set<PageId>| #[trigger]
        grown(m, pages, middle, p) && tree_holds::<K>(middle, between, p, first);
    let now = choose|now: Set<PageId>| #[trigger]
        grown(middle, p, after, now) && tree_holds::<K>(after, root, now, second);
    lemma_grown_twice(m, pages, middle, p, after, now);
}

/// Whether a table became one in which the rows with the first keys of a list have one more
/// value, whatever rows it held.
pub closed spec fn lengthens(
    m: PagerModel,
    root: PageId,
    entries: Seq<EntryView<u64>>,
    value: SqlValue,
    upto: int,
    after: PagerModel,
    new: PageId,
) -> bool {
    forall|pages: Set<PageId>, rows: Map<u64, Held>| #[trigger]
        tree_holds::<u64>(m, root, pages, stored(rows)) && lists_contents::<u64>(
            entries,
            stored(rows),
        ) ==> tree_became::<u64>(
            m,
            pages,
            after,
            new,
            stored(lengthened_upto(rows, entries, value, upto)),
        )
}

pub proof fn lemma_lengthens_none(
    m: PagerModel,
    root: PageId,
    entries: Seq<EntryView<u64>>,
    value: SqlValue,
)
    ensures
        lengthens(m, root, entries, value, 0, m, root),
{
    assert forall|pages: Set<PageId>, rows: Map<u64, Held>| #[trigger]
        tree_holds::<u64>(m, root, pages, stored(rows)) && lists_contents::<u64>(
            entries,
            stored(rows),
        ) implies tree_became::<u64>(
        m,
        pages,
        m,
        root,
        stored(lengthened_upto(rows, entries, value, 0)),
    ) by {
        assert(grown(m, pages, m, pages));
    }
}

pub proof fn lemma_lengthens_one(
    m: PagerModel,
    root: PageId,
    entries: Seq<EntryView<u64>>,
    value: SqlValue,
    i: int,
    middle: PagerModel,
    between: PageId,
    row: Seq<SqlValue>,
    after: PagerModel,
    new: PageId,
)
    requires
        0 <= i < entries.len(),
        lengthens(m, root, entries, value, i, middle, between),
        forall|h: Held|
            entries[i].value == #[trigger] h.bytes() ==> row == latest(h.versions()).push(value),
        forall|pages: Set<PageId>, c: Map<u64, Seq<u8>>| #[trigger]
            tree_holds::<u64>(middle, between, pages, c) ==> tree_became::<u64>(
                middle,
                pages,
                after,
                new,
                c.insert(entries[i].key, json_bytes(row_json(row))),
            ),
    ensures
        lengthens(m, root, entries, value, i + 1, after, new),
{
    let e = entries[i];
    assert forall|pages: Set<PageId>, rows: Map<u64, Held>| #[trigger]
        tree_holds::<u64>(m, root, pages, stored(rows)) && lists_contents::<u64>(
            entries,
            stored(rows),
        ) implies tree_became::<u64>(
        m,
        pages,
        after,
        new,
        stored(lengthened_upto(rows, entries, value, i + 1)),
    ) by {
        assert(entries[i] == (EntryView { key: e.key, value: e.value }));
        assert(listed(entries, e.key, e.value));
        assert(stored(rows).dom().contains(e.key));
        assert(e.value == rows[e.key].bytes());
        let before = lengthened_upto(rows, entries, value, i);
        let now = lengthened_upto(rows, entries, value, i + 1);
        assert(now == before.insert(e.key, lengthened(rows[e.key], value)));
        assert(stored(now) =~= stored(before).insert(e.key, json_bytes(row_json(row))));
        lemma_became_twice::<u64>(
            m,
            pages,
            middle,
            between,
            stored(before),
            after,
            new,
            stored(now),
        );
    }
}

pub proof fn lemma_lengthens_all(
    m: PagerModel,
    root: PageId,
    entries: Seq<EntryView<u64>>,
    value: SqlValue,
    after: PagerModel,
    new: PageId,
)
    requires
        lengthens(m, root, entries, value, entries.len() as int, after, new),
    ensures
        forall|pages: Set<PageId>, rows: Map<u64, Held>| #[trigger]
            tree_holds::<u64>(m, root, pages, stored(rows)) && lists_contents::<u64>(
                entries,
                stored(rows),
            ) ==> tree_became::<u64>(
                m,
                pages,
                after,
                new,
                stored(all_lengthened(rows, value)),
            ),
{
    assert forall|pages: Set<PageId>, rows: Map<u64, Held>| #[trigger]
        tree_holds::<u64>(m, root, pages, stored(rows)) && lists_contents::<u64>(
            entries,
            stored(rows),
        ) implies tree_became::<u64>(
        m,
        pages,
        after,
        new,
        stored(all_lengthened(rows, value)),
    ) by {
        lemma_all_lengthened(rows, entries, value);
    }
}

/// Tables once one of them holds other rows.
pub proof fn lemma_rows_put(
    m: StorageModel,
    tables: Tables,
    table: Seq<char>,
    root: PageId,
    after: StorageModel,
    new: PageId,
    rows: Map<u64, Held>,
)
    requires
        rows_in(m, tables),
        starts_at(m.catalog, table, root),
        forall|pages: Set<PageId>| #[trigger]
            tree_holds::<u64>(m.pager, root, pages, stored(tables[table])) ==> tree_became::<u64>(
                m.pager,
                pages,
                after.pager,
                new,
                stored(rows),
            ),
        after.catalog.table_roots == m.catalog.table_roots.insert(table, new),
        after.catalog.index_roots == m.catalog.index_roots,
    ensures
        rows_in(after, tables.insert(table, rows)),
{
    reveal(rows_in);
    let t = choose|t: Trees| #[trigger]
        t.stand(m.pager, m.catalog) && t.rows == all_stored(tables);
    assert(t.rows.dom().contains(table));
    let pages = t.pages[TreeName::Table(table)];
    assert(tree_holds::<u64>(m.pager, root, pages, t.rows[table]));
    let u = lemma_table_changed(
        t,
        m.pager,
        m.catalog,
        table,
        pages,
        after.pager,
        new,
        stored(rows),
    );
    lemma_stand_alike(
        u,
        after.pager,
        CatalogModel { table_roots: m.catalog.table_roots.insert(table, new), ..m.catalog },
        after.catalog,
    );
    assert(u.rows =~= all_stored(tables.insert(table, rows)));
}

/// Whether a table starts at a page.
pub open spec fn starts_at(c: CatalogModel, table: Seq<char>, root: PageId) -> bool {
    c.table_roots.dom().contains(table) && c.table_roots[table] == root
}

/// Whether indexes of a table, from one on, start where they are said to, and no two have the
/// same name.
pub open spec fn slots_stand(c: CatalogModel, table: Seq<char>, list: Seq<SlotView>, from: int) -> bool {
    &&& forall|j: int|
        from <= j < list.len() ==> slot_stands(c, table, #[trigger] list[j])
    &&& forall|j: int, k: int|
        #![trigger list[j], list[k]]
        0 <= j < k < list.len() ==> list[j].name != list[k].name
}

/// Whether an index of a table starts where it is said to.
pub open spec fn slot_stands(c: CatalogModel, table: Seq<char>, slot: SlotView) -> bool {
    roots_of(c, table).dom().contains(slot.name) && roots_of(c, table)[slot.name] == slot.root
}

/// The trees once one of a table is another. `before` are the pages of the table, if it had any.
pub proof fn lemma_table_changed(
    t: Trees,
    m: PagerModel,
    c: CatalogModel,
    table: Seq<char>,
    before: Set<PageId>,
    after: PagerModel,
    root: PageId,
    contents: Map<u64, Seq<u8>>,
) -> (u: Trees)
    requires
        t.stand(m, c),
        tree_became::<u64>(m, before, after, root, contents),
        before.is_empty() || (t.rows.dom().contains(table) && before
            == t.pages[TreeName::Table(table)]),
    ensures
        u.stand(after, CatalogModel { table_roots: c.table_roots.insert(table, root), ..c }),
        u.rows == t.rows.insert(table, contents),
{
    let now = choose|now: Set<PageId>| #[trigger]
        grown(m, before, after, now) && tree_holds::<u64>(after, root, now, contents);
    let name = TreeName::Table(table);
    let u = Trees { pages: t.pages.insert(name, now), rows: t.rows.insert(table, contents), ..t };
    let d = CatalogModel { table_roots: c.table_roots.insert(table, root), ..c };
    assert(u.rows.dom() =~= d.table_roots.dom());
    assert forall|a: TreeName| t.named(a) && a != name implies (#[trigger] t.pages[a]).disjoint(
        before,
    ) by {
        if t.rows.dom().contains(table) {
            assert(t.pages[a].disjoint(t.pages[name]));
        }
    }
    assert forall|n: Seq<char>| #[trigger] u.rows.dom().contains(n) implies tree_holds::<u64>(
        after,
        d.table_roots[n],
        u.pages[TreeName::Table(n)],
        u.rows[n],
    ) by {
        if n != table {
            assert(t.rows.dom().contains(n));
            lemma_tree_kept::<u64>(
                m,
                before,
                after,
                now,
                c.table_roots[n],
                t.pages[TreeName::Table(n)],
                t.rows[n],
            );
        }
    }
    assert forall|n: Seq<char>, i: Seq<char>| #[trigger]
        u.entries.dom().contains((n, i)) implies tree_holds::<ByteKey>(
        after,
        roots_of(d, n)[i],
        u.pages[TreeName::Index(n, i)],
        u.entries[(n, i)],
    ) by {
        lemma_tree_kept::<ByteKey>(
            m,
            before,
            after,
            now,
            roots_of(c, n)[i],
            t.pages[TreeName::Index(n, i)],
            t.entries[(n, i)],
        );
    }
    lemma_apart_kept(t, m, c, name, before, after, now, u);
    u
}

/// Trees have no page in common once one of them grew.
proof fn lemma_apart_kept(
    t: Trees,
    m: PagerModel,
    c: CatalogModel,
    name: TreeName,
    before: Set<PageId>,
    after: PagerModel,
    now: Set<PageId>,
    u: Trees,
)
    requires
        t.stand(m, c),
        grown(m, before, after, now),
        forall|a: TreeName|
            t.named(a) && a != name ==> (#[trigger] t.pages[a]).disjoint(before),
        u.pages == t.pages.insert(name, now),
        forall|a: TreeName| a != name && #[trigger] u.named(a) ==> t.named(a),
    ensures
        u.apart(),
{
    assert forall|a: TreeName| a != name && t.named(a) implies (#[trigger] t.pages[a]).disjoint(
        now,
    ) by {
        match a {
            TreeName::Table(n) => {
                assert(t.rows.dom().contains(n));
                lemma_tree_kept::<u64>(
                    m,
                    before,
                    after,
                    now,
                    c.table_roots[n],
                    t.pages[a],
                    t.rows[n],
                );
            },
            TreeName::Index(n, i) => {
                assert(t.entries.dom().contains((n, i)));
                lemma_tree_kept::<ByteKey>(
                    m,
                    before,
                    after,
                    now,
                    roots_of(c, n)[i],
                    t.pages[a],
                    t.entries[(n, i)],
                );
            },
        }
    }
    assert forall|a: TreeName, b: TreeName|
        #![trigger u.pages[a], u.pages[b]]
        u.named(a) && u.named(b) && a != b implies u.pages[a].disjoint(u.pages[b]) by {
        if a == name {
            assert(t.pages[b].disjoint(now));
        } else if b == name {
            assert(t.pages[a].disjoint(now));
        } else {
            assert(t.pages[a].disjoint(t.pages[b]));
        }
    }
}

/// The trees once one of an index is another. `before` are the pages of the index, if it had
/// any.
pub proof fn lemma_index_changed(
    t: Trees,
    m: PagerModel,
    c: CatalogModel,
    table: Seq<char>,
    index: Seq<char>,
    before: Set<PageId>,
    after: PagerModel,
    root: PageId,
    contents: Map<Seq<u8>, Seq<u8>>,
) -> (u: Trees)
    requires
        t.stand(m, c),
        tree_became::<ByteKey>(m, before, after, root, contents),
        before.is_empty() || (t.entries.dom().contains((table, index)) && before
            == t.pages[TreeName::Index(table, index)]),
    ensures
        u.stand(
            after,
            CatalogModel {
                index_roots: c.index_roots.insert(table, roots_of(c, table).insert(index, root)),
                ..c
            },
        ),
        u.rows == t.rows,
        u.entries == t.entries.insert((table, index), contents),
{
    let now = choose|now: Set<PageId>| #[trigger]
        grown(m, before, after, now) && tree_holds::<ByteKey>(after, root, now, contents);
    let name = TreeName::Index(table, index);
    let u = Trees {
        pages: t.pages.insert(name, now),
        entries: t.entries.insert((table, index), contents),
        ..t
    };
    let d = CatalogModel {
        index_roots: c.index_roots.insert(table, roots_of(c, table).insert(index, root)),
        ..c
    };
    assert forall|a: TreeName| t.named(a) && a != name implies (#[trigger] t.pages[a]).disjoint(
        before,
    ) by {
        if t.entries.dom().contains((table, index)) {
            assert(t.pages[a].disjoint(t.pages[name]));
        }
    }
    assert forall|n: Seq<char>| #[trigger] u.rows.dom().contains(n) implies tree_holds::<u64>(
        after,
        d.table_roots[n],
        u.pages[TreeName::Table(n)],
        u.rows[n],
    ) by {
        lemma_tree_kept::<u64>(
            m,
            before,
            after,
            now,
            c.table_roots[n],
            t.pages[TreeName::Table(n)],
            t.rows[n],
        );
    }
    assert forall|n: Seq<char>, i: Seq<char>| #[trigger]
        u.entries.dom().contains((n, i)) <==> roots_of(d, n).dom().contains(i) by {
        if (n, i) != (table, index) {
            assert(t.entries.dom().contains((n, i)) <==> roots_of(c, n).dom().contains(i));
        }
    }
    assert forall|n: Seq<char>, i: Seq<char>| #[trigger]
        u.entries.dom().contains((n, i)) implies tree_holds::<ByteKey>(
        after,
        roots_of(d, n)[i],
        u.pages[TreeName::Index(n, i)],
        u.entries[(n, i)],
    ) by {
        if (n, i) != (table, index) {
            assert(t.entries.dom().contains((n, i)));
            lemma_tree_kept::<ByteKey>(
                m,
                before,
                after,
                now,
                roots_of(c, n)[i],
                t.pages[TreeName::Index(n, i)],
                t.entries[(n, i)],
            );
        }
    }
    lemma_apart_kept(t, m, c, name, before, after, now, u);
    u
}

/// Whether a tree on some pages became another, and all other pages are as they were.
pub open spec fn tree_changed<K: TreeKey>(
    m: PagerModel,
    pages: Set<PageId>,
    after: PagerModel,
    root: PageId,
) -> bool {
    exists|contents: Map<K::V, Seq<u8>>| #[trigger]
        tree_became::<K>(m, pages, after, root, contents)
}

/// A tree that changed twice changed.
pub proof fn lemma_changed_twice<K: TreeKey>(
    m: PagerModel,
    pages: Set<PageId>,
    middle: PagerModel,
    between: PageId,
    after: PagerModel,
    root: PageId,
)
    requires
        tree_changed::<K>(m, pages, middle, between),
        forall|p: Set<PageId>, c: Map<K::V, Seq<u8>>| #[trigger]
            tree_holds::<K>(middle, between, p, c) ==> tree_changed::<K>(middle, p, after, root),
    ensures
        tree_changed::<K>(m, pages, after, root),
{
    let c = choose|c: Map<K::V, Seq<u8>>| #[trigger]
        tree_became::<K>(m, pages, middle, between, c);
    let p = choose|p: Set<PageId>| #[trigger]
        grown(m, pages, middle, p) && tree_holds::<K>(middle, between, p, c);
    let d = choose|d: Map<K::V, Seq<u8>>| #[trigger]
        tree_became::<K>(middle, p, after, root, d);
    let now = choose|now: Set<PageId>| #[trigger]
        grown(middle, p, after, now) && tree_holds::<K>(after, root, now, d);
    lemma_grown_twice(m, pages, middle, p, after, now);
    assert(tree_became::<K>(m, pages, after, root, d));
}

/// A tree that is as it was did not change for the worse.
pub proof fn lemma_unchanged<K: TreeKey>(m: PagerModel, root: PageId)
    ensures
        forall|pages: Set<PageId>, c: Map<K::V, Seq<u8>>| #[trigger]
            tree_holds::<K>(m, root, pages, c) ==> tree_changed::<K>(m, pages, m, root),
{
    assert forall|pages: Set<PageId>, c: Map<K::V, Seq<u8>>| #[trigger]
        tree_holds::<K>(m, root, pages, c) implies tree_changed::<K>(m, pages, m, root) by {
        assert(grown(m, pages, m, pages));
        assert(tree_became::<K>(m, pages, m, root, c));
    }
}

/// The pages of a table, which hold its rows.
pub proof fn lemma_table_held(m: StorageModel, tables: Tables, table: Seq<char>) -> (pages: Set<PageId>)
    requires
        rows_in(m, tables),
        m.catalog.table_roots.dom().contains(table),
    ensures
        tables.dom().contains(table),
        tree_holds::<u64>(
            m.pager,
            m.catalog.table_roots[table],
            pages,
            stored(tables[table]),
        ),
{
    reveal(rows_in);
    let t = choose|t: Trees| #[trigger]
        t.stand(m.pager, m.catalog) && t.rows == all_stored(tables);
    assert(t.rows.dom().contains(table));
    t.pages[TreeName::Table(table)]
}

/// The tables that hold rows are those that start somewhere.
pub proof fn lemma_same_names(m: StorageModel, tables: Tables)
    requires
        rows_in(m, tables),
    ensures
        tables.dom() == m.catalog.table_roots.dom(),
{
    reveal(rows_in);
    let t = choose|t: Trees| #[trigger]
        t.stand(m.pager, m.catalog) && t.rows == all_stored(tables);
    assert(t.rows.dom() =~= tables.dom());
}

/// Tables once a table holds other versions of a row.
pub proof fn lemma_row_put(
    m: StorageModel,
    tables: Tables,
    table: Seq<char>,
    root: PageId,
    after: PagerModel,
    new: PageId,
    id: u64,
    v: Seq<VersionView>,
)
    requires
        rows_in(m, tables),
        starts_at(m.catalog, table, root),
        forall|pages: Set<PageId>, c: Map<u64, Seq<u8>>| #[trigger]
            tree_holds::<u64>(m.pager, root, pages, c) ==> tree_became::<u64>(
                m.pager,
                pages,
                after,
                new,
                c.insert(id, json_bytes(versions_json(v))),
            ),
    ensures
        rows_in(
            m.with_pager(after).with_catalog(with_table_root(m.catalog, table, root, new)),
            with_versions(tables, table, id, v),
        ),
{
    reveal(rows_in);
    let t = choose|t: Trees| #[trigger]
        t.stand(m.pager, m.catalog) && t.rows == all_stored(tables);
    assert(t.rows.dom().contains(table));
    let pages = t.pages[TreeName::Table(table)];
    assert(tree_holds::<u64>(m.pager, root, pages, t.rows[table]));
    let u = lemma_table_changed(
        t,
        m.pager,
        m.catalog,
        table,
        pages,
        after,
        new,
        t.rows[table].insert(id, json_bytes(versions_json(v))),
    );
    let c = with_table_root(m.catalog, table, root, new);
    assert(c.table_roots =~= m.catalog.table_roots.insert(table, new));
    let n = m.with_pager(after).with_catalog(c);
    assert(u.stand(n.pager, n.catalog));
    let more = with_versions(tables, table, id, v);
    assert(stored(more[table]) =~= t.rows[table].insert(id, json_bytes(versions_json(v))));
    assert(u.rows =~= all_stored(more));
}

/// Tables hold what they held once an index is another.
pub proof fn lemma_index_put(
    m: StorageModel,
    tables: Tables,
    table: Seq<char>,
    slot: SlotView,
    after: PagerModel,
    new: PageId,
)
    requires
        rows_in(m, tables),
        slot_stands(m.catalog, table, slot),
        forall|pages: Set<PageId>, c: Map<Seq<u8>, Seq<u8>>| #[trigger]
            tree_holds::<ByteKey>(m.pager, slot.root, pages, c) ==> tree_changed::<ByteKey>(
                m.pager,
                pages,
                after,
                new,
            ),
    ensures
        rows_in(
            m.with_pager(after).with_catalog(
                with_index_root(m.catalog, table, slot.name, slot.root, new),
            ),
            tables,
        ),
{
    reveal(rows_in);
    let t = choose|t: Trees| #[trigger]
        t.stand(m.pager, m.catalog) && t.rows == all_stored(tables);
    assert(t.entries.dom().contains((table, slot.name)));
    let pages = t.pages[TreeName::Index(table, slot.name)];
    assert(tree_holds::<ByteKey>(m.pager, slot.root, pages, t.entries[(table, slot.name)]));
    let d = choose|d: Map<Seq<u8>, Seq<u8>>| #[trigger]
        tree_became::<ByteKey>(m.pager, pages, after, new, d);
    let u = lemma_index_changed(
        t,
        m.pager,
        m.catalog,
        table,
        slot.name,
        pages,
        after,
        new,
        d,
    );
    let c = with_index_root(m.catalog, table, slot.name, slot.root, new);
    if new == slot.root {
        assert(roots_of(m.catalog, table).insert(slot.name, new) =~= roots_of(m.catalog, table));
        assert(m.catalog.index_roots.dom().contains(table));
    }
    assert(c.index_roots =~= m.catalog.index_roots.insert(
        table,
        roots_of(m.catalog, table).insert(slot.name, new),
    ));
    let n = m.with_pager(after).with_catalog(c);
    assert(u.stand(n.pager, n.catalog));
}

/// Indexes start where they are said to once one before them starts elsewhere.
pub proof fn lemma_slots_kept(
    c: CatalogModel,
    table: Seq<char>,
    list: Seq<SlotView>,
    i: int,
    root: PageId,
)
    requires
        slots_stand(c, table, list, i),
        0 <= i < list.len(),
    ensures
        slots_stand(
            with_index_root(c, table, list[i].name, list[i].root, root),
            table,
            list,
            i + 1,
        ),
{
    let d = with_index_root(c, table, list[i].name, list[i].root, root);
    assert forall|j: int| i + 1 <= j < list.len() implies slot_stands(
        d,
        table,
        #[trigger] list[j],
    ) by {
        assert(slot_stands(c, table, list[j]));
        assert(list[i].name != list[j].name);
    }
}

/// Indexes start where they are said to in any catalog with the same starts.
pub proof fn lemma_slots_alike(
    c: CatalogModel,
    d: CatalogModel,
    table: Seq<char>,
    list: Seq<SlotView>,
)
    requires
        c.index_roots == d.index_roots,
    ensures
        slots_stand(c, table, list, 0) ==> slots_stand(d, table, list, 0),
{
    if slots_stand(c, table, list, 0) {
        assert forall|j: int| 0 <= j < list.len() implies slot_stands(
            d,
            table,
            #[trigger] list[j],
        ) by {
            assert(slot_stands(c, table, list[j]));
        }
    }
}

/// The tables that hold rows are those that start somewhere.
pub proof fn lemma_table_names(m: StorageModel, tables: Tables)
    requires
        rows_in(m, tables),
    ensures
        tables.dom() == m.catalog.table_roots.dom(),
{
    reveal(rows_in);
    let t = choose|t: Trees| #[trigger]
        t.stand(m.pager, m.catalog) && t.rows == all_stored(tables);
    assert(t.rows.dom() =~= tables.dom());
}

/// There is room for the first two pages where tables stand.
pub proof fn lemma_room(m: StorageModel, tables: Tables)
    requires
        rows_in(m, tables),
    ensures
        2 <= m.pager.meta.page_count,
{
    reveal(rows_in);
}

/// Tables once there is a new one.
pub proof fn lemma_table_made(
    m: StorageModel,
    tables: Tables,
    table: Seq<char>,
    after: StorageModel,
    root: PageId,
)
    requires
        rows_in(m, tables),
        tree_became::<u64>(
            m.pager,
            Set::<PageId>::empty(),
            after.pager,
            root,
            Map::<u64, Seq<u8>>::empty(),
        ),
        after.catalog.table_roots == m.catalog.table_roots.insert(table, root),
        after.catalog.index_roots == m.catalog.index_roots,
    ensures
        rows_in(after, tables.insert(table, Map::empty())),
{
    reveal(rows_in);
    let t = choose|t: Trees| #[trigger]
        t.stand(m.pager, m.catalog) && t.rows == all_stored(tables);
    let u = lemma_table_changed(
        t,
        m.pager,
        m.catalog,
        table,
        Set::empty(),
        after.pager,
        root,
        Map::empty(),
    );
    lemma_stand_alike(
        u,
        after.pager,
        CatalogModel { table_roots: m.catalog.table_roots.insert(table, root), ..m.catalog },
        after.catalog,
    );
    let more = tables.insert(table, Map::empty());
    assert(stored(more[table]) =~= Map::<u64, Seq<u8>>::empty());
    assert(u.rows =~= all_stored(more));
}

/// Trees stand in any catalog with the same starts.
proof fn lemma_stand_alike(t: Trees, m: PagerModel, c: CatalogModel, d: CatalogModel)
    requires
        t.stand(m, c),
        c.table_roots == d.table_roots,
        c.index_roots == d.index_roots,
    ensures
        t.stand(m, d),
{
    assert forall|n: Seq<char>, i: Seq<char>| #[trigger]
        t.entries.dom().contains((n, i)) <==> roots_of(d, n).dom().contains(i) by {
        assert(roots_of(c, n) == roots_of(d, n));
    }
}

/// Tables hold what they held once there is a new index.
pub proof fn lemma_index_made(
    m: StorageModel,
    tables: Tables,
    table: Seq<char>,
    index: Seq<char>,
    after: StorageModel,
    root: PageId,
)
    requires
        rows_in(m, tables),
        tree_changed::<ByteKey>(m.pager, Set::<PageId>::empty(), after.pager, root),
        after.catalog.table_roots == m.catalog.table_roots,
        after.catalog.index_roots == m.catalog.index_roots.insert(
            table,
            roots_of(m.catalog, table).insert(index, root),
        ),
    ensures
        rows_in(after, tables),
{
    reveal(rows_in);
    let t = choose|t: Trees| #[trigger]
        t.stand(m.pager, m.catalog) && t.rows == all_stored(tables);
    let d = choose|d: Map<Seq<u8>, Seq<u8>>| #[trigger]
        tree_became::<ByteKey>(m.pager, Set::<PageId>::empty(), after.pager, root, d);
    let u = lemma_index_changed(
        t,
        m.pager,
        m.catalog,
        table,
        index,
        Set::empty(),
        after.pager,
        root,
        d,
    );
    lemma_stand_alike(
        u,
        after.pager,
        CatalogModel {
            index_roots: m.catalog.index_roots.insert(
                table,
                roots_of(m.catalog, table).insert(index, root),
            ),
            ..m.catalog
        },
        after.catalog,
    );
}

/// Tables that are left hold what they held once tables or indexes are dropped.
pub proof fn lemma_fewer_trees(m: StorageModel, tables: Tables, after: StorageModel)
    requires
        rows_in(m, tables),
        after.pager == m.pager,
        after.catalog.table_roots.submap_of(m.catalog.table_roots),
        forall|n: Seq<char>| #[trigger]
            roots_of(after.catalog, n).submap_of(roots_of(m.catalog, n)),
    ensures
        rows_in(after, tables.restrict(after.catalog.table_roots.dom())),
{
    reveal(rows_in);
    let t = choose|t: Trees| #[trigger]
        t.stand(m.pager, m.catalog) && t.rows == all_stored(tables);
    let c = m.catalog;
    let d = after.catalog;
    let u = Trees {
        rows: t.rows.restrict(d.table_roots.dom()),
        entries: Map::new(
            |x: (Seq<char>, Seq<char>)| roots_of(d, x.0).dom().contains(x.1),
            |x: (Seq<char>, Seq<char>)| t.entries[x],
        ),
        ..t
    };
    assert(u.rows.dom() =~= d.table_roots.dom());
    assert forall|n: Seq<char>| #[trigger] u.rows.dom().contains(n) implies tree_holds::<u64>(
        m.pager,
        d.table_roots[n],
        u.pages[TreeName::Table(n)],
        u.rows[n],
    ) by {
        assert(t.rows.dom().contains(n));
    }
    assert forall|n: Seq<char>, i: Seq<char>| #[trigger]
        u.entries.dom().contains((n, i)) implies t.entries.dom().contains((n, i)) && tree_holds::<
        ByteKey,
    >(m.pager, roots_of(d, n)[i], u.pages[TreeName::Index(n, i)], u.entries[(n, i)]) by {
        assert(roots_of(d, n).submap_of(roots_of(c, n)));
        assert(roots_of(c, n).dom().contains(i));
        assert(t.entries.dom().contains((n, i)));
    }
    assert forall|a: TreeName| #[trigger] u.named(a) implies t.named(a) by {
        match a {
            TreeName::Table(n) => {
                assert(t.rows.dom().contains(n));
            },
            TreeName::Index(n, i) => {
                assert(u.entries.dom().contains((n, i)));
            },
        }
    }
    assert(u.apart()) by {
        assert forall|a: TreeName, b: TreeName|
            #![trigger u.pages[a], u.pages[b]]
            u.named(a) && u.named(b) && a != b implies u.pages[a].disjoint(u.pages[b]) by {
            assert(t.pages[a].disjoint(t.pages[b]));
        }
    }
    assert(u.stand(after.pager, after.catalog));
    let left = tables.restrict(d.table_roots.dom());
    assert(u.rows =~= all_stored(left));
}

/// Tables hold what they held once one of them has another name.
pub proof fn lemma_tree_renamed(
    m: StorageModel,
    tables: Tables,
    old_name: Seq<char>,
    new_name: Seq<char>,
    after: StorageModel,
)
    requires
        rows_in(m, tables),
        old_name != new_name,
        after.pager == m.pager,
        after.catalog.table_roots == moved(m.catalog.table_roots, old_name, new_name),
        after.catalog.index_roots == moved(m.catalog.index_roots, old_name, new_name),
    ensures
        rows_in(after, moved(tables, old_name, new_name)),
{
    reveal(rows_in);
    let t = choose|t: Trees| #[trigger]
        t.stand(m.pager, m.catalog) && t.rows == all_stored(tables);
    let c = m.catalog;
    let d = after.catalog;
    let table_at = |n: Seq<char>|
        if n == new_name && c.table_roots.dom().contains(old_name) {
            old_name
        } else {
            n
        };
    let index_at = |n: Seq<char>|
        if n == new_name && c.index_roots.dom().contains(old_name) {
            old_name
        } else {
            n
        };
    let name_at = |a: TreeName|
        match a {
            TreeName::Table(n) => TreeName::Table(table_at(n)),
            TreeName::Index(n, i) => TreeName::Index(index_at(n), i),
        };
    let u = Trees {
        pages: Map::new(|a: TreeName| true, |a: TreeName| t.pages[name_at(a)]),
        rows: moved(t.rows, old_name, new_name),
        entries: Map::new(
            |x: (Seq<char>, Seq<char>)| roots_of(d, x.0).dom().contains(x.1),
            |x: (Seq<char>, Seq<char>)| t.entries[(index_at(x.0), x.1)],
        ),
    };
    assert(u.rows.dom() =~= d.table_roots.dom());
    assert forall|n: Seq<char>| #[trigger] u.rows.dom().contains(n) implies t.rows.dom().contains(
        table_at(n),
    ) && tree_holds::<u64>(
        m.pager,
        d.table_roots[n],
        u.pages[TreeName::Table(n)],
        u.rows[n],
    ) by {
        assert(t.rows.dom().contains(table_at(n)));
    }
    assert forall|n: Seq<char>, i: Seq<char>| #[trigger]
        u.entries.dom().contains((n, i)) implies t.entries.dom().contains((index_at(n), i))
        && tree_holds::<ByteKey>(
        m.pager,
        roots_of(d, n)[i],
        u.pages[TreeName::Index(n, i)],
        u.entries[(n, i)],
    ) by {
        assert(roots_of(d, n) == roots_of(c, index_at(n)));
        assert(t.entries.dom().contains((index_at(n), i)));
    }
    assert(u.apart()) by {
        assert forall|a: TreeName, b: TreeName|
            #![trigger u.pages[a], u.pages[b]]
            u.named(a) && u.named(b) && a != b implies u.pages[a].disjoint(u.pages[b]) by {
            assert(t.named(name_at(a)) && t.named(name_at(b))) by {
                match a {
                    TreeName::Table(n) => {
                        assert(u.rows.dom().contains(n));
                    },
                    TreeName::Index(n, i) => {
                        assert(u.entries.dom().contains((n, i)));
                    },
                }
                match b {
                    TreeName::Table(n) => {
                        assert(u.rows.dom().contains(n));
                    },
                    TreeName::Index(n, i) => {
                        assert(u.entries.dom().contains((n, i)));
                    },
                }
            }
            assert(name_at(a) != name_at(b));
            assert(t.pages[name_at(a)].disjoint(t.pages[name_at(b)]));
        }
    }
    assert(u.stand(after.pager, after.catalog));
    assert(u.rows =~= all_stored(moved(tables, old_name, new_name)));
}

/// An engine without trees holds no rows.
pub proof fn lemma_no_tables(m: StorageModel)
    requires
        2 <= m.pager.meta.page_count,
        m.catalog.table_roots.dom().is_empty(),
        forall|n: Seq<char>| #[trigger] roots_of(m.catalog, n).dom().is_empty(),
    ensures
        rows_in(m, Map::empty()),
{
    reveal(rows_in);
    let t = Trees { pages: Map::empty(), rows: Map::empty(), entries: Map::empty() };
    assert(t.rows.dom() =~= m.catalog.table_roots.dom());
    assert forall|n: Seq<char>, i: Seq<char>| #[trigger]
        t.entries.dom().contains((n, i)) <==> roots_of(m.catalog, n).dom().contains(i) by {
        assert(roots_of(m.catalog, n).dom().is_empty());
    }
    assert(t.stand(m.pager, m.catalog));
    assert(t.rows =~= all_stored(Map::empty()));
}

/// Whether two states of the engine have the same pages and the same trees.
pub open spec fn same_trees(a: StorageModel, b: StorageModel) -> bool {
    &&& a.pager.disk == b.pager.disk
    &&& a.pager.page_cache == b.pager.page_cache
    &&& a.pager.committed_page_count == b.pager.committed_page_count
    &&& a.pager.meta.page_count == b.pager.meta.page_count
    &&& a.catalog.table_roots == b.catalog.table_roots
    &&& a.catalog.index_roots == b.catalog.index_roots
}

/// What tables hold stays where no page of a pager is another, and none is missing.
pub proof fn lemma_rows_kept(a: StorageModel, b: StorageModel)
    requires
        a.pager.meta.page_count <= b.pager.meta.page_count,
        forall|x: PageId| #[trigger] b.pager.read(x) == a.pager.read(x),
        a.catalog == b.catalog,
    ensures
        forall|tables: Tables| #[trigger] rows_in(a, tables) ==> rows_in(b, tables),
{
    reveal(rows_in);
    assert forall|tables: Tables| #[trigger] rows_in(a, tables) implies rows_in(b, tables) by {
        let t = choose|t: Trees| #[trigger]
            t.stand(a.pager, a.catalog) && t.rows == all_stored(tables);
        lemma_stand_kept(t, a, b);
    }
}

proof fn lemma_stand_kept(t: Trees, a: StorageModel, b: StorageModel)
    requires
        t.stand(a.pager, a.catalog),
        a.pager.meta.page_count <= b.pager.meta.page_count,
        forall|x: PageId|
            2 <= x.0 && #[trigger] a.pager.read(x) is Ok ==> b.pager.read(x) == a.pager.read(x),
        a.catalog.table_roots == b.catalog.table_roots,
        a.catalog.index_roots == b.catalog.index_roots,
    ensures
        t.stand(b.pager, b.catalog),
{
    assert forall|n: Seq<char>| #[trigger] t.rows.dom().contains(n) implies tree_holds::<u64>(
        b.pager,
        b.catalog.table_roots[n],
        t.pages[TreeName::Table(n)],
        t.rows[n],
    ) by {
        lemma_tree_same::<u64>(
            a.pager,
            b.pager,
            a.catalog.table_roots[n],
            t.pages[TreeName::Table(n)],
            t.rows[n],
        );
    }
    assert forall|n: Seq<char>, i: Seq<char>| #[trigger]
        t.entries.dom().contains((n, i)) implies tree_holds::<ByteKey>(
        b.pager,
        roots_of(b.catalog, n)[i],
        t.pages[TreeName::Index(n, i)],
        t.entries[(n, i)],
    ) by {
        lemma_tree_same::<ByteKey>(
            a.pager,
            b.pager,
            roots_of(a.catalog, n)[i],
            t.pages[TreeName::Index(n, i)],
            t.entries[(n, i)],
        );
    }
}

/// What tables hold stays where the pages beside the first two stay.
pub proof fn lemma_rows_beside(a: StorageModel, b: StorageModel, tables: Tables)
    requires
        rows_in(a, tables),
        a.pager.meta.page_count <= b.pager.meta.page_count,
        forall|x: PageId|
            2 <= x.0 && #[trigger] a.pager.read(x) is Ok ==> b.pager.read(x) == a.pager.read(x),
        a.catalog == b.catalog,
    ensures
        rows_in(b, tables),
{
    reveal(rows_in);
    let t = choose|t: Trees| #[trigger]
        t.stand(a.pager, a.catalog) && t.rows == all_stored(tables);
    lemma_stand_kept(t, a, b);
}

/// What tables hold depends on the pages and the trees alone.
pub proof fn lemma_same_trees(a: StorageModel, b: StorageModel)
    requires
        same_trees(a, b),
    ensures
        forall|tables: Tables| #[trigger] rows_in(a, tables) ==> rows_in(b, tables),
{
    reveal(rows_in);
    assert forall|x: PageId| #[trigger] b.pager.read(x) == a.pager.read(x) by {}
    assert forall|tables: Tables| #[trigger] rows_in(a, tables) implies rows_in(b, tables) by {
        let t = choose|t: Trees| #[trigger]
            t.stand(a.pager, a.catalog) && t.rows == all_stored(tables);
        lemma_stand_kept(t, a, b);
    }
}

// ---------------------------------------------------------------------------
// Laws

/// A row that a transaction has inserted is what the transaction reads, and no other
/// transaction sees it.
pub proof fn law_inserted_rows_are_read(
    tables: Tables,
    table: Seq<char>,
    id: u64,
    row: Seq<SqlValue>,
    txn: u64,
    snapshot: SnapshotView,
    other: u64,
    view: SnapshotView,
)
    ensures
        ({
            let after = with_versions(tables, table, id, seq![fresh(row, txn)]);
            &&& seen_in(after[table], id, txn, snapshot) == Some(row)
            &&& other != txn ==> seen_in(after[table], id, other, view) is None
        }),
{
    law_uncommitted_rows_are_private(row, txn, txn, snapshot);
    law_uncommitted_rows_are_private(row, txn, other, view);
}

/// A row that a transaction has changed is what the transaction reads.
pub proof fn law_changed_rows_are_read(
    tables: Tables,
    table: Seq<char>,
    id: u64,
    row: Seq<SqlValue>,
    txn: u64,
    snapshot: SnapshotView,
)
    requires
        seen_in(tables[table], id, txn, snapshot) is Some,
    ensures
        seen_in(
            changed_in(tables, table, id, row, txn, snapshot)[table],
            id,
            txn,
            snapshot,
        ) == Some(row),
{
    law_changes_are_seen_by_their_maker(tables[table][id].versions(), row, txn, snapshot);
}

/// A row that a transaction has deleted is gone for the transaction, where it saw but one
/// version of it.
pub proof fn law_deleted_rows_are_gone(
    tables: Tables,
    table: Seq<char>,
    id: u64,
    txn: u64,
    snapshot: SnapshotView,
)
    requires
        forall|i: int, j: int|
            #![trigger tables[table][id].versions()[i], tables[table][id].versions()[j]]
            0 <= i < j < tables[table][id].versions().len() ==> !(sees(
                tables[table][id].versions()[i],
                txn,
                snapshot,
            ) && sees(tables[table][id].versions()[j], txn, snapshot)),
    ensures
        seen_in(
            deleted_in(tables, table, id, txn, snapshot)[table],
            id,
            txn,
            snapshot,
        ) is None,
{
    let v = tables[table][id].versions();
    if seen_in(tables[table], id, txn, snapshot) is Some {
        let after = with_deleted(v, txn, snapshot)->Some_0;
        lemma_seen_from(v, txn, snapshot, 0);
        let i = seen_from(v, txn, snapshot, 0)->Some_0;
        assert forall|k: int| 0 <= k < after.len() implies !sees(
            #[trigger] after[k],
            txn,
            snapshot,
        ) by {
            if k != i {
                assert(after[k] == v[k]);
                assert(sees(v[i], txn, snapshot));
            }
        }
        lemma_seen_from(after, txn, snapshot, 0);
    }
}

/// What is done to one row leaves every other row of every table as it was.
pub proof fn law_other_rows_stay(
    tables: Tables,
    table: Seq<char>,
    id: u64,
    v: Seq<VersionView>,
    other_table: Seq<char>,
    other_id: u64,
    txn: u64,
    snapshot: SnapshotView,
)
    requires
        other_table != table || other_id != id,
    ensures
        seen_in(
            with_versions(tables, table, id, v)[other_table],
            other_id,
            txn,
            snapshot,
        ) == seen_in(tables[other_table], other_id, txn, snapshot),
{
}

} // verus!
