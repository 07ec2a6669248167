//! What a commit does to rows: the versions that the transaction made are given the timestamp
//! of the commit, in all tables, and the pages that it wrote become those of the file.

use vstd::prelude::*;

use crate::common::ordset::sorted;
use crate::common::value::TransactionId;
use crate::v2::catalog::catalog_stored;
use crate::v2::codec::{all_finalized, finalized_bytes, Held};
use crate::v2::page::{payload_page, PageId, PageKind};
use crate::v2::pager_laws::lemma_published_pages;
use crate::v2::pager_model::{wrote, PagerModel};
use crate::v2::storage_model::StorageModel;
use crate::v2::tables::{
    lemma_room, lemma_rows_beside, lemma_rows_put, lemma_table_names, rows_in, stored, Tables,
};
use crate::v2::transactions::{
    all_tables_finalized, marked_committed, row_finalized, rows_finalized_from, stamp_taken,
    table_finalized, tables_finalized_from,
};
use crate::v2::tree::all_entries;
use crate::v2::tree_node::EntryView;
use crate::v2::tree_shape::{
    grown, lemma_grown_twice, listed, lists_contents, tree_became, tree_holds,
};
use crate::v2::undo_laws::{
    cached, counted, law_pages_stay_counted, lemma_same, lemma_trans, lemma_tree_put, lemma_written,
    undoable,
};

verus! {

/// A row once a transaction is committed at a timestamp.
pub open spec fn settled(h: Held, txn: u64, ts: u64) -> Held {
    Held::Versions(all_finalized(h.versions(), txn, ts))
}

/// The rows of a table once a transaction is committed.
pub open spec fn all_settled(rows: Map<u64, Held>, txn: u64, ts: u64) -> Map<u64, Held> {
    rows.map_values(|h: Held| settled(h, txn, ts))
}

/// The rows of all tables once a transaction is committed.
pub open spec fn tables_settled(tables: Tables, txn: u64, ts: u64) -> Tables {
    tables.map_values(|rows: Map<u64, Held>| all_settled(rows, txn, ts))
}

// ---------------------------------------------------------------------------
// One table

/// Rows of which those with the first keys of a list are settled.
pub open spec fn settled_upto(
    rows: Map<u64, Held>,
    entries: Seq<EntryView<u64>>,
    txn: u64,
    ts: u64,
    upto: int,
) -> Map<u64, Held>
    decreases upto,
{
    if upto <= 0 {
        rows
    } else {
        let key = entries[upto - 1].key;
        settled_upto(rows, entries, txn, ts, upto - 1).insert(key, settled(rows[key], txn, ts))
    }
}

proof fn lemma_settled_upto(
    rows: Map<u64, Held>,
    entries: Seq<EntryView<u64>>,
    txn: u64,
    ts: u64,
    upto: int,
)
    requires
        0 <= upto <= entries.len(),
        forall|j: int|
            0 <= j < entries.len() ==> rows.dom().contains((#[trigger] entries[j]).key),
    ensures
        settled_upto(rows, entries, txn, ts, upto).dom() == rows.dom(),
        forall|k: u64| #[trigger]
            rows.dom().contains(k) ==> settled_upto(rows, entries, txn, ts, upto)[k] == (if exists|
                j: int,
            |
                0 <= j < upto && #[trigger] entries[j].key == k {
                settled(rows[k], txn, ts)
            } else {
                rows[k]
            }),
    decreases upto,
{
    if upto > 0 {
        lemma_settled_upto(rows, entries, txn, ts, upto - 1);
        let key = entries[upto - 1].key;
        assert(rows.dom().contains(key));
        assert(settled_upto(rows, entries, txn, ts, upto).dom() =~= rows.dom());
        assert forall|k: u64| #[trigger] rows.dom().contains(k) implies settled_upto(
            rows,
            entries,
            txn,
            ts,
            upto,
        )[k] == (if exists|j: int| 0 <= j < upto && #[trigger] entries[j].key == k {
            settled(rows[k], txn, ts)
        } else {
            rows[k]
        }) by {
            if k != key && exists|j: int| 0 <= j < upto && #[trigger] entries[j].key == k {
                let j = choose|j: int| 0 <= j < upto && #[trigger] entries[j].key == k;
                assert(j < upto - 1);
            }
        }
    }
}

proof fn lemma_entries_are_rows(rows: Map<u64, Held>, entries: Seq<EntryView<u64>>)
    requires
        lists_contents::<u64>(entries, stored(rows)),
    ensures
        forall|j: int|
            0 <= j < entries.len() ==> rows.dom().contains((#[trigger] entries[j]).key)
                && entries[j].value == rows[entries[j].key].bytes(),
        forall|k: u64| #[trigger]
            rows.dom().contains(k) ==> exists|j: int|
                0 <= j < entries.len() && #[trigger] entries[j].key == k,
{
    assert forall|j: int| 0 <= j < entries.len() implies rows.dom().contains(
        (#[trigger] entries[j]).key,
    ) && entries[j].value == rows[entries[j].key].bytes() by {
        let e = entries[j];
        assert(entries[j] == (EntryView { key: e.key, value: e.value }));
        assert(listed(entries, e.key, e.value));
        assert(stored(rows).dom().contains(e.key));
    }
    assert forall|k: u64| #[trigger] rows.dom().contains(k) implies exists|j: int|
        0 <= j < entries.len() && #[trigger] entries[j].key == k by {
        assert(stored(rows).dom().contains(k));
        assert(listed(entries, k, stored(rows)[k]));
    }
}

/// Whether a table became one in which the rows with the first keys of a list are settled,
/// whatever rows it held.
pub closed spec fn settles(
    m: PagerModel,
    root: PageId,
    entries: Seq<EntryView<u64>>,
    txn: u64,
    ts: u64,
    upto: int,
    after: PagerModel,
    at: PageId,
) -> bool {
    forall|pages: Set<PageId>, rows: Map<u64, Held>| #[trigger]
        tree_holds::<u64>(m, root, pages, stored(rows)) && lists_contents::<u64>(
            entries,
            stored(rows),
        ) ==> at == root && tree_became::<u64>(
            m,
            pages,
            after,
            root,
            stored(settled_upto(rows, entries, txn, ts, upto)),
        )
}

pub proof fn lemma_settles_none(
    m: PagerModel,
    root: PageId,
    entries: Seq<EntryView<u64>>,
    txn: u64,
    ts: u64,
)
    ensures
        settles(m, root, entries, txn, ts, 0, m, root),
{
    assert forall|pages: Set<PageId>, rows: Map<u64, Held>| #[trigger]
        tree_holds::<u64>(m, root, pages, stored(rows)) && lists_contents::<u64>(
            entries,
            stored(rows),
        ) implies tree_became::<u64>(
        m,
        pages,
        m,
        root,
        stored(settled_upto(rows, entries, txn, ts, 0)),
    ) by {
        assert(grown(m, pages, m, pages));
    }
}

pub proof fn lemma_settles_one(
    m: PagerModel,
    root: PageId,
    entries: Seq<EntryView<u64>>,
    txn: u64,
    ts: u64,
    i: int,
    middle: PagerModel,
    between: PageId,
    bytes: Seq<u8>,
    after: PagerModel,
    at: PageId,
)
    requires
        0 <= i < entries.len(),
        settles(m, root, entries, txn, ts, i, middle, between),
        forall|h: Held|
            entries[i].value == #[trigger] h.bytes() ==> bytes == settled(h, txn, ts).bytes(),
        forall|pages: Set<PageId>, c: Map<u64, Seq<u8>>| #[trigger]
            tree_holds::<u64>(middle, between, pages, c) && c.dom().contains(entries[i].key) && (
            bytes == entries[i].value ==> c[entries[i].key] == bytes) ==> at == between
                && tree_became::<u64>(
                middle,
                pages,
                after,
                at,
                c.insert(entries[i].key, bytes),
            ),
    ensures
        settles(m, root, entries, txn, ts, i + 1, after, at),
{
    let e = entries[i];
    assert forall|pages: Set<PageId>, rows: Map<u64, Held>| #[trigger]
        tree_holds::<u64>(m, root, pages, stored(rows)) && lists_contents::<u64>(
            entries,
            stored(rows),
        ) implies at == root && tree_became::<u64>(
        m,
        pages,
        after,
        root,
        stored(settled_upto(rows, entries, txn, ts, i + 1)),
    ) by {
        lemma_entries_are_rows(rows, entries);
        assert(rows.dom().contains(entries[i].key));
        let before = settled_upto(rows, entries, txn, ts, i);
        let now = settled_upto(rows, entries, txn, ts, i + 1);
        lemma_settled_upto(rows, entries, txn, ts, i);
        assert(bytes == settled(rows[e.key], txn, ts).bytes());
        assert(stored(now) =~= stored(before).insert(e.key, bytes));
        assert(stored(before).dom().contains(e.key));
        assert(bytes == e.value ==> stored(before)[e.key] == bytes);
        let p = choose|p: Set<PageId>| #[trigger]
            grown(m, pages, middle, p) && tree_holds::<u64>(middle, root, p, stored(before));
        assert(tree_holds::<u64>(middle, between, p, stored(before)));
        assert(at == between);
        let q = choose|q: Set<PageId>| #[trigger]
            grown(middle, p, after, q) && tree_holds::<u64>(after, at, q, stored(now));
        lemma_grown_twice(m, pages, middle, p, after, q);
    }
}

pub proof fn lemma_settles_all(
    m: PagerModel,
    root: PageId,
    entries: Seq<EntryView<u64>>,
    txn: u64,
    ts: u64,
    after: PagerModel,
    at: PageId,
)
    requires
        settles(m, root, entries, txn, ts, entries.len() as int, after, at),
    ensures
        forall|pages: Set<PageId>, rows: Map<u64, Held>| #[trigger]
            tree_holds::<u64>(m, root, pages, stored(rows)) && lists_contents::<u64>(
                entries,
                stored(rows),
            ) ==> tree_became::<u64>(m, pages, after, root, stored(all_settled(rows, txn, ts))),
{
    assert forall|pages: Set<PageId>, rows: Map<u64, Held>| #[trigger]
        tree_holds::<u64>(m, root, pages, stored(rows)) && lists_contents::<u64>(
            entries,
            stored(rows),
        ) implies tree_became::<u64>(
        m,
        pages,
        after,
        root,
        stored(all_settled(rows, txn, ts)),
    ) by {
        lemma_entries_are_rows(rows, entries);
        lemma_settled_upto(rows, entries, txn, ts, entries.len() as int);
        assert(settled_upto(rows, entries, txn, ts, entries.len() as int) =~= all_settled(
            rows,
            txn,
            ts,
        ));
    }
}

// ---------------------------------------------------------------------------
// All tables

/// Tables of which the first of a list are settled.
pub open spec fn tables_upto(tables: Tables, names: Seq<Seq<char>>, txn: u64, ts: u64, upto: int) -> Tables
    decreases upto,
{
    if upto <= 0 {
        tables
    } else {
        let name = names[upto - 1];
        tables_upto(tables, names, txn, ts, upto - 1).insert(
            name,
            all_settled(tables[name], txn, ts),
        )
    }
}

proof fn lemma_tables_upto(tables: Tables, names: Seq<Seq<char>>, txn: u64, ts: u64, upto: int)
    requires
        0 <= upto <= names.len(),
        names.no_duplicates(),
        forall|j: int| 0 <= j < names.len() ==> tables.dom().contains(#[trigger] names[j]),
    ensures
        tables_upto(tables, names, txn, ts, upto).dom() == tables.dom(),
        forall|j: int|
            0 <= j < upto ==> tables_upto(tables, names, txn, ts, upto)[#[trigger] names[j]]
                == all_settled(tables[names[j]], txn, ts),
        forall|j: int|
            upto <= j < names.len() ==> tables_upto(tables, names, txn, ts, upto)[#[trigger] names[j]]
                == tables[names[j]],
    decreases upto,
{
    if upto > 0 {
        lemma_tables_upto(tables, names, txn, ts, upto - 1);
        assert(tables.dom().contains(names[upto - 1]));
        assert(tables_upto(tables, names, txn, ts, upto).dom() =~= tables.dom());
    }
}

/// Whether the first tables of a list became settled, whatever they held.
pub closed spec fn tables_settle(
    m: PagerModel,
    roots: Map<Seq<char>, PageId>,
    names: Seq<Seq<char>>,
    txn: u64,
    ts: u64,
    upto: int,
    after: PagerModel,
) -> bool {
    forall|e: StorageModel, tables: Tables| #[trigger]
        rows_in(e, tables) && e.pager == m && e.catalog.table_roots == roots ==> rows_in(
            e.with_pager(after),
            tables_upto(tables, names, txn, ts, upto),
        )
}

pub proof fn lemma_tables_settle_none(
    m: PagerModel,
    roots: Map<Seq<char>, PageId>,
    names: Seq<Seq<char>>,
    txn: u64,
    ts: u64,
)
    ensures
        tables_settle(m, roots, names, txn, ts, 0, m),
{
    assert forall|e: StorageModel, tables: Tables| #[trigger]
        rows_in(e, tables) && e.pager == m && e.catalog.table_roots == roots implies rows_in(
        e.with_pager(m),
        tables_upto(tables, names, txn, ts, 0),
    ) by {
        assert(e.with_pager(m) == e);
    }
}

pub proof fn lemma_tables_settle_one(
    m: PagerModel,
    roots: Map<Seq<char>, PageId>,
    names: Seq<Seq<char>>,
    txn: u64,
    ts: u64,
    i: int,
    middle: PagerModel,
    after: PagerModel,
)
    requires
        0 <= i < names.len(),
        names.no_duplicates(),
        names.to_set() == roots.dom(),
        tables_settle(m, roots, names, txn, ts, i, middle),
        forall|pages: Set<PageId>, rows: Map<u64, Held>| #[trigger]
            tree_holds::<u64>(middle, roots[names[i]], pages, stored(rows)) ==> tree_became::<u64>(
                middle,
                pages,
                after,
                roots[names[i]],
                stored(all_settled(rows, txn, ts)),
            ),
    ensures
        tables_settle(m, roots, names, txn, ts, i + 1, after),
{
    let root = roots[names[i]];
    assert forall|e: StorageModel, tables: Tables| #[trigger]
        rows_in(e, tables) && e.pager == m && e.catalog.table_roots == roots implies rows_in(
        e.with_pager(after),
        tables_upto(tables, names, txn, ts, i + 1),
    ) by {
        let b = e.with_pager(middle);
        let before = tables_upto(tables, names, txn, ts, i);
        lemma_table_names(e, tables);
        assert forall|j: int| 0 <= j < names.len() implies tables.dom().contains(
            #[trigger] names[j],
        ) by {
            assert(names.to_set().contains(names[j]));
        }
        lemma_tables_upto(tables, names, txn, ts, i);
        assert(names.to_set().contains(names[i]));
        assert(roots.insert(names[i], root) =~= roots);
        lemma_rows_put(
            b,
            before,
            names[i],
            root,
            e.with_pager(after),
            root,
            all_settled(before[names[i]], txn, ts),
        );
    }
}

pub proof fn lemma_tables_settle_all(
    m: PagerModel,
    roots: Map<Seq<char>, PageId>,
    names: Seq<Seq<char>>,
    txn: u64,
    ts: u64,
    after: PagerModel,
)
    requires
        names.no_duplicates(),
        names.to_set() == roots.dom(),
        tables_settle(m, roots, names, txn, ts, names.len() as int, after),
    ensures
        forall|e: StorageModel, tables: Tables| #[trigger]
            rows_in(e, tables) && e.pager == m && e.catalog.table_roots == roots ==> rows_in(
                e.with_pager(after),
                tables_settled(tables, txn, ts),
            ),
{
    assert forall|e: StorageModel, tables: Tables| #[trigger]
        rows_in(e, tables) && e.pager == m && e.catalog.table_roots == roots implies rows_in(
        e.with_pager(after),
        tables_settled(tables, txn, ts),
    ) by {
        lemma_table_names(e, tables);
        assert forall|j: int| 0 <= j < names.len() implies tables.dom().contains(
            #[trigger] names[j],
        ) by {
            assert(names.to_set().contains(names[j]));
        }
        lemma_tables_upto(tables, names, txn, ts, names.len() as int);
        let all = tables_upto(tables, names, txn, ts, names.len() as int);
        assert forall|n: Seq<char>| #[trigger] tables.dom().contains(n) implies all[n]
            == all_settled(tables[n], txn, ts) by {
            assert(names.to_set().contains(n));
            let j = choose|j: int| 0 <= j < names.len() && names[j] == n;
            assert(names[j] == n);
        }
        assert(all =~= tables_settled(tables, txn, ts));
    }
}

// ---------------------------------------------------------------------------
// The commit

/// The timestamp that a commit gets.
pub open spec fn stamp_of(m: StorageModel, txn: TransactionId) -> u64 {
    stamp_taken(m.writes_synced(txn).0.pager.txns, txn).1->Ok_0
}

/// The engine once a transaction is ready to be committed.
pub open spec fn made_ready(m: StorageModel, txn: TransactionId, catalog: Seq<u8>) -> StorageModel {
    let a = m.writes_synced(txn).0;
    a.with_txns(stamp_taken(a.pager.txns, txn).0).commit_prepared(
        txn,
        stamp_of(m, txn),
        catalog,
    ).0
}

/// The engine once a transaction is committed, before any garbage is purged.
pub open spec fn published(m: StorageModel, txn: TransactionId, catalog: Seq<u8>) -> StorageModel {
    pages_published(made_ready(m, txn, catalog), txn, stamp_of(m, txn))
}

/// The engine once the pages of a transaction are those of the file, and it is marked as
/// committed.
pub open spec fn pages_published(m: StorageModel, txn: TransactionId, ts: u64) -> StorageModel {
    let p = m.pager.committed(txn.0).0;
    StorageModel {
        pager: p.with_txns(marked_committed(p.txns, txn, ts).0),
        sessions: m.sessions.remove(txn),
        ..m
    }
}

proof fn lemma_rows_undoable(
    m: PagerModel,
    txn: u64,
    ts: u64,
    root: PageId,
    entries: Seq<EntryView<u64>>,
    i: int,
)
    requires
        rows_finalized_from(m, txn, ts, root, entries, i).1 is Ok,
    ensures
        undoable(m, rows_finalized_from(m, txn, ts, root, entries, i).0, txn),
    decreases entries.len() - i,
{
    lemma_same(m, m.txns, txn);
    if 0 <= i < entries.len() {
        let bytes = finalized_bytes(entries[i].value, txn, ts)->Ok_0;
        let (a, r) = row_finalized(m, txn, ts, root, entries[i]);
        if bytes != entries[i].value {
            lemma_tree_put::<u64>(m, txn, root, entries[i].key, bytes);
        }
        lemma_rows_undoable(a, txn, ts, r->Ok_0, entries, i + 1);
        lemma_trans(m, a, rows_finalized_from(a, txn, ts, r->Ok_0, entries, i + 1).0, txn);
    }
}

proof fn lemma_tables_undoable(
    m: PagerModel,
    txn: u64,
    ts: u64,
    roots: Map<Seq<char>, PageId>,
    names: Seq<Seq<char>>,
    i: int,
)
    requires
        tables_finalized_from(m, txn, ts, roots, names, i).1 is Ok,
    ensures
        undoable(m, tables_finalized_from(m, txn, ts, roots, names, i).0, txn),
    decreases names.len() - i,
{
    lemma_same(m, m.txns, txn);
    if 0 <= i < names.len() {
        let root = roots[names[i]];
        let a = table_finalized(m, txn, ts, root).0;
        lemma_rows_undoable(m, txn, ts, root, all_entries::<u64>(m, root)->Ok_0, 0);
        lemma_tables_undoable(a, txn, ts, roots, names, i + 1);
        lemma_trans(m, a, tables_finalized_from(a, txn, ts, roots, names, i + 1).0, txn);
    }
}

/// Getting ready for a commit keeps the pages counted, and those of the transaction cached. The
/// transaction has then written the catalog.
pub proof fn lemma_made_ready(m: StorageModel, txn: TransactionId, catalog: Seq<u8>)
    requires
        m.committed(txn, catalog).1 is Ok,
        counted(m.pager),
        cached(m.pager, txn.0),
    ensures
        counted(made_ready(m, txn, catalog).pager),
        cached(made_ready(m, txn, catalog).pager, txn.0),
        undoable(m.pager, made_ready(m, txn, catalog).pager, txn.0),
        wrote(made_ready(m, txn, catalog).pager.txn_page_states, txn.0, PageId(1)),
        made_ready(m, txn, catalog).pager.txn_page_states[txn.0][PageId(1)].after_image
            == payload_page(PageKind::Catalog, catalog),
        made_ready(m, txn, catalog).catalog == m.catalog,
{
    let a = m.writes_synced(txn).0;
    let b = a.with_txns(stamp_taken(a.pager.txns, txn).0);
    let ts = stamp_of(m, txn);
    let roots = b.catalog.table_roots;
    let names = sorted::<String>(roots.dom());
    let p = all_tables_finalized(b.pager, txn.0, ts, roots).0;
    let q = catalog_stored(p, txn.0, catalog).0;
    assert(b.pager =~= m.pager.with_txns(b.pager.txns));
    lemma_same(m.pager, b.pager.txns, txn.0);
    lemma_tables_undoable(b.pager, txn.0, ts, roots, names, 0);
    lemma_written(p, txn.0, PageId(1), payload_page(PageKind::Catalog, catalog));
    lemma_trans(m.pager, b.pager, p, txn.0);
    lemma_trans(m.pager, p, q, txn.0);
    reveal(undoable);
}

/// Storing the catalog changes no row.
pub proof fn lemma_catalog_beside(m: StorageModel, txn: u64, catalog: Seq<u8>, tables: Tables)
    requires
        catalog_stored(m.pager, txn, catalog).1 is Ok,
        rows_in(m, tables),
    ensures
        rows_in(m.with_pager(catalog_stored(m.pager, txn, catalog).0), tables),
{
    lemma_rows_beside(m, m.with_pager(catalog_stored(m.pager, txn, catalog).0), tables);
}

/// What tables hold once a transaction is ready to be committed, they hold once it is committed.
pub proof fn lemma_commit_keeps_rows(
    m: StorageModel,
    txn: TransactionId,
    catalog: Seq<u8>,
    tables: Tables,
)
    requires
        m.committed(txn, catalog).1 is Ok,
        counted(m.pager),
        cached(m.pager, txn.0),
        rows_in(made_ready(m, txn, catalog), tables),
    ensures
        rows_in(published(m, txn, catalog), tables),
        counted(published(m, txn, catalog).pager),
{
    let b = made_ready(m, txn, catalog);
    let c = published(m, txn, catalog);
    lemma_made_ready(m, txn, catalog);
    lemma_room(b, tables);
    law_pages_stay_counted(b.pager, txn.0);
    assert forall|x: PageId| 2 <= x.0 && #[trigger] b.pager.read(x) is Ok implies c.pager.read(x)
        == b.pager.read(x) by {
        lemma_published_pages(b.pager, txn.0, x);
        if b.pager.txn_page_states[txn.0].dom().contains(x) {
            assert(wrote(b.pager.txn_page_states, txn.0, x));
        }
    }
    lemma_rows_beside(b, c, tables);
}

} // verus!
