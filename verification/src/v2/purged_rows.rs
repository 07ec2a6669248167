//! What purging garbage does to rows: versions that nobody wants any more are dropped from the
//! rows that the purged records name, and a row without versions is gone.

use vstd::prelude::*;

use crate::common::value::{IsolationLevel, TransactionId};
use crate::v2::catalog::CatalogModel;
use crate::v2::codec::{
    kept_bytes, kept_from, kept_text, law_purging_keeps_what_is_seen, wanted, Held, VersionView,
};
use crate::v2::page::PageId;
use crate::v2::pager_laws::lemma_published_pages;
use crate::v2::pager_model::{wrote, PagerModel};
use crate::v2::storage_model::{table_of, StorageModel};
use crate::v2::tables::{
    lemma_room, lemma_rows_beside, lemma_rows_put, lemma_same_trees, lemma_table_names, rows_in,
    seen_in, stored, Tables,
};
use crate::v2::transactions::{batch_size, horizon_of, records_purged_from, row_purged, stamp_taken};
use crate::v2::tree::{found, MAX_PAGES};
use crate::v2::tree_shape::{grown, tree_became, tree_holds, value_in};
use crate::v2::tx_types::{SnapshotView, UndoView};
use crate::v2::txn_manager::committed_at;
use crate::v2::undo_laws::{
    cached, counted, law_pages_stay_counted, lemma_begun, lemma_removed_below, lemma_same,
    lemma_trans, lemma_tree_put, undoable,
};

verus! {

/// The rows of a table once one of them is without the versions that nobody wants.
pub open spec fn row_cleaned(rows: Map<u64, Held>, id: u64, horizon: u64) -> Map<u64, Held> {
    if !rows.dom().contains(id) {
        rows
    } else {
        let kept = kept_from(rows[id].versions(), horizon, 0, Seq::empty());
        if kept.len() == 0 {
            rows.remove(id)
        } else {
            rows.insert(id, Held::Versions(kept))
        }
    }
}

/// The rows of all tables once the row that a record names is cleaned.
pub open spec fn record_cleaned(
    tables: Tables,
    c: CatalogModel,
    record: UndoView,
    horizon: u64,
) -> Tables {
    match record {
        UndoView::DeleteRow { table, row_id, .. } => if table_of(c, table) is Ok {
            tables.insert(table, row_cleaned(tables[table], row_id.0, horizon))
        } else {
            tables
        },
        _ => tables,
    }
}

/// The rows of all tables once those that the first records name are cleaned.
pub open spec fn records_cleaned(
    tables: Tables,
    c: CatalogModel,
    records: Seq<(TransactionId, UndoView)>,
    horizon: u64,
    upto: int,
) -> Tables
    decreases upto,
{
    if upto <= 0 {
        tables
    } else {
        record_cleaned(
            records_cleaned(tables, c, records, horizon, upto - 1),
            c,
            records[upto - 1].1,
            horizon,
        )
    }
}

/// The records that the engine purges next.
pub open spec fn garbage_of(m: StorageModel) -> Seq<(TransactionId, UndoView)> {
    let horizon = horizon_of(m.pager.txns);
    let t = m.tidy(horizon).pager.txns;
    if t.history_length() == 0 {
        Seq::empty()
    } else {
        t.purge_plan(horizon, batch_size(t.history_length()))
    }
}

/// The rows of all tables once the engine has purged what it purges next.
pub open spec fn tables_cleaned(m: StorageModel, tables: Tables) -> Tables {
    records_cleaned(
        tables,
        m.catalog,
        garbage_of(m),
        horizon_of(m.pager.txns),
        garbage_of(m).len() as int,
    )
}

// ---------------------------------------------------------------------------
// Rows

/// Whether a table became one in which a row is cleaned, whatever rows it held.
pub closed spec fn row_cleans(
    m: PagerModel,
    root: PageId,
    id: u64,
    horizon: u64,
    after: PagerModel,
) -> bool {
    forall|pages: Set<PageId>, rows: Map<u64, Held>| #[trigger]
        tree_holds::<u64>(m, root, pages, stored(rows)) ==> tree_became::<u64>(
            m,
            pages,
            after,
            root,
            stored(row_cleaned(rows, id, horizon)),
        )
}

pub proof fn lemma_row_missing(m: PagerModel, root: PageId, id: u64, horizon: u64)
    requires
        forall|pages: Set<PageId>, c: Map<u64, Seq<u8>>| #[trigger]
            tree_holds::<u64>(m, root, pages, c) ==> value_in(c, id) is None,
    ensures
        row_cleans(m, root, id, horizon, m),
{
    assert forall|pages: Set<PageId>, rows: Map<u64, Held>| #[trigger]
        tree_holds::<u64>(m, root, pages, stored(rows)) implies tree_became::<u64>(
        m,
        pages,
        m,
        root,
        stored(row_cleaned(rows, id, horizon)),
    ) by {
        assert(!stored(rows).dom().contains(id));
        assert(grown(m, pages, m, pages));
    }
}

pub proof fn lemma_row_same(m: PagerModel, root: PageId, id: u64, horizon: u64, bytes: Seq<u8>)
    requires
        forall|pages: Set<PageId>, c: Map<u64, Seq<u8>>| #[trigger]
            tree_holds::<u64>(m, root, pages, c) ==> value_in(c, id) == Some(bytes),
        forall|h: Held|
            bytes == #[trigger] h.bytes() ==> kept_text(
                kept_from(h.versions(), horizon, 0, Seq::empty()),
            ) == Some(bytes),
    ensures
        row_cleans(m, root, id, horizon, m),
{
    assert forall|pages: Set<PageId>, rows: Map<u64, Held>| #[trigger]
        tree_holds::<u64>(m, root, pages, stored(rows)) implies tree_became::<u64>(
        m,
        pages,
        m,
        root,
        stored(row_cleaned(rows, id, horizon)),
    ) by {
        assert(stored(rows).dom().contains(id));
        assert(bytes == rows[id].bytes());
        assert(stored(row_cleaned(rows, id, horizon)) =~= stored(rows));
        assert(grown(m, pages, m, pages));
    }
}

pub proof fn lemma_row_gone(
    m: PagerModel,
    root: PageId,
    id: u64,
    horizon: u64,
    bytes: Seq<u8>,
    after: PagerModel,
)
    requires
        forall|pages: Set<PageId>, c: Map<u64, Seq<u8>>| #[trigger]
            tree_holds::<u64>(m, root, pages, c) ==> value_in(c, id) == Some(bytes)
                && tree_became::<u64>(m, pages, after, root, c.remove(id)),
        forall|h: Held|
            bytes == #[trigger] h.bytes() ==> kept_text(
                kept_from(h.versions(), horizon, 0, Seq::empty()),
            ) is None,
    ensures
        row_cleans(m, root, id, horizon, after),
{
    assert forall|pages: Set<PageId>, rows: Map<u64, Held>| #[trigger]
        tree_holds::<u64>(m, root, pages, stored(rows)) implies tree_became::<u64>(
        m,
        pages,
        after,
        root,
        stored(row_cleaned(rows, id, horizon)),
    ) by {
        assert(stored(rows).dom().contains(id));
        assert(bytes == rows[id].bytes());
        assert(stored(row_cleaned(rows, id, horizon)) =~= stored(rows).remove(id));
    }
}

pub proof fn lemma_row_kept(
    m: PagerModel,
    root: PageId,
    id: u64,
    horizon: u64,
    bytes: Seq<u8>,
    kept: Seq<u8>,
    after: PagerModel,
    at: PageId,
)
    requires
        forall|pages: Set<PageId>, c: Map<u64, Seq<u8>>| #[trigger]
            tree_holds::<u64>(m, root, pages, c) ==> value_in(c, id) == Some(bytes)
                && tree_became::<u64>(m, pages, after, at, c.insert(id, kept)),
        forall|pages: Set<PageId>, c: Map<u64, Seq<u8>>| #[trigger]
            tree_holds::<u64>(m, root, pages, c) && c.dom().contains(id) ==> at == root,
        forall|h: Held|
            bytes == #[trigger] h.bytes() ==> kept_text(
                kept_from(h.versions(), horizon, 0, Seq::empty()),
            ) == Some(kept),
    ensures
        row_cleans(m, root, id, horizon, after),
{
    assert forall|pages: Set<PageId>, rows: Map<u64, Held>| #[trigger]
        tree_holds::<u64>(m, root, pages, stored(rows)) implies tree_became::<u64>(
        m,
        pages,
        after,
        root,
        stored(row_cleaned(rows, id, horizon)),
    ) by {
        assert(stored(rows).dom().contains(id));
        assert(bytes == rows[id].bytes());
        assert(stored(row_cleaned(rows, id, horizon)) =~= stored(rows).insert(id, kept));
    }
}

/// Tables once one row of one of them is cleaned.
pub proof fn lemma_row_cleaned(
    e: StorageModel,
    tables: Tables,
    table: Seq<char>,
    id: u64,
    horizon: u64,
    after: PagerModel,
)
    requires
        rows_in(e, tables),
        table_of(e.catalog, table) is Ok,
        row_cleans(e.pager, e.catalog.table_roots[table], id, horizon, after),
    ensures
        rows_in(
            e.with_pager(after),
            tables.insert(table, row_cleaned(tables[table], id, horizon)),
        ),
{
    let root = e.catalog.table_roots[table];
    assert(e.catalog.table_roots.insert(table, root) =~= e.catalog.table_roots);
    lemma_rows_put(
        e,
        tables,
        table,
        root,
        e.with_pager(after),
        root,
        row_cleaned(tables[table], id, horizon),
    );
}

/// Whether the first records of a list were purged, whatever the tables held.
pub closed spec fn records_clean(
    m: PagerModel,
    c: CatalogModel,
    records: Seq<(TransactionId, UndoView)>,
    horizon: u64,
    upto: int,
    after: PagerModel,
) -> bool {
    forall|e: StorageModel, tables: Tables| #[trigger]
        rows_in(e, tables) && e.pager == m && e.catalog == c ==> rows_in(
            e.with_pager(after),
            records_cleaned(tables, c, records, horizon, upto),
        )
}

pub proof fn lemma_records_clean_none(
    m: PagerModel,
    c: CatalogModel,
    records: Seq<(TransactionId, UndoView)>,
    horizon: u64,
)
    ensures
        records_clean(m, c, records, horizon, 0, m),
{
    assert forall|e: StorageModel, tables: Tables| #[trigger]
        rows_in(e, tables) && e.pager == m && e.catalog == c implies rows_in(
        e.with_pager(m),
        records_cleaned(tables, c, records, horizon, 0),
    ) by {
        assert(e.with_pager(m) == e);
    }
}

pub proof fn lemma_records_clean_one(
    m: PagerModel,
    c: CatalogModel,
    records: Seq<(TransactionId, UndoView)>,
    horizon: u64,
    i: int,
    middle: PagerModel,
    after: PagerModel,
)
    requires
        0 <= i < records.len(),
        records_clean(m, c, records, horizon, i, middle),
        forall|e: StorageModel, tables: Tables| #[trigger]
            rows_in(e, tables) && e.pager == middle && e.catalog == c ==> rows_in(
                e.with_pager(after),
                record_cleaned(tables, c, records[i].1, horizon),
            ),
    ensures
        records_clean(m, c, records, horizon, i + 1, after),
{
    assert forall|e: StorageModel, tables: Tables| #[trigger]
        rows_in(e, tables) && e.pager == m && e.catalog == c implies rows_in(
        e.with_pager(after),
        records_cleaned(tables, c, records, horizon, i + 1),
    ) by {
        let b = e.with_pager(middle);
        assert(rows_in(b, records_cleaned(tables, c, records, horizon, i)));
        assert(b.with_pager(after) == e.with_pager(after));
    }
}

pub proof fn lemma_records_clean_all(
    m: PagerModel,
    c: CatalogModel,
    records: Seq<(TransactionId, UndoView)>,
    horizon: u64,
    after: PagerModel,
)
    requires
        records_clean(m, c, records, horizon, records.len() as int, after),
    ensures
        forall|e: StorageModel, tables: Tables| #[trigger]
            rows_in(e, tables) && e.pager == m && e.catalog == c ==> rows_in(
                e.with_pager(after),
                records_cleaned(tables, c, records, horizon, records.len() as int),
            ),
{
}

// ---------------------------------------------------------------------------
// Pages

proof fn lemma_record_undoable(
    m: PagerModel,
    c: CatalogModel,
    txn: u64,
    horizon: u64,
    record: UndoView,
)
    requires
        record is DeleteRow ==> row_purged(
            m,
            c,
            txn,
            record->DeleteRow_table,
            record->DeleteRow_row_id,
            horizon,
        ).1 is Ok,
    ensures
        record is DeleteRow ==> undoable(
            m,
            row_purged(
                m,
                c,
                txn,
                record->DeleteRow_table,
                record->DeleteRow_row_id,
                horizon,
            ).0,
            txn,
        ),
{
    lemma_same(m, m.txns, txn);
    match record {
        UndoView::DeleteRow { table, row_id, .. } => {
            if table_of(c, table) is Ok {
                let root = table_of(c, table)->Ok_0.1;
                match found::<u64>(m, root, row_id.0) {
                    Ok(Some(bytes)) => match kept_bytes(bytes, horizon) {
                        Ok(None) => {
                            lemma_removed_below::<u64>(m, txn, root, row_id.0, MAX_PAGES as nat);
                        },
                        Ok(Some(kept)) => {
                            if kept != bytes {
                                lemma_tree_put::<u64>(m, txn, root, row_id.0, kept);
                            }
                        },
                        Err(_) => {},
                    },
                    _ => {},
                }
            }
        },
        _ => {},
    }
}

pub proof fn lemma_records_undoable(
    m: PagerModel,
    c: CatalogModel,
    txn: u64,
    horizon: u64,
    records: Seq<(TransactionId, UndoView)>,
    i: int,
)
    requires
        records_purged_from(m, c, txn, horizon, records, i).1 is Ok,
    ensures
        undoable(m, records_purged_from(m, c, txn, horizon, records, i).0, txn),
    decreases records.len() - i,
{
    lemma_same(m, m.txns, txn);
    if 0 <= i < records.len() {
        match records[i].1 {
            UndoView::DeleteRow { table, row_id, .. } => {
                let a = row_purged(m, c, txn, table, row_id, horizon).0;
                lemma_record_undoable(m, c, txn, horizon, records[i].1);
                lemma_records_undoable(a, c, txn, horizon, records, i + 1);
                lemma_trans(
                    m,
                    a,
                    records_purged_from(a, c, txn, horizon, records, i + 1).0,
                    txn,
                );
            },
            _ => {
                lemma_records_undoable(m, c, txn, horizon, records, i + 1);
            },
        }
    }
}

/// The pages of a transaction that purges are counted and cached.
pub proof fn lemma_purge_counted(
    m: PagerModel,
    c: CatalogModel,
    horizon: u64,
    records: Seq<(TransactionId, UndoView)>,
)
    requires
        counted(m),
        m.begun(IsolationLevel::ReadCommitted).1 is Ok,
        records_purged_from(
            m.begun(IsolationLevel::ReadCommitted).0,
            c,
            m.begun(IsolationLevel::ReadCommitted).1->Ok_0,
            horizon,
            records,
            0,
        ).1 is Ok,
    ensures
        ({
            let (begun, r) = m.begun(IsolationLevel::ReadCommitted);
            let after = records_purged_from(begun, c, r->Ok_0, horizon, records, 0).0;
            counted(after) && cached(after, r->Ok_0) && after.knows(r->Ok_0)
        }),
{
    let (begun, r) = m.begun(IsolationLevel::ReadCommitted);
    let started = m.with_txns(begun.txns);
    assert(begun == started.begun_with(r->Ok_0).0);
    lemma_begun(started, r->Ok_0);
    lemma_records_undoable(begun, c, r->Ok_0, horizon, records, 0);
    reveal(undoable);
}

/// What tables hold once rows are purged, they hold once the purge is committed.
pub proof fn lemma_purge_closed(
    m: StorageModel,
    txn: TransactionId,
    horizon: u64,
    records: Seq<(TransactionId, UndoView)>,
    tables: Tables,
)
    requires
        m.purge_closed(txn, horizon, records).1.fault is None,
        counted(m.pager),
        cached(m.pager, txn.0),
        rows_in(m, tables),
    ensures
        rows_in(m.purge_closed(txn, horizon, records).0, tables),
        counted(m.purge_closed(txn, horizon, records).0.pager),
{
    let (t, r) = stamp_taken(m.pager.txns, txn);
    let b = m.with_txns(t.with_txn(txn, committed_at(t.txns[txn], r->Ok_0)));
    let end = m.purge_closed(txn, horizon, records).0;
    lemma_same_trees(m, b);
    lemma_room(b, tables);
    law_pages_stay_counted(b.pager, txn.0);
    assert forall|x: PageId| 2 <= x.0 && #[trigger] b.pager.read(x) is Ok implies end.pager.read(x)
        == b.pager.read(x) by {
        lemma_published_pages(b.pager, txn.0, x);
        if b.pager.txn_page_states[txn.0].dom().contains(x) {
            assert(wrote(b.pager.txn_page_states, txn.0, x));
        }
    }
    lemma_rows_beside(b, end, tables);
}

// ---------------------------------------------------------------------------
// What is seen

/// Whether the versions of rows that nobody wants name a transaction that deleted them, which was
/// not active when a snapshot was taken.
pub open spec fn garbage_is_known(rows: Map<u64, Held>, horizon: u64, snapshot: SnapshotView) -> bool {
    forall|id: u64, j: int|
        rows.dom().contains(id) && 0 <= j < rows[id].versions().len() && !wanted(
            #[trigger] rows[id].versions()[j],
            horizon,
        ) ==> rows[id].versions()[j].deleted_by_txn is Some && !snapshot.active_txns.contains(
            TransactionId(rows[id].versions()[j].deleted_by_txn->Some_0),
        )
}

proof fn lemma_kept_wanted(
    versions: Seq<VersionView>,
    horizon: u64,
    i: int,
    out: Seq<VersionView>,
)
    requires
        forall|j: int| 0 <= j < out.len() ==> wanted(#[trigger] out[j], horizon),
    ensures
        forall|j: int|
            0 <= j < kept_from(versions, horizon, i, out).len() ==> wanted(
                #[trigger] kept_from(versions, horizon, i, out)[j],
                horizon,
            ),
    decreases versions.len() - i,
{
    let kept = kept_from(versions, horizon, i, out);
    if 0 <= i < versions.len() {
        let now = if wanted(versions[i], horizon) {
            out.push(versions[i])
        } else {
            out
        };
        lemma_kept_wanted(versions, horizon, i + 1, now);
        assert(kept == kept_from(versions, horizon, i + 1, now));
    } else {
        assert(kept == out);
    }
}

proof fn lemma_row_seen(
    rows: Map<u64, Held>,
    id: u64,
    horizon: u64,
    key: u64,
    txn: u64,
    snapshot: SnapshotView,
)
    requires
        horizon <= snapshot.visible_up_to,
        garbage_is_known(rows, horizon, snapshot),
    ensures
        garbage_is_known(row_cleaned(rows, id, horizon), horizon, snapshot),
        seen_in(row_cleaned(rows, id, horizon), key, txn, snapshot) == seen_in(
            rows,
            key,
            txn,
            snapshot,
        ),
{
    if rows.dom().contains(id) {
        let versions = rows[id].versions();
        let kept = kept_from(versions, horizon, 0, Seq::empty());
        lemma_kept_wanted(versions, horizon, 0, Seq::empty());
        assert forall|j: int|
            0 <= j < versions.len() && !wanted(#[trigger] versions[j], horizon) implies versions[j].deleted_by_txn is Some
            && !snapshot.active_txns.contains(
            TransactionId(versions[j].deleted_by_txn->Some_0),
        ) by {
            assert(!wanted(rows[id].versions()[j], horizon));
        }
        law_purging_keeps_what_is_seen(versions, horizon, txn, snapshot);
        let after = row_cleaned(rows, id, horizon);
        assert forall|k: u64, j: int|
            after.dom().contains(k) && 0 <= j < after[k].versions().len() && !wanted(
                #[trigger] after[k].versions()[j],
                horizon,
            ) implies after[k].versions()[j].deleted_by_txn is Some
            && !snapshot.active_txns.contains(
            TransactionId(after[k].versions()[j].deleted_by_txn->Some_0),
        ) by {
            if k == id {
                assert(after[k].versions() == kept);
                assert(wanted(kept[j], horizon));
            } else {
                assert(after[k] == rows[k]);
                assert(!wanted(rows[k].versions()[j], horizon));
            }
        }
    }
}

proof fn lemma_records_seen(
    tables: Tables,
    c: CatalogModel,
    records: Seq<(TransactionId, UndoView)>,
    horizon: u64,
    upto: int,
    table: Seq<char>,
    key: u64,
    txn: u64,
    snapshot: SnapshotView,
)
    requires
        tables.dom() == c.table_roots.dom(),
        tables.dom().contains(table),
        0 <= upto <= records.len(),
        horizon <= snapshot.visible_up_to,
        garbage_is_known(tables[table], horizon, snapshot),
    ensures
        records_cleaned(tables, c, records, horizon, upto).dom() == tables.dom(),
        garbage_is_known(
            records_cleaned(tables, c, records, horizon, upto)[table],
            horizon,
            snapshot,
        ),
        seen_in(records_cleaned(tables, c, records, horizon, upto)[table], key, txn, snapshot)
            == seen_in(tables[table], key, txn, snapshot),
    decreases upto,
{
    if upto > 0 {
        lemma_records_seen(
            tables,
            c,
            records,
            horizon,
            upto - 1,
            table,
            key,
            txn,
            snapshot,
        );
        let before = records_cleaned(tables, c, records, horizon, upto - 1);
        let now = records_cleaned(tables, c, records, horizon, upto);
        match records[upto - 1].1 {
            UndoView::DeleteRow { table: named, row_id, .. } => {
                if table_of(c, named) is Ok {
                    assert(now.dom() =~= tables.dom());
                    if named == table {
                        lemma_row_seen(before[table], row_id.0, horizon, key, txn, snapshot);
                    }
                }
            },
            _ => {},
        }
    }
}

/// Purging garbage takes nothing from a transaction whose snapshot was taken at the horizon or
/// later: it sees of each row what it saw before. Versions that nobody wants must name a
/// transaction that deleted them, and that was not active when the snapshot was taken.
pub proof fn law_purged_tables_show_what_they_showed(
    m: StorageModel,
    tables: Tables,
    table: Seq<char>,
    id: u64,
    txn: u64,
    snapshot: SnapshotView,
)
    requires
        rows_in(m, tables),
        tables.dom().contains(table),
        horizon_of(m.pager.txns) <= snapshot.visible_up_to,
        garbage_is_known(tables[table], horizon_of(m.pager.txns), snapshot),
    ensures
        tables_cleaned(m, tables).dom() == tables.dom(),
        seen_in(tables_cleaned(m, tables)[table], id, txn, snapshot) == seen_in(
            tables[table],
            id,
            txn,
            snapshot,
        ),
{
    lemma_table_names(m, tables);
    lemma_records_seen(
        tables,
        m.catalog,
        garbage_of(m),
        horizon_of(m.pager.txns),
        garbage_of(m).len() as int,
        table,
        id,
        txn,
        snapshot,
    );
}

} // verus!
