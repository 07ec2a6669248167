//! What a file holds between transactions: an engine that opens it finds the rows that the tables
//! hold.

use vstd::prelude::*;

use crate::common::error::ErrorView;
use crate::common::value::{IsolationLevel, TransactionId};
use crate::v2::page::{law_meta_page_round_trip, payload_page, PageId, PageKind};
use crate::v2::pager_laws::{
    lemma_plan_ids, lemma_published_pages, lemma_put_found, lemma_put_later,
};
use crate::v2::pager_model::{
    count_for, first_meta, lemma_covers_exists, lemma_effective_count, meta_read, opened, raw_page,
    wrote, PagerModel, WriteView,
};
use crate::v2::purged_rows::{garbage_of, lemma_records_undoable};
use crate::v2::settling::{lemma_made_ready, made_ready, published};
use crate::v2::storage_model::StorageModel;
use crate::v2::tables::{lemma_rows_beside, rows_in, Tables};
use crate::v2::transactions::{horizon_of, records_purged_from, stamp_taken};
use crate::v2::tx_types::TxnStatus;
use crate::v2::txn_manager::committed_at;
use crate::v2::undo_laws::{
    can_be_undone, counted, law_pages_stay_counted, law_rollback_leaves_what_there_was,
    law_what_can_be_undone_can_be_committed, lemma_begun, lemma_same, lemma_trans, taken_back,
    undoable,
};

verus! {

/// Whether a file is what a pager shows: it has all pages that can be read as they are read, but
/// for the first, which says how many there are, and no transaction has written a page.
pub open spec fn filed(m: PagerModel) -> bool {
    &&& forall|x: PageId|
        0 < x.0 && #[trigger] m.read(x) is Ok ==> x.0 < m.committed_page_count && raw_page(m.disk, x)
            == m.read(x)
    &&& forall|t: u64, p: PageId| !#[trigger] wrote(m.txn_page_states, t, p)
    &&& m.disk.len() > 0
    &&& meta_read(m.disk[0]) matches Ok(meta) && meta.page_count == m.committed_page_count
    &&& m.meta.page_count == m.committed_page_count
}

/// A file is what a pager shows that has just opened it.
pub proof fn law_opened_files_are_filed(file: Option<Seq<Seq<u8>>>, log: Option<Seq<u8>>)
    ensures
        opened(file, log, Map::empty()) matches Ok(p) ==> filed(p),
{
    law_meta_page_round_trip(first_meta());
}

/// Where a file is what a pager shows, what the tables hold they hold in an engine that opens the
/// file with the same catalog. All pages but the first are read as they are.
pub proof fn law_filed_tables_survive_reopening(m: StorageModel, tables: Tables)
    requires
        filed(m.pager),
        rows_in(m, tables),
    ensures
        opened(Some(m.pager.disk), None, Map::empty()) matches Ok(p) && {
            &&& rows_in(
                (StorageModel { pager: p, catalog: m.catalog, sessions: Map::empty() }),
                tables,
            )
            &&& forall|x: PageId|
                0 < x.0 && #[trigger] m.pager.read(x) is Ok ==> p.read(x) == m.pager.read(x)
        },
{
    let p = opened(Some(m.pager.disk), None, Map::empty())->Ok_0;
    assert forall|x: PageId| 0 < x.0 && #[trigger] m.pager.read(x) is Ok implies p.read(x)
        == m.pager.read(x) by {}
    lemma_rows_beside(
        m,
        StorageModel { pager: p, catalog: m.catalog, sessions: Map::empty() },
        tables,
    );
}

// ---------------------------------------------------------------------------
// Commits

/// Pages that a transaction did not write are those of the file.
proof fn lemma_others_filed(m: PagerModel, b: PagerModel, txn: u64, x: PageId)
    requires
        counted(m),
        filed(m),
        m.begun_with(txn).1 is Ok,
        undoable(m.begun_with(txn).0, b, txn),
        0 < x.0,
        b.read(x) is Ok,
        !b.txn_page_states[txn].dom().contains(x),
    ensures
        b.disk == m.disk,
        b.committed_page_count == m.committed_page_count,
        x.0 < m.committed_page_count,
        raw_page(m.disk, x) == b.read(x),
{
    let a = m.begun_with(txn).0;
    lemma_begun(m, txn);
    reveal(undoable);
    assert(b.forgotten(txn).read(x) == a.forgotten(txn).read(x));
    assert(a.forgotten(txn).read(x) == m.read(x));
}

/// The file is what the pager shows once a transaction is committed that nobody wrote beside.
proof fn lemma_published_filed(m: PagerModel, b: PagerModel, txn: u64)
    requires
        counted(m),
        filed(m),
        m.begun_with(txn).1 is Ok,
        undoable(m.begun_with(txn).0, b, txn),
    ensures
        b.knows(txn),
        filed(b.published(txn)),
{
    let a = m.begun_with(txn).0;
    let after = b.published(txn);
    let plan = b.commit_plan(txn);
    let meta = b.meta_to_commit(txn);
    lemma_begun(m, txn);
    reveal(undoable);
    let (s, t) = (a.txn_page_states, b.txn_page_states);
    let alone = Map::<u64, Map<PageId, WriteView>>::empty().insert(txn, t[txn]);
    assert forall|u: u64, p: PageId| u != txn implies !#[trigger] wrote(t, u, p) by {
        if wrote(t, u, p) {
            assert(t.remove(txn).dom().contains(u));
            assert(s.remove(txn).dom().contains(u) && s.remove(txn)[u] == t.remove(txn)[u]);
            assert(wrote(m.txn_page_states, u, p));
        }
    }
    lemma_covers_exists(alone, b.committed_page_count);
    lemma_plan_ids(b, txn);
    assert(plan.pages.dom().contains(PageId(0)));
    assert(plan.ids.to_set().contains(PageId(0)));
    lemma_put_found(b.disk, plan.ids, plan.pages, 0, plan.ids.index_of(PageId(0)));
    law_meta_page_round_trip(meta);
    assert forall|u: u64, p: PageId| !#[trigger] wrote(after.txn_page_states, u, p) by {
        if u != txn {
            assert(!wrote(t, u, p));
        }
    }
    lemma_effective_count(after.txn_page_states, meta.page_count, meta.page_count);
    assert forall|x: PageId| 0 < x.0 && #[trigger] after.read(x) is Ok implies x.0
        < after.committed_page_count && raw_page(after.disk, x) == after.read(x) by {
        if t[txn].dom().contains(x) {
            assert(wrote(alone, txn, x));
            assert(wrote(t, txn, x));
            assert(count_for(x) <= meta.page_count);
            assert(plan.pages.dom().contains(x));
            assert(plan.ids.to_set().contains(x));
            lemma_put_found(b.disk, plan.ids, plan.pages, 0, plan.ids.index_of(x));
        } else if b.page_cache.dom().contains(x) {
            lemma_others_filed(m, b, txn, x);
            assert forall|k: int| 0 <= k < plan.ids.len() implies #[trigger] plan.ids[k] != x by {
                assert(plan.ids.to_set().contains(plan.ids[k]));
            }
            lemma_put_later(b.disk, plan.ids, plan.pages, 0, x);
        }
    }
}

/// The file is what the engine shows once garbage is purged.
pub proof fn law_purges_reach_the_file(m: StorageModel)
    requires
        counted(m.pager),
        filed(m.pager),
        m.garbage_purged().1.fault is None,
    ensures
        filed(m.garbage_purged().0.pager),
{
    let horizon = horizon_of(m.pager.txns);
    let tidied = m.tidy(horizon);
    let records = garbage_of(m);
    let end = m.garbage_purged().0;
    assert forall|x: PageId| #[trigger] tidied.pager.read(x) == m.pager.read(x) by {}
    if records.len() == 0 {
        assert forall|x: PageId| #[trigger] end.pager.read(x) == m.pager.read(x) by {}
    } else {
        let (begun, r) = tidied.pager.begun(IsolationLevel::ReadCommitted);
        let id = r->Ok_0;
        let started = tidied.pager.with_txns(begun.txns);
        assert(begun == started.begun_with(id).0);
        assert forall|x: PageId| #[trigger] started.read(x) == m.pager.read(x) by {}
        let b = records_purged_from(begun, m.catalog, id, horizon, records, 0).0;
        lemma_records_undoable(begun, m.catalog, id, horizon, records, 0);
        let (t, ts) = stamp_taken(b.txns, TransactionId(id));
        let c = b.with_txns(
            t.with_txn(
                TransactionId(id),
                committed_at(t.txns[TransactionId(id)], ts->Ok_0),
            ),
        );
        lemma_same(b, c.txns, id);
        lemma_trans(begun, b, c, id);
        lemma_published_filed(started, c, id);
        let done = c.published(id);
        assert forall|x: PageId| #[trigger] end.pager.read(x) == done.read(x) by {}
    }
}

/// The file is what the engine shows once a transaction is committed that nobody wrote beside,
/// before garbage is purged and after it. The page of the catalog has the committed bytes.
pub proof fn law_commits_reach_the_file(
    m: StorageModel,
    level: IsolationLevel,
    n: StorageModel,
    catalog: Seq<u8>,
)
    requires
        counted(m.pager),
        filed(m.pager),
        m.began(level).1 is Ok,
        can_be_undone(m.began(level).0, n, m.began(level).1->Ok_0),
        n.committed(m.began(level).1->Ok_0, catalog).1 is Ok,
        0 < n.pager.meta.page_count,
    ensures
        filed(published(n, m.began(level).1->Ok_0, catalog).pager),
        published(n, m.began(level).1->Ok_0, catalog).pager.read(PageId(1)) == Ok::<_, ErrorView>(
            payload_page(PageKind::Catalog, catalog),
        ),
        n.committed(m.began(level).1->Ok_0, catalog).1->Ok_0.fault is None ==> filed(
            n.committed(m.began(level).1->Ok_0, catalog).0.pager,
        ),
{
    let (a, r) = m.began(level);
    let txn = r->Ok_0;
    let started = m.pager.with_txns(a.pager.txns);
    assert(a.pager == started.begun_with(txn.0).0);
    assert forall|x: PageId| #[trigger] started.read(x) == m.pager.read(x) by {}
    lemma_begun(started, txn.0);
    law_what_can_be_undone_can_be_committed(m, level, n);
    let b = made_ready(n, txn, catalog);
    lemma_made_ready(n, txn, catalog);
    lemma_trans(a.pager, n.pager, b.pager, txn.0);
    lemma_published_filed(started, b.pager, txn.0);
    let done = published(n, txn, catalog);
    let p = b.pager.published(txn.0);
    assert forall|x: PageId| #[trigger] done.pager.read(x) == p.read(x) by {}
    lemma_published_pages(b.pager, txn.0, PageId(1));
    law_pages_stay_counted(b.pager, txn.0);
    if n.committed(txn, catalog).1->Ok_0.fault is None {
        law_purges_reach_the_file(done);
    }
}

/// The file is what the engine shows once a transaction is rolled back that nobody wrote beside,
/// before garbage is purged and after it.
pub proof fn law_rollbacks_leave_the_file(m: StorageModel, level: IsolationLevel, n: StorageModel)
    requires
        counted(m.pager),
        filed(m.pager),
        m.began(level).1 is Ok,
        can_be_undone(m.began(level).0, n, m.began(level).1->Ok_0),
        n.pager.txns.txns[m.began(level).1->Ok_0].status == TxnStatus::Active,
        n.rolled_back(m.began(level).1->Ok_0).1 is Ok,
    ensures
        filed(taken_back(n, m.began(level).1->Ok_0).pager),
        n.rolled_back(m.began(level).1->Ok_0).1->Ok_0.fault is None ==> filed(
            n.rolled_back(m.began(level).1->Ok_0).0.pager,
        ),
{
    law_rollback_leaves_what_there_was(m, level, n);
    let back = taken_back(n, m.began(level).1->Ok_0);
    if n.rolled_back(m.began(level).1->Ok_0).1->Ok_0.fault is None {
        law_purges_reach_the_file(back);
    }
}

} // verus!
