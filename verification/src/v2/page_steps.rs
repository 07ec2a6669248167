//! What a transaction does to pages, step by step.

use vstd::prelude::*;

use crate::common::error::ErrorView;
use crate::common::value::{IsolationLevel, TransactionId};
use crate::v2::page::{blank, PageId, PageKind};
use crate::v2::pager_model::{PagerModel, WriteView};
use crate::v2::txn_model::{deadlock_error, enqueued, queue_of, TxnModel, WaitReason};
use crate::v2::undo_laws::{
    counted, lemma_allocated, lemma_begun, lemma_same, lemma_trans, lemma_written, undoable,
};

verus! {

/// What a transaction asks of the pager.
pub enum PageStep {
    Write(PageId, Seq<u8>),
    Allocate(PageKind),
}

/// The pager once a step is taken.
pub open spec fn taken(m: PagerModel, txn: u64, step: PageStep) -> PagerModel {
    match step {
        PageStep::Write(id, page) => m.written(txn, id, page).0,
        PageStep::Allocate(kind) => m.allocated(txn, kind).0,
    }
}

/// Whether a step goes well.
pub open spec fn goes_well(m: PagerModel, txn: u64, step: PageStep) -> bool {
    match step {
        PageStep::Write(id, page) => m.written(txn, id, page).1 is Ok,
        PageStep::Allocate(kind) => m.allocated(txn, kind).1 is Ok,
    }
}

/// Whether a step goes well, or fails without aborting the transaction.
pub open spec fn survived(m: PagerModel, txn: u64, step: PageStep) -> bool {
    goes_well(m, txn, step) || taken(m, txn, step).txns.is_active(TransactionId(txn))
}

/// The pager once steps are taken.
pub open spec fn after_steps(m: PagerModel, txn: u64, steps: Seq<PageStep>) -> PagerModel
    decreases steps.len(),
{
    if steps.len() == 0 {
        m
    } else {
        taken(after_steps(m, txn, steps.drop_last()), txn, steps.last())
    }
}

/// Whether a transaction survives all steps.
pub open spec fn all_survived(m: PagerModel, txn: u64, steps: Seq<PageStep>) -> bool
    decreases steps.len(),
{
    steps.len() == 0 || (all_survived(m, txn, steps.drop_last()) && survived(
        after_steps(m, txn, steps.drop_last()),
        txn,
        steps.last(),
    ))
}

/// What the last of some steps that wrote a page wrote there, if any did.
pub open spec fn last_image(m: PagerModel, txn: u64, steps: Seq<PageStep>, p: PageId) -> Option<
    Seq<u8>,
>
    decreases steps.len(),
{
    if steps.len() == 0 {
        None
    } else {
        let before = after_steps(m, txn, steps.drop_last());
        match steps.last() {
            PageStep::Write(id, page) if id == p && before.written(txn, id, page).1 is Ok => Some(
                page,
            ),
            PageStep::Allocate(kind) if before.allocated(txn, kind).1 == Ok::<
                PageId,
                ErrorView,
            >(p) => Some(blank(kind)),
            _ => last_image(m, txn, steps.drop_last(), p),
        }
    }
}

proof fn lemma_page_keeps_known(m: TxnModel, txn: TransactionId, page: PageId)
    ensures
        m.txns.dom().subset_of(m.page_acquired(txn, page).0.txns.dom()),
    decreases m.other_waiters(txn).len(),
{
    let owned = m.page_write_owners.dom().contains(page);
    let queue = queue_of(m.page_write_wait_queues, page);
    let blocker = if owned {
        m.page_write_owners[page]
    } else {
        queue[0]
    };
    let waiting = TxnModel {
        page_write_wait_queues: enqueued(m.page_write_wait_queues, page, txn),
        ..m
    }.with_page_waits(txn, Set::empty().insert(blocker));
    let victim = waiting.deadlock_victim(txn, blocker);
    let deadlock = deadlock_error(
        WaitReason::Page { txn: txn.0, other: blocker.0, page: page.0 },
        Seq::empty(),
        victim,
    );
    let after = waiting.sacrificed(victim, deadlock);
    if after.other_waiters(txn).len() < m.other_waiters(txn).len() {
        lemma_page_keeps_known(after, txn, page);
    }
}

/// A step that a transaction survives can be undone. It keeps the images of all other pages.
proof fn lemma_survived(m: PagerModel, txn: u64, step: PageStep)
    requires
        survived(m, txn, step),
    ensures
        undoable(m, taken(m, txn, step), txn),
        m.txns.txns.dom().subset_of(taken(m, txn, step).txns.txns.dom()),
        !goes_well(m, txn, step) ==> taken(m, txn, step) == m.with_txns(taken(m, txn, step).txns),
{
    let t = TransactionId(txn);
    let after = taken(m, txn, step);
    match step {
        PageStep::Write(id, page) => {
            lemma_page_keeps_known(m.txns, t, id);
            if goes_well(m, txn, step) {
                lemma_written(m, txn, id, page);
            } else {
                assert(after =~= m.with_txns(after.txns));
                lemma_same(m, after.txns, txn);
            }
        },
        PageStep::Allocate(kind) => {
            lemma_page_keeps_known(m.txns, t, PageId(m.meta.page_count));
            if goes_well(m, txn, step) {
                lemma_allocated(m, txn, kind);
            } else {
                assert(after =~= m.with_txns(after.txns));
                lemma_same(m, after.txns, txn);
            }
        },
    }
}

proof fn lemma_steps(m: PagerModel, txn: u64, steps: Seq<PageStep>)
    requires
        all_survived(m, txn, steps),
    ensures
        undoable(m, after_steps(m, txn, steps), txn),
        m.txns.txns.dom().subset_of(after_steps(m, txn, steps).txns.txns.dom()),
    decreases steps.len(),
{
    if steps.len() == 0 {
        lemma_same(m, m.txns, txn);
    } else {
        let before = after_steps(m, txn, steps.drop_last());
        lemma_steps(m, txn, steps.drop_last());
        lemma_survived(before, txn, steps.last());
        lemma_trans(m, before, after_steps(m, txn, steps), txn);
    }
}

/// Rolling back undoes whatever a transaction wrote and allocated since it began: the number of
/// pages is what it was, each page is read as it was, a page of the transaction is not there
/// any more, and the pager does not know the transaction.
pub proof fn law_rollback_undoes_all_steps(
    m: PagerModel,
    level: IsolationLevel,
    steps: Seq<PageStep>,
)
    requires
        counted(m),
        m.begun(level).1 is Ok,
        all_survived(m.begun(level).0, m.begun(level).1->Ok_0, steps),
        after_steps(m.begun(level).0, m.begun(level).1->Ok_0, steps).txns.lock_wait_epoch
            < u64::MAX,
    ensures
        ({
            let (begun, r) = m.begun(level);
            let txn = r->Ok_0;
            let (end, done) = after_steps(begun, txn, steps).rolled_back(txn);
            &&& done is Ok
            &&& end.meta.page_count == m.meta.page_count
            &&& end.meta.page_count == begun.meta.page_count
            &&& forall|p: PageId| #[trigger] end.read(p) == begun.read(p)
            &&& forall|p: PageId| #[trigger] end.read(p) == m.read(p)
            &&& !end.knows(txn)
        }),
{
    let (begun, r) = m.begun(level);
    let txn = r->Ok_0;
    let started = m.with_txns(begun.txns);
    assert(begun == started.begun_with(txn).0);
    lemma_begun(started, txn);
    lemma_steps(begun, txn, steps);
    reveal(undoable);
    let n = after_steps(begun, txn, steps);
    let end = n.rolled_back(txn).0;
    assert(begun.txns.txns.dom().contains(TransactionId(txn)));
    assert forall|p: PageId| #[trigger] end.read(p) == begun.read(p) && end.read(p) == m.read(p) by {
        assert(n.forgotten(txn).read(p) == begun.forgotten(txn).read(p));
        assert(begun.forgotten(txn).read(p) == started.read(p));
        assert(started.read(p) == m.read(p));
        assert(begun.read(p) == m.read(p));
    }
}

/// Whether the pages that a transaction has pending are those that steps wrote, each with what
/// was there before the first of them and what the last of them wrote; all other pages are in
/// the cache as they were.
pub open spec fn images_kept(m: PagerModel, txn: u64, steps: Seq<PageStep>) -> bool {
    let n = after_steps(m, txn, steps);
    &&& n.knows(txn)
    &&& n.disk == m.disk
    &&& n.committed_page_count == m.committed_page_count
    &&& m.meta.page_count <= n.meta.page_count
    &&& forall|p: PageId| #[trigger]
        n.txn_page_states[txn].dom().contains(p) <==> last_image(m, txn, steps, p) is Some
    &&& forall|p: PageId| #[trigger]
        n.txn_page_states[txn].dom().contains(p) ==> {
            let w = n.txn_page_states[txn][p];
            &&& Some(w.after_image) == last_image(m, txn, steps, p)
            &&& p.0 < m.meta.page_count ==> m.current(p) == Ok::<
                _,
                ErrorView,
            >(w.before_image)
            &&& p.0 >= m.meta.page_count ==> w.before_image is None
        }
    &&& forall|p: PageId| #[trigger]
        n.page_cache.dom().contains(p) == m.page_cache.dom().contains(p) || n.txn_page_states[txn].dom().contains(
            p,
        )
    &&& forall|p: PageId|
        !n.txn_page_states[txn].dom().contains(p) && #[trigger] n.page_cache.dom().contains(p)
            ==> n.page_cache[p] == m.page_cache[p]
    &&& forall|p: PageId| #[trigger]
        n.txn_page_states[txn].dom().contains(p) ==> p.0 < n.meta.page_count
    &&& forall|p: PageId|
        #![trigger n.txn_page_states[txn].dom().contains(p)]
        m.meta.page_count <= p.0 < n.meta.page_count ==> n.txn_page_states[txn].dom().contains(p)
}

/// However often a transaction writes a page, its pending before image is what the page was when
/// the transaction began, and none for a page that it allocated itself; its after image is what
/// it wrote last. It has one entry for each page that it wrote or allocated, and no other.
pub proof fn law_pending_images_are_kept(m: PagerModel, txn: u64, steps: Seq<PageStep>)
    requires
        counted(m),
        m.knows(txn),
        m.txn_page_states[txn] == Map::<PageId, WriteView>::empty(),
        all_survived(m, txn, steps),
    ensures
        images_kept(m, txn, steps),
    decreases steps.len(),
{
    if steps.len() > 0 {
        law_pending_images_are_kept(m, txn, steps.drop_last());
        let b = after_steps(m, txn, steps.drop_last());
        let n = after_steps(m, txn, steps);
        lemma_survived(b, txn, steps.last());
        if goes_well(b, txn, steps.last()) {
            match steps.last() {
                PageStep::Write(id, page) => {
                    let middle = b.locked(txn, id).0;
                    assert(middle == b.with_txns(middle.txns));
                    if !b.txn_page_states[txn].dom().contains(id) {
                        assert(b.page_cache.dom().contains(id) == m.page_cache.dom().contains(id));
                        if id.0 >= m.meta.page_count {
                            assert(b.txn_page_states[txn].dom().contains(id));
                        }
                    }
                },
                PageStep::Allocate(kind) => {
                    let id = PageId(b.meta.page_count);
                    assert(b.allocated(txn, kind).1->Ok_0 == id);
                    assert(!b.txn_page_states[txn].dom().contains(id));
                },
            }
        } else {
            assert(n.txn_page_states == b.txn_page_states);
        }
    }
}

} // verus!
