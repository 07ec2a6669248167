//! The model of the pager: what each operation does to the file, the cache and the pages
//! that transactions have written.

use vstd::prelude::*;

use crate::common::bytes::le_value;
use crate::common::error::{bare, ErrorCode, ErrorView};
use crate::common::ordset::sorted;
use crate::common::value::{IsolationLevel, TransactionId};
use crate::v2::page::{
    blank, meta_bytes, meta_error, payload_page, MetaPage, PageId, PageKind, PAGE_SIZE,
};
use crate::v2::tx_types::{TxnStatus, TxnView};
use crate::v2::txn_manager::room_for_waiters;
use crate::v2::txn_model::{not_active, numbers_used, TxnModel};
use crate::v2::wal::{recovered, FrameView, LogRecord};

verus! {

/// A page that a transaction wrote, before and after.
#[verifier::ext_equal]
pub struct WriteView {
    pub before_image: Option<Seq<u8>>,
    pub after_image: Seq<u8>,
}

/// The state of the pager.
#[verifier::ext_equal]
pub struct PagerModel {
    /// The pages of the file.
    pub disk: Seq<Seq<u8>>,
    pub meta: MetaPage,
    pub committed_page_count: u32,
    pub page_cache: Map<PageId, Seq<u8>>,
    pub txn_page_states: Map<u64, Map<PageId, WriteView>>,
    pub txns: TxnModel,
}

/// A page of zeros.
pub open spec fn zero_page() -> Seq<u8> {
    Seq::new(PAGE_SIZE as nat, |i: int| 0u8)
}

/// The pages of a file once a page is written. Pages between its end and that page are
/// zero.
pub open spec fn put_page(disk: Seq<Seq<u8>>, id: PageId, page: Seq<u8>) -> Seq<Seq<u8>> {
    Seq::new(
        if id.0 < disk.len() {
            disk.len()
        } else {
            (id.0 + 1) as nat
        },
        |i: int|
            if i == id.0 {
                page
            } else if i < disk.len() {
                disk[i]
            } else {
                zero_page()
            },
    )
}

/// The pages of a file once pages are written, from one on.
pub open spec fn put_pages(
    disk: Seq<Seq<u8>>,
    ids: Seq<PageId>,
    pages: Map<PageId, Seq<u8>>,
    i: int,
) -> Seq<Seq<u8>>
    decreases ids.len() - i,
{
    if i < 0 || i >= ids.len() {
        disk
    } else {
        put_pages(put_page(disk, ids[i], pages[ids[i]]), ids, pages, i + 1)
    }
}

/// The pages of a file once frames of a log are written, from one on.
pub open spec fn put_frames(disk: Seq<Seq<u8>>, frames: Seq<FrameView>, i: int) -> Seq<Seq<u8>>
    decreases frames.len() - i,
{
    if i < 0 || i >= frames.len() {
        disk
    } else {
        put_frames(put_page(disk, frames[i].page_id, frames[i].page_bytes), frames, i + 1)
    }
}

/// A page of a file.
pub open spec fn raw_page(disk: Seq<Seq<u8>>, id: PageId) -> Result<Seq<u8>, ErrorView> {
    if id.0 < disk.len() {
        Ok(disk[id.0 as int])
    } else {
        Err(bare(ErrorCode::ShortFile))
    }
}

/// What a meta page says.
pub open spec fn meta_read(page: Seq<u8>) -> Result<MetaPage, ErrorView> {
    match meta_error(page) {
        Some(e) => Err(e),
        None => Ok(
            MetaPage {
                page_size: le_value(page.subrange(16, 20)) as u32,
                page_count: le_value(page.subrange(20, 24)) as u32,
                catalog_page_id: PageId(le_value(page.subrange(24, 28)) as u32),
                next_txn_id: le_value(page.subrange(28, 36)) as u64,
            },
        ),
    }
}

/// The meta page of a new file.
pub open spec fn first_meta() -> MetaPage {
    MetaPage {
        page_size: PAGE_SIZE as u32,
        page_count: 2,
        catalog_page_id: PageId(1),
        next_txn_id: 1,
    }
}

/// The pages of a new file.
pub open spec fn first_pages() -> Seq<Seq<u8>> {
    seq![meta_bytes(first_meta()), payload_page(PageKind::Catalog, Seq::empty())]
}

/// A file once its log is replayed.
pub open spec fn replayed(disk: Seq<Seq<u8>>, log: Option<Seq<u8>>) -> Result<
    Seq<Seq<u8>>,
    ErrorView,
> {
    match log {
        None => Ok(disk),
        Some(bytes) => match recovered(bytes, Map::empty(), Seq::empty()) {
            Err(e) => Err(e),
            Ok(frames) => Ok(put_frames(disk, frames, 0)),
        },
    }
}

/// The pager of pages and a cache.
pub open spec fn pager_of(
    disk: Seq<Seq<u8>>,
    meta: MetaPage,
    cache: Map<PageId, Seq<u8>>,
) -> PagerModel {
    PagerModel {
        disk,
        meta,
        committed_page_count: meta.page_count,
        page_cache: cache,
        txn_page_states: Map::empty(),
        txns: TxnModel::initial(meta.next_txn_id),
    }
}

/// The pager of a file, which may be new and may have a log.
pub open spec fn opened(
    file: Option<Seq<Seq<u8>>>,
    log: Option<Seq<u8>>,
    cache: Map<PageId, Seq<u8>>,
) -> Result<PagerModel, ErrorView> {
    match file {
        None => Ok(pager_of(first_pages(), first_meta(), cache)),
        Some(pages) => match replayed(pages, log) {
            Err(e) => Err(e),
            Ok(disk) => match raw_page(disk, PageId(0)) {
                Err(e) => Err(e),
                Ok(page) => match meta_read(page) {
                    Err(e) => Err(e),
                    Ok(meta) => Ok(pager_of(disk, meta, cache)),
                },
            },
        },
    }
}

/// The number of pages that there must be for a page to be one of them.
pub open spec fn count_for(id: PageId) -> u32 {
    if id.0 < u32::MAX {
        (id.0 + 1) as u32
    } else {
        u32::MAX
    }
}

/// Whether some transaction wrote a page.
pub open spec fn wrote(
    states: Map<u64, Map<PageId, WriteView>>,
    txn: u64,
    id: PageId,
) -> bool {
    states.dom().contains(txn) && states[txn].dom().contains(id)
}

/// Whether a number of pages is the smallest that covers the committed pages and all that
/// transactions wrote.
pub open spec fn covers(
    states: Map<u64, Map<PageId, WriteView>>,
    committed: u32,
    count: u32,
) -> bool {
    &&& committed <= count
    &&& forall|t: u64, p: PageId| #[trigger] wrote(states, t, p) ==> count_for(p) <= count
    &&& count == committed || exists|t: u64, p: PageId| #[trigger]
        wrote(states, t, p) && count == count_for(p)
}

/// The number of pages: the committed ones and all that transactions wrote.
pub open spec fn effective_count(states: Map<u64, Map<PageId, WriteView>>, committed: u32) -> u32 {
    choose|n: u32| covers(states, committed, n)
}

/// The number of pages is the only one of its kind.
pub proof fn lemma_effective_count(
    states: Map<u64, Map<PageId, WriteView>>,
    committed: u32,
    count: u32,
)
    requires
        covers(states, committed, count),
    ensures
        effective_count(states, committed) == count,
{
    let other = effective_count(states, committed);
    assert(covers(states, committed, other));
    if other != committed {
        let (t, p) = choose|t: u64, p: PageId| #[trigger]
            wrote(states, t, p) && other == count_for(p);
        assert(count_for(p) <= count);
    }
    if count != committed {
        let (t, p) = choose|t: u64, p: PageId| #[trigger]
            wrote(states, t, p) && count == count_for(p);
        assert(count_for(p) <= other);
    }
}

/// There is a number of pages that covers what transactions wrote: a bounded set of numbers
/// has a greatest.
pub proof fn lemma_covers_exists(states: Map<u64, Map<PageId, WriteView>>, committed: u32)
    ensures
        covers(states, committed, effective_count(states, committed)),
{
    lemma_covers_below(states, committed, u32::MAX);
}

proof fn lemma_covers_below(states: Map<u64, Map<PageId, WriteView>>, committed: u32, bound: u32)
    requires
        committed <= bound,
        forall|t: u64, p: PageId| #[trigger] wrote(states, t, p) ==> count_for(p) <= bound,
    ensures
        covers(states, committed, effective_count(states, committed)),
    decreases bound,
{
    if covers(states, committed, bound) {
    } else {
        assert(bound > committed);
        assert forall|t: u64, p: PageId| #[trigger] wrote(states, t, p) implies count_for(p)
            <= bound - 1 by {}
        lemma_covers_below(states, committed, (bound - 1) as u32);
    }
}

/// A cache once the pages that a transaction wrote are as they were before.
pub open spec fn restored(cache: Map<PageId, Seq<u8>>, writes: Map<PageId, WriteView>) -> Map<
    PageId,
    Seq<u8>,
> {
    Map::new(
        |p: PageId|
            if writes.dom().contains(p) {
                writes[p].before_image is Some
            } else {
                cache.dom().contains(p)
            },
        |p: PageId|
            if writes.dom().contains(p) {
                writes[p].before_image->Some_0
            } else {
                cache[p]
            },
    )
}

/// The pages that a commit writes: those of the transaction, and the meta page.
pub open spec fn to_commit(writes: Map<PageId, WriteView>, meta: MetaPage) -> Map<PageId, Seq<u8>> {
    Map::new(
        |p: PageId| writes.dom().contains(p) || p == PageId(0),
        |p: PageId|
            if p == PageId(0) {
                meta_bytes(meta)
            } else {
                writes[p].after_image
            },
    )
}

/// The records that a commit writes into the log.
pub open spec fn commit_records(txn: u64, ids: Seq<PageId>, pages: Map<PageId, Seq<u8>>) -> Seq<
    LogRecord,
> {
    Seq::new(
        ids.len(),
        |i: int|
            LogRecord::Frame(
                FrameView { txn_id: txn, page_id: ids[i], page_bytes: pages[ids[i]] },
            ),
    ).push(LogRecord::Commit { txn_id: txn, frame_count: ids.len() as u32 })
}

/// What a commit writes: the log, and then the pages, in ascending order.
#[verifier::ext_equal]
pub struct CommitView {
    pub log: Seq<u8>,
    pub ids: Seq<PageId>,
    pub pages: Map<PageId, Seq<u8>>,
}

impl PagerModel {
    /// The pager with another state of the transactions.
    pub open spec fn with_txns(self, txns: TxnModel) -> PagerModel {
        PagerModel { txns, ..self }
    }

    /// A page as the cache or the file has it.
    pub open spec fn read(self, id: PageId) -> Result<Seq<u8>, ErrorView> {
        if self.page_cache.dom().contains(id) {
            Ok(self.page_cache[id])
        } else if id.0 >= self.committed_page_count {
            Err(
                bare(
                    ErrorCode::PageOutOfBounds { page: id.0, count: self.committed_page_count },
                ),
            )
        } else {
            raw_page(self.disk, id)
        }
    }

    /// Whether a transaction has begun here.
    pub open spec fn knows(self, txn: u64) -> bool {
        self.txn_page_states.dom().contains(txn)
    }

    /// The pager once a transaction with a number has begun.
    pub open spec fn begun_with(self, txn: u64) -> (PagerModel, Result<(), ErrorView>) {
        if self.knows(txn) {
            (self, Err(bare(ErrorCode::TxnAlreadyActive(txn))))
        } else {
            let after: u64 = if txn < u64::MAX {
                (txn + 1) as u64
            } else {
                u64::MAX
            };
            (
                PagerModel {
                    meta: MetaPage {
                        next_txn_id: if self.meta.next_txn_id < after {
                            after
                        } else {
                            self.meta.next_txn_id
                        },
                        ..self.meta
                    },
                    txn_page_states: self.txn_page_states.insert(txn, Map::empty()),
                    ..self
                },
                Ok(()),
            )
        }
    }

    /// The pager once a transaction has begun, and its number.
    pub open spec fn begun(self, isolation_level: IsolationLevel) -> (
        PagerModel,
        Result<u64, ErrorView>,
    ) {
        if self.txns.next_txn_id == u64::MAX {
            (self, Err(bare(ErrorCode::TxnNumbersUsedUp)))
        } else {
            let id: u64 = if self.txns.next_txn_id >= 1 {
                self.txns.next_txn_id
            } else {
                1
            };
            let started = self.with_txns(
                (TxnModel { next_txn_id: (id + 1) as u64, ..self.txns }).begun(
                    TransactionId(id),
                    isolation_level,
                ),
            );
            match started.begun_with(id) {
                (after, Ok(_)) => (after, Ok(id)),
                (after, Err(e)) => (after.with_txns(aborted(after.txns, id)), Err(e)),
            }
        }
    }

    /// The pager once a transaction is found to have been aborted: its pages are as they were
    /// before.
    pub open spec fn cleaned(self, txn: u64) -> PagerModel {
        if self.txns.txns.dom().contains(TransactionId(txn)) && self.txns.txns[TransactionId(
            txn,
        )].status == TxnStatus::Aborted {
            self.forgotten(txn)
        } else {
            self
        }
    }

    /// The pager once what a transaction wrote is taken back.
    pub open spec fn forgotten(self, txn: u64) -> PagerModel {
        let states = self.txn_page_states.remove(txn);
        PagerModel {
            page_cache: if self.knows(txn) {
                restored(self.page_cache, self.txn_page_states[txn])
            } else {
                self.page_cache
            },
            txn_page_states: states,
            meta: MetaPage {
                page_count: effective_count(states, self.committed_page_count),
                ..self.meta
            },
            ..self
        }
    }

    /// The pager once a transaction has asked for the right to write a page. Where it must
    /// wait, it is told so.
    pub open spec fn locked(self, txn: u64, id: PageId) -> (PagerModel, Result<(), ErrorView>) {
        if !room_for_waiters(self.txns) {
            (self, Err(bare(ErrorCode::LockEpochsUsedUp)))
        } else {
            match self.txns.page_acquired(TransactionId(txn), id) {
                (txns, Ok(_)) => (self.with_txns(txns), Ok(())),
                (txns, Err(e)) => (self.with_txns(txns).cleaned(txn), Err(e)),
            }
        }
    }

    /// The pager once a transaction that has begun asked for the right to write a page.
    pub open spec fn lock_asked(self, txn: u64, id: PageId) -> (PagerModel, Result<(), ErrorView>) {
        if self.knows(txn) {
            self.locked(txn, id)
        } else {
            (self, Err(bare(ErrorCode::TxnNotActive(txn))))
        }
    }

    /// A page as it is before a transaction writes it for the first time.
    pub open spec fn current(self, id: PageId) -> Result<Option<Seq<u8>>, ErrorView> {
        if self.page_cache.dom().contains(id) {
            Ok(Some(self.page_cache[id]))
        } else if id.0 < self.committed_page_count {
            match raw_page(self.disk, id) {
                Ok(page) => Ok(Some(page)),
                Err(e) => Err(e),
            }
        } else {
            Ok(None)
        }
    }

    /// The pager with a page written by a transaction.
    pub open spec fn noted(self, txn: u64, id: PageId, write: WriteView) -> PagerModel {
        PagerModel {
            txn_page_states: self.txn_page_states.insert(
                txn,
                self.txn_page_states[txn].insert(id, write),
            ),
            page_cache: self.page_cache.insert(id, write.after_image),
            ..self
        }
    }

    /// The pager once a transaction has written a page, if it may.
    pub open spec fn written(self, txn: u64, id: PageId, page: Seq<u8>) -> (
        PagerModel,
        Result<(), ErrorView>,
    ) {
        if !self.knows(txn) {
            (self, Err(bare(ErrorCode::TxnNotActive(txn))))
        } else if page.len() != PAGE_SIZE {
            (self, Err(bare(ErrorCode::PageWriteSize)))
        } else if id.0 >= self.meta.page_count {
            (
                self,
                Err(
                    bare(
                        ErrorCode::PageOutOfBounds { page: id.0, count: self.meta.page_count },
                    ),
                ),
            )
        } else {
            match self.locked(txn, id) {
                (after, Err(e)) => (after, Err(e)),
                (after, Ok(_)) => {
                    let before = if after.txn_page_states[txn].dom().contains(id) {
                        Ok(after.txn_page_states[txn][id].before_image)
                    } else {
                        after.current(id)
                    };
                    match before {
                        Err(e) => (after, Err(e)),
                        Ok(before_image) => (
                            after.noted(txn, id, WriteView { before_image, after_image: page }),
                            Ok(()),
                        ),
                    }
                },
            }
        }
    }

    /// The pager once a transaction has got a new page, and its number.
    pub open spec fn allocated(self, txn: u64, kind: PageKind) -> (
        PagerModel,
        Result<PageId, ErrorView>,
    ) {
        if !self.knows(txn) {
            (self, Err(bare(ErrorCode::TxnNotActive(txn))))
        } else if self.meta.page_count == u32::MAX {
            (self, Err(bare(ErrorCode::DatabaseFull)))
        } else {
            let id = PageId(self.meta.page_count);
            let longer = PagerModel {
                meta: MetaPage { page_count: (self.meta.page_count + 1) as u32, ..self.meta },
                ..self
            };
            match longer.locked(txn, id) {
                (after, Err(e)) => (
                    PagerModel {
                        meta: MetaPage {
                            page_count: if after.meta.page_count > 0 {
                                (after.meta.page_count - 1) as u32
                            } else {
                                0
                            },
                            ..after.meta
                        },
                        ..after
                    },
                    Err(e),
                ),
                (after, Ok(_)) => (
                    after.noted(
                        txn,
                        id,
                        WriteView { before_image: None, after_image: blank(kind) },
                    ),
                    Ok(id),
                ),
            }
        }
    }

    /// The meta page that a commit writes.
    pub open spec fn meta_to_commit(self, txn: u64) -> MetaPage {
        MetaPage {
            page_count: effective_count(
                Map::<u64, Map<PageId, WriteView>>::empty().insert(txn, self.txn_page_states[txn]),
                self.committed_page_count,
            ),
            ..self.meta
        }
    }

    /// What a commit writes.
    pub open spec fn commit_plan(self, txn: u64) -> CommitView {
        let pages = to_commit(self.txn_page_states[txn], self.meta_to_commit(txn));
        let ids = sorted::<PageId>(pages.dom());
        CommitView { log: crate::v2::wal::log_bytes(commit_records(txn, ids, pages)), ids, pages }
    }

    /// The pager once the pages of a transaction are in the file.
    pub open spec fn published(self, txn: u64) -> PagerModel {
        let plan = self.commit_plan(txn);
        let states = self.txn_page_states.remove(txn);
        let count = self.meta_to_commit(txn).page_count;
        PagerModel {
            disk: put_pages(self.disk, plan.ids, plan.pages, 0),
            page_cache: self.page_cache.union_prefer_right(plan.pages),
            txn_page_states: states,
            committed_page_count: count,
            meta: MetaPage { page_count: effective_count(states, count), ..self.meta },
            ..self
        }
    }

    /// The pager once a transaction has given back its locks.
    pub open spec fn let_go(self, txn: u64) -> (PagerModel, Result<(), ErrorView>) {
        if self.txns.txns.dom().contains(TransactionId(txn)) {
            (self.with_txns(self.txns.released(TransactionId(txn))), Ok(()))
        } else {
            (self, Err(not_active(TransactionId(txn))))
        }
    }

    /// The pager once a transaction is committed, and what that writes.
    pub open spec fn committed(self, txn: u64) -> (PagerModel, Result<CommitView, ErrorView>) {
        if self.txns.lock_wait_epoch == u64::MAX {
            (self, Err(bare(ErrorCode::LockEpochsUsedUp)))
        } else if !self.knows(txn) {
            (self, Err(bare(ErrorCode::TxnNotActive(txn))))
        } else {
            match self.published(txn).let_go(txn) {
                (after, Ok(_)) => (after, Ok(self.commit_plan(txn))),
                (after, Err(e)) => (after, Err(e)),
            }
        }
    }

    /// The pager once what a transaction did is taken back.
    pub open spec fn rolled_back(self, txn: u64) -> (PagerModel, Result<(), ErrorView>) {
        if self.txns.lock_wait_epoch == u64::MAX {
            (self, Err(bare(ErrorCode::LockEpochsUsedUp)))
        } else if !self.knows(txn) {
            (self, Err(bare(ErrorCode::TxnNotActive(txn))))
        } else {
            self.forgotten(txn).let_go(txn)
        }
    }

    /// What every pager satisfies: the waits that its transactions recorded are in step, only
    /// active transactions wait, no known transaction has a number that is still to be given,
    /// and all pages that transactions wrote have the size of a page.
    pub open spec fn sound(self) -> bool {
        &&& self.txns.waits_in_step()
        &&& self.txns.waiters_active()
        &&& numbers_used(self.txns)
        &&& forall|t: u64, p: PageId| #[trigger]
            wrote(self.txn_page_states, t, p)
                ==> self.txn_page_states[t][p].after_image.len() == PAGE_SIZE
    }
}

/// The transactions once one is marked as aborted, if it is active.
pub open spec fn aborted(m: TxnModel, txn: u64) -> TxnModel {
    let id = TransactionId(txn);
    if m.is_active(id) {
        m.with_txn(
            id,
            TxnView { status: TxnStatus::Aborted, terminal_error: None, ..m.txns[id] },
        )
    } else {
        m
    }
}

} // verus!
