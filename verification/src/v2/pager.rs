//! The pager: pages of a file, a cache of them, and what transactions have written.

use vstd::prelude::*;

use crate::common::bytes::{copy_bytes, zero_vec};
use crate::common::error::{bare, result_view, DbError, DbResult, ErrorCode, ErrorView};
use crate::common::ordmap::{ascending, Duplicate, OrdMap};
use crate::common::ordset::{lemma_ascending_determined, sorted};
use crate::common::value::{IsolationLevel, TransactionId};
use crate::v2::page::{empty_page, encode_payload_page, MetaPage, PageId, PageKind, PAGE_SIZE};
use crate::v2::pager_model::{
    aborted, commit_records, count_for, covers, effective_count, first_pages, lemma_covers_exists,
    lemma_effective_count, meta_read, opened, pager_of, put_frames, put_page, put_pages, raw_page,
    restored, to_commit, wrote, zero_page, CommitView, PagerModel, WriteView,
};
use crate::v2::tx_types::{copy_image, image_view, TxnStatus};
use crate::v2::txn_laws::{lemma_follows_twice, lemma_released};
use crate::v2::txn_manager::TxnManager;
use crate::v2::txn_model::{numbers_used, TxnModel};
use crate::v2::wait_graph::waits_of;
use crate::v2::wal::{log_bytes, recover_frames, write_commit, write_frame, LogRecord, WalFrame};

verus! {

/// The bytes of a page.
#[derive(Debug)]
pub struct PageImage {
    pub bytes: Vec<u8>,
}

impl DeepView for PageImage {
    type V = Seq<u8>;

    open spec fn deep_view(&self) -> Seq<u8> {
        self.bytes@
    }
}

impl PageImage {
    /// Copies a page.
    pub fn copy(&self) -> (r: PageImage)
        ensures
            r.deep_view() == self.deep_view(),
    {
        PageImage { bytes: copy_bytes(&self.bytes) }
    }
}

impl Duplicate for PageImage {
    fn duplicate(&self) -> (r: PageImage) {
        self.copy()
    }
}

struct PageWrite {
    before_image: Option<Vec<u8>>,
    after_image: Vec<u8>,
}

impl DeepView for PageWrite {
    type V = WriteView;

    closed spec fn deep_view(&self) -> WriteView {
        WriteView {
            before_image: image_view(self.before_image),
            after_image: self.after_image@,
        }
    }
}

impl Duplicate for PageWrite {
    fn duplicate(&self) -> (r: PageWrite) {
        PageWrite {
            before_image: copy_image(&self.before_image),
            after_image: copy_bytes(&self.after_image),
        }
    }
}

/// A page that a transaction wrote, before and after.
#[derive(Debug)]
pub struct PageWriteSnapshot {
    pub page_id: PageId,
    pub before_image: Option<Vec<u8>>,
    pub after_image: Vec<u8>,
}

/// What a commit has to write to the file: first the log, then the pages, after which the log
/// can be emptied.
#[derive(Debug)]
pub struct CommitPlan {
    pub log: Vec<u8>,
    pub pages: Vec<(PageId, Vec<u8>)>,
}

impl View for CommitPlan {
    type V = CommitView;

    open spec fn view(&self) -> CommitView {
        CommitView {
            log: self.log@,
            ids: Seq::new(self.pages@.len(), |i: int| self.pages@[i].0),
            pages: Map::new(
                |p: PageId| exists|i: int| 0 <= i < self.pages@.len() && self.pages@[i].0 == p,
                |p: PageId|
                    self.pages@[choose|i: int|
                        0 <= i < self.pages@.len() && self.pages@[i].0 == p].1@,
            ),
        }
    }
}

/// Pages of a file, a cache of them, what transactions have written, and the transactions.
pub struct Pager {
    disk: Vec<PageImage>,
    meta: MetaPage,
    committed_page_count: u32,
    page_cache: OrdMap<PageId, PageImage>,
    txn_page_states: OrdMap<u64, OrdMap<PageId, PageWrite>>,
    pub(crate) txns: TxnManager,
}

impl View for Pager {
    type V = PagerModel;

    closed spec fn view(&self) -> PagerModel {
        PagerModel {
            disk: self.disk.deep_view(),
            meta: self.meta,
            committed_page_count: self.committed_page_count,
            page_cache: self.page_cache@,
            txn_page_states: self.txn_page_states@,
            txns: self.txns@,
        }
    }
}

impl Pager {
    /// Copies the pages and what transactions have written.
    pub fn copy(&self) -> (r: Pager)
        ensures
            r@ == self@,
    {
        let r = Pager {
            disk: self.disk.duplicate(),
            meta: self.meta,
            committed_page_count: self.committed_page_count,
            page_cache: self.page_cache.duplicate(),
            txn_page_states: self.txn_page_states.duplicate(),
            txns: self.txns.copy(),
        };
        assert(r@ =~= self@);
        r
    }
}

/// Whether a result and what it leaves behind are what the model says.
pub open spec fn stepped<T, U>(
    r: DbResult<T>,
    value: spec_fn(T) -> U,
    after: PagerModel,
    model: (PagerModel, Result<U, ErrorView>),
) -> bool {
    &&& after == model.0
    &&& match r {
        Ok(v) => model.1 == Ok::<U, ErrorView>(value(v)),
        Err(e) => model.1 == Err::<U, ErrorView>(e@),
    }
}

/// The same for a result whose value is its own model.
pub open spec fn step<T>(
    r: DbResult<T>,
    after: PagerModel,
    model: (PagerModel, Result<T, ErrorView>),
) -> bool {
    &&& after == model.0
    &&& match r {
        Ok(v) => model.1 == Ok::<T, ErrorView>(v),
        Err(e) => model.1 == Err::<T, ErrorView>(e@),
    }
}

/// The waits are still in step where only the states of transactions change, and no transaction
/// that waits ends.
pub proof fn lemma_waits_kept(before: TxnModel, after: TxnModel)
    requires
        before.waits_in_step(),
        before.waiters_active(),
        numbers_used(before),
        after.follows(before),
        after.waits_for == before.waits_for,
        after.table_wait_blockers == before.table_wait_blockers,
        after.page_wait_blockers == before.page_wait_blockers,
        after.predicate_wait_blockers == before.predicate_wait_blockers,
        forall|t: TransactionId|
            before.is_active(t) && waits_of(before.waits_for, t) != Set::<TransactionId>::empty()
                ==> #[trigger] after.is_active(t),
    ensures
        after.waits_in_step(),
        after.waiters_active(),
        numbers_used(after),
{
    assert forall|t: TransactionId| #[trigger]
        waits_of(after.waits_for, t) == after.all_blockers(t) by {
        assert(waits_of(before.waits_for, t) == before.all_blockers(t));
    }
    assert forall|t: TransactionId| #[trigger]
        waits_of(after.waits_for, t) != Set::<TransactionId>::empty() implies after.is_active(t) by {
        assert(waits_of(before.waits_for, t) != Set::<TransactionId>::empty());
        assert(before.is_active(t));
    }
}

/// The waits are still in step once a transaction has begun.
pub proof fn lemma_begun_waits(before: TxnModel, txn: TransactionId, level: IsolationLevel)
    requires
        before.waits_in_step(),
        before.waiters_active(),
    ensures
        before.begun(txn, level).waits_in_step(),
        before.begun(txn, level).waiters_active(),
{
    let after = before.begun(txn, level);
    assert forall|t: TransactionId| #[trigger]
        waits_of(after.waits_for, t) == after.all_blockers(t) by {
        assert(waits_of(before.waits_for, t) == before.all_blockers(t));
        assert(waits_of(after.waits_for, t) =~= waits_of(before.waits_for, t));
        assert(waits_of(after.table_wait_blockers, t) =~= waits_of(before.table_wait_blockers, t));
        assert(waits_of(after.page_wait_blockers, t) =~= waits_of(before.page_wait_blockers, t));
        assert(waits_of(after.predicate_wait_blockers, t) =~= waits_of(
            before.predicate_wait_blockers,
            t,
        ));
        assert(after.all_blockers(t) =~= before.all_blockers(t));
    }
    assert forall|t: TransactionId| #[trigger]
        waits_of(after.waits_for, t) != Set::<TransactionId>::empty() implies after.is_active(t) by {
        assert(waits_of(after.waits_for, t) =~= waits_of(before.waits_for, t));
    }
}

/// The waits of a new manager are in step.
pub proof fn lemma_initial_waits(next: u64)
    ensures
        TxnModel::initial(next).waits_in_step(),
        TxnModel::initial(next).waiters_active(),
        numbers_used(TxnModel::initial(next)),
{
    let m = TxnModel::initial(next);
    assert forall|t: TransactionId| #[trigger] waits_of(m.waits_for, t) == m.all_blockers(t) by {
        assert(m.all_blockers(t) =~= Set::empty());
    }
}

fn store_page(disk: &mut Vec<PageImage>, id: PageId, bytes: Vec<u8>)
    ensures
        final(disk).deep_view() == put_page(old(disk).deep_view(), id, bytes@),
{
    let ghost start = disk.deep_view();
    let at: usize = id.0 as usize;
    if at < disk.len() {
        disk.set(at, PageImage { bytes });
        assert(disk.deep_view() =~= put_page(start, id, bytes@));
        return;
    }
    while disk.len() < at
        invariant
            start.len() <= disk@.len() <= at,
            disk.deep_view().len() == disk@.len(),
            forall|i: int|
                0 <= i < disk@.len() ==> #[trigger] disk.deep_view()[i] == if i < start.len() {
                    start[i]
                } else {
                    zero_page()
                },
        decreases at - disk@.len(),
    {
        let ghost before = disk.deep_view();
        let zeros = PageImage { bytes: zero_vec(PAGE_SIZE) };
        disk.push(zeros);
        assert(disk.deep_view() =~= before.push(zero_page()));
    }
    let ghost before = disk.deep_view();
    let image = PageImage { bytes };
    disk.push(image);
    assert(disk.deep_view() =~= before.push(bytes@));
    assert(disk.deep_view() =~= put_page(start, id, bytes@));
}

fn load_page(disk: &Vec<PageImage>, id: PageId) -> (r: DbResult<Vec<u8>>)
    ensures
        result_view(r) == raw_page(disk.deep_view(), id),
{
    let at: usize = id.0 as usize;
    if at < disk.len() {
        assert(disk.deep_view()[at as int] == disk@[at as int].bytes@);
        Ok(copy_bytes(&disk[at].bytes))
    } else {
        Err(DbError::bare(ErrorCode::ShortFile))
    }
}

fn replay_frames(disk: &mut Vec<PageImage>, frames: &Vec<WalFrame>)
    ensures
        final(disk).deep_view() == put_frames(old(disk).deep_view(), frames.deep_view(), 0),
{
    let mut i: usize = 0;
    while i < frames.len()
        invariant
            i <= frames@.len(),
            put_frames(disk.deep_view(), frames.deep_view(), i as int) == put_frames(
                old(disk).deep_view(),
                frames.deep_view(),
                0,
            ),
        decreases frames@.len() - i,
    {
        assert(frames.deep_view()[i as int] == frames@[i as int].deep_view());
        store_page(disk, frames[i].page_id, copy_bytes(&frames[i].page_bytes));
        i = i + 1;
    }
}

/// The model of optional bytes.
pub open spec fn bytes_view(v: Option<Vec<u8>>) -> Option<Seq<u8>> {
    match v {
        Some(b) => Some(b@),
        None => None,
    }
}

/// The model of the pages of a file.
pub open spec fn file_view(v: Option<Vec<PageImage>>) -> Option<Seq<Seq<u8>>> {
    match v {
        Some(pages) => Some(pages.deep_view()),
        None => None,
    }
}

fn read_meta(page: &Vec<u8>) -> (r: DbResult<MetaPage>)
    ensures
        match r {
            Ok(meta) => meta_read(page@) == Ok::<MetaPage, ErrorView>(meta),
            Err(e) => meta_read(page@) == Err::<MetaPage, ErrorView>(e@),
        },
{
    MetaPage::decode(page.as_slice())
}

fn first_file() -> (r: Vec<PageImage>)
    ensures
        r.deep_view() == first_pages(),
{
    let meta = MetaPage {
        page_size: PAGE_SIZE as u32,
        page_count: 2,
        catalog_page_id: PageId(1),
        next_txn_id: 1,
    };
    let mut pages: Vec<PageImage> = Vec::new();
    let first = PageImage { bytes: meta.encode() };
    pages.push(first);
    let nothing: Vec<u8> = Vec::new();
    match encode_payload_page(PageKind::Catalog, nothing.as_slice()) {
        Ok(page) => {
            let second = PageImage { bytes: page };
            pages.push(second);
            assert(nothing@ =~= Seq::empty());
            assert(pages.deep_view() =~= first_pages());
        },
        Err(_) => {},
    }
    pages
}

impl Pager {
    /// Opens a file, given its pages where it exists, the log beside it where there is one,
    /// and the pages that the process has cached of it.
    pub fn open(
        file: Option<Vec<PageImage>>,
        log: Option<Vec<u8>>,
        cache: OrdMap<PageId, PageImage>,
    ) -> (r: DbResult<Pager>)
        ensures
            result_view(r) == opened(file_view(file), bytes_view(log), cache@),
            r matches Ok(p) ==> p@.sound(),
    {
        let ghost given = file_view(file);
        let (disk, meta): (Vec<PageImage>, MetaPage) = match file {
            None => (
                first_file(),
                MetaPage {
                    page_size: PAGE_SIZE as u32,
                    page_count: 2,
                    catalog_page_id: PageId(1),
                    next_txn_id: 1,
                },
            ),
            Some(pages) => {
                let mut disk = pages;
                match log {
                    Some(bytes) => {
                        let frames = recover_frames(bytes.as_slice())?;
                        replay_frames(&mut disk, &frames);
                    },
                    None => {},
                }
                let page = load_page(&disk, PageId(0))?;
                let meta = read_meta(&page)?;
                (disk, meta)
            },
        };
        let r = Pager {
            disk,
            meta,
            committed_page_count: meta.page_count,
            page_cache: cache,
            txn_page_states: OrdMap::new(),
            txns: TxnManager::with_next_txn_id(meta.next_txn_id),
        };
        proof {
            lemma_initial_waits(meta.next_txn_id);
            assert(r@ =~= pager_of(disk.deep_view(), meta, cache@));
        }
        Ok(r)
    }

    /// The meta page.
    pub fn meta(&self) -> (r: DbResult<MetaPage>)
        ensures
            r == Ok::<MetaPage, DbError>(self@.meta),
    {
        Ok(self.meta)
    }

    /// The transactions.
    pub fn transactions(&self) -> (r: &TxnManager)
        ensures
            r@ == self@.txns,
    {
        &self.txns
    }

    /// The transactions, for changing them.
    pub(crate) fn txns_mut(&mut self) -> (r: &mut TxnManager)
        ensures
            r@ == old(self)@.txns,
            final(self)@ == old(self)@.with_txns(final(r)@),
    {
        &mut self.txns
    }

    /// Copies the pages of the file.
    pub fn file_pages(&self) -> (r: Vec<PageImage>)
        ensures
            r.deep_view() == self@.disk,
    {
        let mut out: Vec<PageImage> = Vec::new();
        let mut i: usize = 0;
        while i < self.disk.len()
            invariant
                i <= self.disk@.len(),
                out.deep_view() =~= self.disk.deep_view().take(i as int),
            decreases self.disk@.len() - i,
        {
            let ghost before = out.deep_view();
            out.push(self.disk[i].copy());
            assert(out.deep_view() =~= before.push(self.disk.deep_view()[i as int]));
            i = i + 1;
        }
        out
    }

    /// Copies the pages that another pager over the same file has to know of: those that
    /// were written and are not yet in the file.
    pub fn shared_pages(&self) -> (r: OrdMap<PageId, PageImage>)
        ensures
            r@ == self@.page_cache,
    {
        self.page_cache.duplicate()
    }

    /// Begins a transaction, and hands out its number.
    pub fn begin(&mut self) -> (r: DbResult<u64>)
        requires
            old(self)@.sound(),
        ensures
            step(r, final(self)@, old(self)@.begun(IsolationLevel::ReadCommitted)),
            final(self)@.sound(),
            final(self)@.txns.follows(old(self)@.txns),
    {
        self.begin_with_isolation(IsolationLevel::ReadCommitted)
    }

    /// Begins a transaction with an isolation level, and hands out its number.
    pub fn begin_with_isolation(&mut self, isolation_level: IsolationLevel) -> (r: DbResult<u64>)
        requires
            old(self)@.sound(),
        ensures
            step(r, final(self)@, old(self)@.begun(isolation_level)),
            final(self)@.sound(),
            final(self)@.txns.follows(old(self)@.txns),
    {
        let ghost start = self@;
        if self.txns.next_id() == u64::MAX {
            return Err(DbError::bare(ErrorCode::TxnNumbersUsedUp));
        }
        let id = self.txns.begin(isolation_level);
        proof {
            let counted = TxnModel { next_txn_id: (id.0 + 1) as u64, ..start.txns };
            lemma_waits_kept(start.txns, counted);
            lemma_begun_waits(counted, id, isolation_level);
            assert(self@ =~= start.with_txns(counted.begun(id, isolation_level)));
        }
        match self.begin_with_txn_id(id.0) {
            Ok(_) => Ok(id.0),
            Err(e) => {
                let ghost middle = self@;
                let _ = self.txns.abort(id);
                proof {
                    assert(!start.txns.txns.dom().contains(id));
                    assert(waits_of(middle.txns.waits_for, id) =~= Set::empty()) by {
                        assert(waits_of(start.txns.waits_for, id) == Set::<TransactionId>::empty());
                    }
                    lemma_waits_kept(middle.txns, self@.txns);
                    lemma_follows_twice(start.txns, middle.txns, self@.txns);
                    assert(self@ =~= middle.with_txns(aborted(middle.txns, id.0)));
                }
                Err(e)
            },
        }
    }

    /// Begins a transaction that has a number already.
    pub fn begin_with_txn_id(&mut self, txn_id: u64) -> (r: DbResult<()>)
        requires
            old(self)@.sound(),
        ensures
            step(r, final(self)@, old(self)@.begun_with(txn_id)),
            final(self)@.sound(),
            final(self)@.txns.follows(old(self)@.txns),
    {
        let ghost start = self@;
        if self.txn_page_states.contains_key(&txn_id) {
            return Err(DbError::bare(ErrorCode::TxnAlreadyActive(txn_id)));
        }
        let after: u64 = if txn_id < u64::MAX {
            txn_id + 1
        } else {
            u64::MAX
        };
        if self.meta.next_txn_id < after {
            self.meta.next_txn_id = after;
        }
        self.txn_page_states.insert(txn_id, OrdMap::new());
        proof {
            assert(self@ =~= start.begun_with(txn_id).0);
            assert forall|t: u64, p: PageId| #[trigger]
                wrote(self@.txn_page_states, t, p) implies self@.txn_page_states[t][p].after_image.len()
                == PAGE_SIZE by {
                assert(wrote(start.txn_page_states, t, p));
            }
        }
        Ok(())
    }

    fn validate_transaction(&self, txn_id: u64) -> (r: DbResult<()>)
        ensures
            match r {
                Ok(_) => self@.knows(txn_id),
                Err(e) => !self@.knows(txn_id) && e@ == bare(ErrorCode::TxnNotActive(txn_id)),
            },
    {
        if self.txn_page_states.contains_key(&txn_id) {
            Ok(())
        } else {
            Err(DbError::bare(ErrorCode::TxnNotActive(txn_id)))
        }
    }

    /// A page as the cache or the file has it.
    pub fn read_page(&self, page_id: PageId) -> (r: DbResult<Vec<u8>>)
        ensures
            result_view(r) == self@.read(page_id),
    {
        match self.page_cache.get(&page_id) {
            Some(page) => Ok(copy_bytes(&page.bytes)),
            None => {
                if page_id.0 >= self.committed_page_count {
                    return Err(
                        DbError::bare(
                            ErrorCode::PageOutOfBounds {
                                page: page_id.0,
                                count: self.committed_page_count,
                            },
                        ),
                    );
                }
                load_page(&self.disk, page_id)
            },
        }
    }

    fn current_before_image(&self, page_id: PageId) -> (r: DbResult<Option<Vec<u8>>>)
        ensures
            match r {
                Ok(image) => self@.current(page_id) == Ok::<Option<Seq<u8>>, ErrorView>(
                    image_view(image),
                ),
                Err(e) => self@.current(page_id) == Err::<Option<Seq<u8>>, ErrorView>(e@),
            },
    {
        match self.page_cache.get(&page_id) {
            Some(page) => Ok(Some(copy_bytes(&page.bytes))),
            None => {
                if page_id.0 < self.committed_page_count {
                    Ok(Some(load_page(&self.disk, page_id)?))
                } else {
                    Ok(None)
                }
            },
        }
    }

    fn effective_page_count(&self, committed_page_count: u32) -> (r: u32)
        ensures
            r == effective_count(self@.txn_page_states, committed_page_count),
    {
        page_count_with(&self.txn_page_states, committed_page_count)
    }

    fn restore_pages(&mut self, writes: &OrdMap<PageId, PageWrite>)
        ensures
            final(self)@ == (PagerModel {
                page_cache: restored(old(self)@.page_cache, writes@),
                ..old(self)@
            }),
    {
        let total: usize = writes.len();
        let ghost keys = writes.keys();
        let ghost start = self@;
        let mut left: usize = total;
        while left > 0
            invariant
                left <= total,
                total == keys.len(),
                keys == writes.keys(),
                forall|k: PageId| #[trigger] writes@.dom().contains(k) <==> keys.contains(k),
                self@ == (PagerModel { page_cache: self@.page_cache, ..start }),
                forall|p: PageId|
                    #![trigger self@.page_cache.dom().contains(p)]
                    self@.page_cache.dom().contains(p) == if keys.skip(left as int).contains(p) {
                        writes@[p].before_image is Some
                    } else {
                        start.page_cache.dom().contains(p)
                    },
                forall|p: PageId| #[trigger]
                    self@.page_cache.dom().contains(p) ==> self@.page_cache[p] == if keys.skip(
                        left as int,
                    ).contains(p) {
                        writes@[p].before_image->Some_0
                    } else {
                        start.page_cache[p]
                    },
            decreases left,
        {
            let ghost before = self@;
            left = left - 1;
            let page_id: PageId = *writes.key_at(left);
            let write: &PageWrite = writes.value_at(left);
            match &write.before_image {
                Some(image) => {
                    self.page_cache.insert(page_id, PageImage { bytes: copy_bytes(image) });
                },
                None => {
                    self.page_cache.remove(&page_id);
                },
            }
            proof {
                assert(keys[left as int] == page_id);
                lemma_skip_contains(keys, left as int);
            }
        }
        proof {
            assert(keys.skip(0) =~= keys);
            assert(self@.page_cache =~= restored(start.page_cache, writes@));
        }
    }

    fn forget(&mut self, txn_id: u64)
        requires
            old(self)@.sound(),
        ensures
            final(self)@ == old(self)@.forgotten(txn_id),
            final(self)@.sound(),
            final(self)@.txns.follows(old(self)@.txns),
    {
        let ghost start = self@;
        let taken = self.txn_page_states.remove(&txn_id);
        match &taken {
            Some(writes) => {
                self.restore_pages(writes);
            },
            None => {},
        }
        self.meta.page_count = self.effective_page_count(self.committed_page_count);
        proof {
            assert(self@ =~= start.forgotten(txn_id));
            lemma_fewer_states(start, self@);
        }
    }

    /// Forgets what a transaction that was aborted has written.
    pub fn cleanup_aborted_transaction_state(&mut self, txn_id: u64)
        requires
            old(self)@.sound(),
        ensures
            final(self)@ == old(self)@.cleaned(txn_id),
            final(self)@.sound(),
            final(self)@.txns.follows(old(self)@.txns),
    {
        match self.txns.status(TransactionId(txn_id)) {
            Ok(status) => {
                if status == TxnStatus::Aborted {
                    self.forget(txn_id);
                }
            },
            Err(_) => {},
        }
    }

    fn lock_page(&mut self, txn_id: u64, page_id: PageId) -> (r: DbResult<()>)
        requires
            old(self)@.sound(),
        ensures
            step(r, final(self)@, old(self)@.locked(txn_id, page_id)),
            final(self)@.sound(),
            final(self)@.txns.follows(old(self)@.txns),
    {
        let ghost start = self@;
        if !self.txns.has_epoch_room() {
            return Err(DbError::bare(ErrorCode::LockEpochsUsedUp));
        }
        assert(start.txns.epoch_has_room(TransactionId(txn_id)));
        let result = self.txns.acquire_page_write(TransactionId(txn_id), page_id);
        let ghost middle = self@;
        assert(middle =~= start.with_txns(middle.txns));
        assert(middle.sound());
        match result {
            Ok(_) => Ok(()),
            Err(e) => {
                self.cleanup_aborted_transaction_state(txn_id);
                Err(e)
            },
        }
    }

    /// Asks for the right to write a page. Where the transaction must wait, it is told so.
    pub fn acquire_page_write_lock(&mut self, txn_id: u64, page_id: PageId) -> (r: DbResult<()>)
        requires
            old(self)@.sound(),
        ensures
            step(r, final(self)@, old(self)@.lock_asked(txn_id, page_id)),
            final(self)@.sound(),
            final(self)@.txns.follows(old(self)@.txns),
    {
        self.validate_transaction(txn_id)?;
        self.lock_page(txn_id, page_id)
    }

    fn note_write(&mut self, txn_id: u64, page_id: PageId, write: PageWrite)
        requires
            old(self)@.sound(),
            old(self)@.knows(txn_id),
            write.deep_view().after_image.len() == PAGE_SIZE,
        ensures
            final(self)@ == old(self)@.noted(txn_id, page_id, write.deep_view()),
            final(self)@.sound(),
            final(self)@.txns.follows(old(self)@.txns),
    {
        let ghost start = self@;
        let ghost view = write.deep_view();
        let image = PageImage { bytes: copy_bytes(&write.after_image) };
        match self.txn_page_states.get_mut(&txn_id) {
            Some(writes) => {
                writes.insert(page_id, write);
            },
            None => {},
        }
        self.page_cache.insert(page_id, image);
        proof {
            assert(self@ =~= start.noted(txn_id, page_id, view));
            assert forall|t: u64, p: PageId| #[trigger]
                wrote(self@.txn_page_states, t, p) implies self@.txn_page_states[t][p].after_image.len()
                == PAGE_SIZE by {
                if t != txn_id || p != page_id {
                    assert(wrote(start.txn_page_states, t, p));
                }
            }
        }
    }

    fn first_image(&self, txn_id: u64, page_id: PageId) -> (r: DbResult<Option<Vec<u8>>>)
        requires
            self@.knows(txn_id),
        ensures
            match r {
                Ok(image) => (if self@.txn_page_states[txn_id].dom().contains(page_id) {
                    Ok(self@.txn_page_states[txn_id][page_id].before_image)
                } else {
                    self@.current(page_id)
                }) == Ok::<Option<Seq<u8>>, ErrorView>(image_view(image)),
                Err(e) => !self@.txn_page_states[txn_id].dom().contains(page_id) && self@.current(
                    page_id,
                ) == Err::<Option<Seq<u8>>, ErrorView>(e@),
            },
    {
        match self.txn_page_states.get(&txn_id) {
            Some(writes) => match writes.get(&page_id) {
                Some(write) => Ok(copy_image(&write.before_image)),
                None => self.current_before_image(page_id),
            },
            None => self.current_before_image(page_id),
        }
    }

    /// Writes a page for a transaction.
    pub fn write_page(&mut self, txn_id: u64, page_id: PageId, page: Vec<u8>) -> (r: DbResult<()>)
        requires
            old(self)@.sound(),
        ensures
            step(r, final(self)@, old(self)@.written(txn_id, page_id, page@)),
            final(self)@.sound(),
            final(self)@.txns.follows(old(self)@.txns),
    {
        self.validate_transaction(txn_id)?;
        if page.len() != PAGE_SIZE {
            return Err(DbError::bare(ErrorCode::PageWriteSize));
        }
        if page_id.0 >= self.meta.page_count {
            return Err(
                DbError::bare(
                    ErrorCode::PageOutOfBounds { page: page_id.0, count: self.meta.page_count },
                ),
            );
        }
        self.lock_page(txn_id, page_id)?;
        let before_image = self.first_image(txn_id, page_id)?;
        self.note_write(txn_id, page_id, PageWrite { before_image, after_image: page });
        Ok(())
    }

    /// Gets a new leaf page for a transaction.
    pub fn allocate_page(&mut self, txn_id: u64) -> (r: DbResult<PageId>)
        requires
            old(self)@.sound(),
        ensures
            step(r, final(self)@, old(self)@.allocated(txn_id, PageKind::Leaf)),
            final(self)@.sound(),
            final(self)@.txns.follows(old(self)@.txns),
    {
        self.allocate_page_with_kind(txn_id, PageKind::Leaf)
    }

    /// Gets a new leaf page for a transaction.
    pub fn allocate_leaf_page(&mut self, txn_id: u64) -> (r: DbResult<PageId>)
        requires
            old(self)@.sound(),
        ensures
            step(r, final(self)@, old(self)@.allocated(txn_id, PageKind::Leaf)),
            final(self)@.sound(),
            final(self)@.txns.follows(old(self)@.txns),
    {
        self.allocate_page_with_kind(txn_id, PageKind::Leaf)
    }

    /// Gets a new internal page for a transaction.
    pub fn allocate_internal_page(&mut self, txn_id: u64) -> (r: DbResult<PageId>)
        requires
            old(self)@.sound(),
        ensures
            step(r, final(self)@, old(self)@.allocated(txn_id, PageKind::Internal)),
            final(self)@.sound(),
            final(self)@.txns.follows(old(self)@.txns),
    {
        self.allocate_page_with_kind(txn_id, PageKind::Internal)
    }

    fn allocate_page_with_kind(&mut self, txn_id: u64, kind: PageKind) -> (r: DbResult<PageId>)
        requires
            old(self)@.sound(),
        ensures
            step(r, final(self)@, old(self)@.allocated(txn_id, kind)),
            final(self)@.sound(),
            final(self)@.txns.follows(old(self)@.txns),
    {
        let ghost start = self@;
        self.validate_transaction(txn_id)?;
        if self.meta.page_count == u32::MAX {
            return Err(DbError::bare(ErrorCode::DatabaseFull));
        }
        let page_id = PageId(self.meta.page_count);
        self.meta.page_count = self.meta.page_count + 1;
        assert(self@ =~= PagerModel {
            meta: MetaPage { page_count: (start.meta.page_count + 1) as u32, ..start.meta },
            ..start
        });
        assert(self@.sound());
        match self.lock_page(txn_id, page_id) {
            Err(e) => {
                let ghost after = self@;
                if self.meta.page_count > 0 {
                    self.meta.page_count = self.meta.page_count - 1;
                }
                assert(self@ =~= start.allocated(txn_id, kind).0);
                Err(e)
            },
            Ok(_) => {
                self.note_write(
                    txn_id,
                    page_id,
                    PageWrite { before_image: None, after_image: empty_page(kind) },
                );
                Ok(page_id)
            },
        }
    }

    /// The pages that a transaction has written so far, in ascending order.
    pub fn pending_page_writes(&self, txn_id: u64) -> (r: DbResult<Vec<PageWriteSnapshot>>)
        ensures
            match r {
                Ok(writes) => {
                    &&& self@.knows(txn_id)
                    &&& pending(self@.txn_page_states[txn_id], writes@)
                },
                Err(e) => !self@.knows(txn_id) && e@ == bare(ErrorCode::TxnNotActive(txn_id)),
            },
    {
        match self.txn_page_states.get(&txn_id) {
            None => Err(DbError::bare(ErrorCode::TxnNotActive(txn_id))),
            Some(writes) => {
                let total: usize = writes.len();
                let ghost keys = writes.keys();
                let mut out: Vec<PageWriteSnapshot> = Vec::new();
                let mut i: usize = 0;
                while i < total
                    invariant
                        i <= total,
                        total == keys.len(),
                        keys == writes.keys(),
                        out@.len() == i,
                        forall|k: int| 0 <= k < i ==> (#[trigger] out@[k]).page_id == keys[k],
                        forall|k: int|
                            0 <= k < i ==> is_snapshot(#[trigger] out@[k], writes@[keys[k]]),
                    decreases total - i,
                {
                    let write: &PageWrite = writes.value_at(i);
                    out.push(
                        PageWriteSnapshot {
                            page_id: *writes.key_at(i),
                            before_image: copy_image(&write.before_image),
                            after_image: copy_bytes(&write.after_image),
                        },
                    );
                    i = i + 1;
                }
                proof {
                    let ids = Seq::new(out@.len(), |k: int| out@[k].page_id);
                    assert(ids =~= keys);
                    assert(keys.to_set() =~= writes@.dom());
                }
                Ok(out)
            },
        }
    }

    /// Commits a transaction: its pages become those of the file. Says what has to be written
    /// to the file for that.
    pub fn commit(&mut self, txn_id: u64) -> (r: DbResult<CommitPlan>)
        requires
            old(self)@.sound(),
        ensures
            stepped(r, |p: CommitPlan| p@, final(self)@, old(self)@.committed(txn_id)),
            final(self)@.sound(),
            final(self)@.txns.follows(old(self)@.txns),
    {
        let ghost start = self@;
        if self.txns.current_lock_wait_epoch() == u64::MAX {
            return Err(DbError::bare(ErrorCode::LockEpochsUsedUp));
        }
        let writes = match self.txn_page_states.remove(&txn_id) {
            None => {
                assert(self@ =~= start);
                return Err(DbError::bare(ErrorCode::TxnNotActive(txn_id)));
            },
            Some(writes) => writes,
        };
        let count: u32 = written_count(&writes, self.committed_page_count, txn_id);
        let committed_meta = MetaPage { page_count: count, ..self.meta };
        proof {
            assert(committed_meta == start.meta_to_commit(txn_id));
            assert forall|p: PageId| #[trigger] writes@.dom().contains(p) implies writes@[p].after_image.len()
                == PAGE_SIZE by {
                assert(wrote(start.txn_page_states, txn_id, p));
            }
        }
        let pages = pages_to_commit(&writes, &committed_meta);
        let plan = plan_commit(txn_id, &pages);
        self.publish(&pages);
        self.committed_page_count = count;
        self.meta.page_count = self.effective_page_count(count);
        proof {
            assert(plan@ == start.commit_plan(txn_id));
            assert(self@ =~= start.published(txn_id));
            lemma_fewer_states(start, self@);
            lemma_released(self@.txns, TransactionId(txn_id));
        }
        let ghost middle = self@;
        self.txns.release_transaction_resources(TransactionId(txn_id))?;
        assert(self@ =~= middle.let_go(txn_id).0);
        Ok(plan)
    }

    fn publish(&mut self, pages: &OrdMap<PageId, PageImage>)
        ensures
            final(self)@ == (PagerModel {
                disk: put_pages(old(self)@.disk, pages.keys(), pages@, 0),
                page_cache: old(self)@.page_cache.union_prefer_right(pages@),
                ..old(self)@
            }),
    {
        let ghost start = self@;
        let total: usize = pages.len();
        let ghost keys = pages.keys();
        let mut i: usize = 0;
        while i < total
            invariant
                i <= total,
                total == keys.len(),
                keys == pages.keys(),
                forall|k: PageId| #[trigger] pages@.dom().contains(k) <==> keys.contains(k),
                put_pages(self@.disk, keys, pages@, i as int) == put_pages(
                    start.disk,
                    keys,
                    pages@,
                    0,
                ),
                self@ == (PagerModel {
                    disk: self@.disk,
                    page_cache: self@.page_cache,
                    ..start
                }),
                forall|p: PageId|
                    #![trigger self@.page_cache.dom().contains(p)]
                    self@.page_cache.dom().contains(p) <==> start.page_cache.dom().contains(p)
                        || keys.take(i as int).contains(p),
                forall|p: PageId| #[trigger]
                    self@.page_cache.dom().contains(p) ==> self@.page_cache[p] == if keys.take(
                        i as int,
                    ).contains(p) {
                        pages@[p]
                    } else {
                        start.page_cache[p]
                    },
            decreases total - i,
        {
            let id: PageId = *pages.key_at(i);
            let image: &PageImage = pages.value_at(i);
            let bytes = copy_bytes(&image.bytes);
            store_page(&mut self.disk, id, bytes);
            self.page_cache.insert(id, image.copy());
            proof {
                assert(keys[i as int] == id);
                lemma_take_contains(keys, i as int);
            }
            i = i + 1;
        }
        proof {
            assert(keys.take(i as int) =~= keys);
            assert(self@.page_cache =~= start.page_cache.union_prefer_right(pages@));
        }
    }

    /// Takes back what a transaction did.
    pub fn rollback(&mut self, txn_id: u64) -> (r: DbResult<()>)
        requires
            old(self)@.sound(),
        ensures
            step(r, final(self)@, old(self)@.rolled_back(txn_id)),
            final(self)@.sound(),
            final(self)@.txns.follows(old(self)@.txns),
    {
        if self.txns.current_lock_wait_epoch() == u64::MAX {
            return Err(DbError::bare(ErrorCode::LockEpochsUsedUp));
        }
        self.validate_transaction(txn_id)?;
        self.forget(txn_id);
        let ghost middle = self@;
        proof {
            lemma_released(middle.txns, TransactionId(txn_id));
        }
        self.txns.release_transaction_resources(TransactionId(txn_id))?;
        assert(self@ =~= middle.let_go(txn_id).0);
        Ok(())
    }
}

/// Whether a snapshot is that of a written page.
pub open spec fn is_snapshot(s: PageWriteSnapshot, w: WriteView) -> bool {
    image_view(s.before_image) == w.before_image && s.after_image@ == w.after_image
}

/// Whether snapshots are those of written pages, in ascending order.
pub open spec fn pending(writes: Map<PageId, WriteView>, list: Seq<PageWriteSnapshot>) -> bool {
    &&& Seq::new(list.len(), |i: int| list[i].page_id).to_set() == writes.dom()
    &&& ascending::<PageId>(Seq::new(list.len(), |i: int| list[i].page_id))
    &&& forall|i: int|
        0 <= i < list.len() ==> is_snapshot(#[trigger] list[i], writes[list[i].page_id])
}

proof fn lemma_skip_contains(keys: Seq<PageId>, i: int)
    requires
        0 <= i < keys.len(),
    ensures
        forall|p: PageId| #[trigger]
            keys.skip(i).contains(p) <==> p == keys[i] || keys.skip(i + 1).contains(p),
{
    let a = keys.skip(i);
    let b = keys.skip(i + 1);
    assert forall|p: PageId| #[trigger] a.contains(p) <==> p == keys[i] || b.contains(p) by {
        if a.contains(p) {
            let j = choose|j: int| 0 <= j < a.len() && a[j] == p;
            if j > 0 {
                assert(b[j - 1] == p);
            }
        }
        if p == keys[i] {
            assert(a[0] == p);
        }
        if b.contains(p) {
            let j = choose|j: int| 0 <= j < b.len() && b[j] == p;
            assert(a[j + 1] == p);
        }
    }
}

proof fn lemma_take_contains(keys: Seq<PageId>, i: int)
    requires
        0 <= i < keys.len(),
    ensures
        forall|p: PageId| #[trigger]
            keys.take(i + 1).contains(p) <==> p == keys[i] || keys.take(i).contains(p),
{
    let a = keys.take(i + 1);
    let b = keys.take(i);
    assert forall|p: PageId| #[trigger] a.contains(p) <==> p == keys[i] || b.contains(p) by {
        if a.contains(p) {
            let j = choose|j: int| 0 <= j < a.len() && a[j] == p;
            if j < i {
                assert(b[j] == p);
            }
        }
        if p == keys[i] {
            assert(a[i] == p);
        }
        if b.contains(p) {
            let j = choose|j: int| 0 <= j < b.len() && b[j] == p;
            assert(a[j] == p);
        }
    }
}

proof fn lemma_fewer_states(before: PagerModel, after: PagerModel)
    requires
        before.sound(),
        after.txns == before.txns,
        forall|t: u64, p: PageId| #[trigger]
            wrote(after.txn_page_states, t, p) ==> wrote(before.txn_page_states, t, p)
                && after.txn_page_states[t] == before.txn_page_states[t],
    ensures
        after.sound(),
{
    assert forall|t: u64, p: PageId| #[trigger] wrote(after.txn_page_states, t, p) implies
        after.txn_page_states[t][p].after_image.len() == PAGE_SIZE by {
        assert(wrote(before.txn_page_states, t, p));
    }
}

fn count_of(id: PageId) -> (r: u32)
    ensures
        r == count_for(id),
{
    if id.0 < u32::MAX {
        id.0 + 1
    } else {
        u32::MAX
    }
}

fn written_count(writes: &OrdMap<PageId, PageWrite>, committed: u32, txn_id: u64) -> (r: u32)
    ensures
        r == effective_count(
            Map::<u64, Map<PageId, WriteView>>::empty().insert(txn_id, writes@),
            committed,
        ),
{
    let ghost states = Map::<u64, Map<PageId, WriteView>>::empty().insert(txn_id, writes@);
    let total: usize = writes.len();
    let ghost keys = writes.keys();
    let mut count: u32 = committed;
    let mut i: usize = 0;
    while i < total
        invariant
            i <= total,
            total == keys.len(),
            keys == writes.keys(),
            states == Map::<u64, Map<PageId, WriteView>>::empty().insert(txn_id, writes@),
            forall|k: PageId| #[trigger] writes@.dom().contains(k) <==> keys.contains(k),
            committed <= count,
            forall|k: int| 0 <= k < i ==> count_for(#[trigger] keys[k]) <= count,
            count == committed || exists|t: u64, p: PageId| #[trigger]
                wrote(states, t, p) && count == count_for(p),
        decreases total - i,
    {
        let id: PageId = *writes.key_at(i);
        let needed: u32 = count_of(id);
        if needed > count {
            count = needed;
            assert(keys.contains(id));
            assert(wrote(states, txn_id, id));
        }
        i = i + 1;
    }
    proof {
        assert forall|t: u64, p: PageId| #[trigger] wrote(states, t, p) implies count_for(p)
            <= count by {
            assert(keys.contains(p));
            let k = choose|k: int| 0 <= k < keys.len() && keys[k] == p;
            assert(count_for(keys[k]) <= count);
        }
        lemma_effective_count(states, committed, count);
    }
    count
}

fn page_count_with(states: &OrdMap<u64, OrdMap<PageId, PageWrite>>, committed: u32) -> (r: u32)
    ensures
        r == effective_count(states@, committed),
{
    let total: usize = states.len();
    let ghost keys = states.keys();
    let mut count: u32 = committed;
    let mut i: usize = 0;
    while i < total
        invariant
            i <= total,
            total == keys.len(),
            keys == states.keys(),
            forall|k: u64| #[trigger] states@.dom().contains(k) <==> keys.contains(k),
            committed <= count,
            forall|k: int, p: PageId|
                0 <= k < i && #[trigger] wrote(states@, keys[k], p) ==> count_for(p) <= count,
            count == committed || exists|t: u64, p: PageId| #[trigger]
                wrote(states@, t, p) && count == count_for(p),
        decreases total - i,
    {
        let txn_id: u64 = *states.key_at(i);
        let writes: &OrdMap<PageId, PageWrite> = states.value_at(i);
        let ghost before = count;
        let ghost alone = Map::<u64, Map<PageId, WriteView>>::empty().insert(txn_id, writes@);
        count = written_count(writes, count, txn_id);
        proof {
            lemma_covers_exists(alone, before);
            assert(covers(alone, before, count));
            assert forall|p: PageId| #[trigger] wrote(states@, keys[i as int], p) implies count_for(p)
                <= count by {
                assert(wrote(alone, txn_id, p));
            }
            if count != before {
                let (t, p) = choose|t: u64, p: PageId| #[trigger]
                    wrote(alone, t, p) && count == count_for(p);
                assert(wrote(states@, txn_id, p));
            }
        }
        i = i + 1;
    }
    proof {
        assert forall|t: u64, p: PageId| #[trigger] wrote(states@, t, p) implies count_for(p)
            <= count by {
            assert(keys.contains(t));
            let k = choose|k: int| 0 <= k < keys.len() && keys[k] == t;
            assert(wrote(states@, keys[k], p));
        }
        lemma_effective_count(states@, committed, count);
    }
    count
}

fn pages_to_commit(writes: &OrdMap<PageId, PageWrite>, meta: &MetaPage) -> (r: OrdMap<
    PageId,
    PageImage,
>)
    requires
        forall|p: PageId| #[trigger]
            writes@.dom().contains(p) ==> writes@[p].after_image.len() == PAGE_SIZE,
    ensures
        r@ == to_commit(writes@, *meta),
        r.keys() == sorted::<PageId>(r@.dom()),
        forall|p: PageId| #[trigger] r@.dom().contains(p) ==> r@[p].len() == PAGE_SIZE,
{
    let total: usize = writes.len();
    let ghost keys = writes.keys();
    let mut pages: OrdMap<PageId, PageImage> = OrdMap::new();
    let mut i: usize = 0;
    while i < total
        invariant
            i <= total,
            total == keys.len(),
            keys == writes.keys(),
            forall|k: PageId| #[trigger] writes@.dom().contains(k) <==> keys.contains(k),
            forall|p: PageId|
                #![trigger pages@.dom().contains(p)]
                pages@.dom().contains(p) <==> keys.take(i as int).contains(p),
            forall|p: PageId| #[trigger]
                pages@.dom().contains(p) ==> pages@[p] == writes@[p].after_image,
        decreases total - i,
    {
        let id: PageId = *writes.key_at(i);
        let write: &PageWrite = writes.value_at(i);
        pages.insert(id, PageImage { bytes: copy_bytes(&write.after_image) });
        proof {
            assert(keys[i as int] == id);
            lemma_take_contains(keys, i as int);
        }
        i = i + 1;
    }
    pages.insert(PageId(0), PageImage { bytes: meta.encode() });
    let _count: usize = pages.len();
    proof {
        assert(keys.take(i as int) =~= keys);
        assert(pages@ =~= to_commit(writes@, *meta));
        assert(pages.keys().to_set() =~= pages@.dom());
        assert(ascending::<PageId>(pages.keys()));
        let s = sorted::<PageId>(pages@.dom());
        assert(ascending::<PageId>(s) && s.to_set() == pages@.dom());
        lemma_ascending_determined::<PageId>(pages.keys(), s);
    }
    pages
}

proof fn lemma_log_push(records: Seq<LogRecord>, record: LogRecord)
    ensures
        log_bytes(records.push(record)) == log_bytes(records) + crate::v2::wal::record_bytes(
            record,
        ),
    decreases records.len(),
{
    if records.len() == 0 {
        assert(records.push(record).drop_first() =~= Seq::empty());
        assert(log_bytes(Seq::<LogRecord>::empty()) =~= Seq::empty());
        assert(log_bytes(records.push(record)) =~= log_bytes(records)
            + crate::v2::wal::record_bytes(record));
    } else {
        lemma_log_push(records.drop_first(), record);
        assert(records.push(record).drop_first() =~= records.drop_first().push(record));
        assert(log_bytes(records.push(record)) =~= log_bytes(records)
            + crate::v2::wal::record_bytes(record));
    }
}

fn plan_commit(txn_id: u64, pages: &OrdMap<PageId, PageImage>) -> (r: CommitPlan)
    requires
        forall|p: PageId| #[trigger] pages@.dom().contains(p) ==> pages@[p].len() == PAGE_SIZE,
    ensures
        r@ == (CommitView {
            log: log_bytes(commit_records(txn_id, pages.keys(), pages@)),
            ids: pages.keys(),
            pages: pages@,
        }),
{
    let total: usize = pages.len();
    let ghost keys = pages.keys();
    let ghost all = commit_records(txn_id, keys, pages@);
    let mut log: Vec<u8> = Vec::new();
    let mut list: Vec<(PageId, Vec<u8>)> = Vec::new();
    let mut i: usize = 0;
    assert(all.take(0) =~= Seq::empty());
    assert(log@ =~= log_bytes(all.take(0)));
    while i < total
        invariant
            i <= total,
            total == keys.len(),
            keys == pages.keys(),
            all == commit_records(txn_id, keys, pages@),
            forall|p: PageId| #[trigger] pages@.dom().contains(p) ==> pages@[p].len() == PAGE_SIZE,
            log@ == log_bytes(all.take(i as int)),
            list@.len() == i,
            forall|k: int| 0 <= k < i ==> (#[trigger] list@[k]).0 == keys[k],
            forall|k: int| 0 <= k < i ==> (#[trigger] list@[k]).1@ == pages@[keys[k]],
        decreases total - i,
    {
        let id: PageId = *pages.key_at(i);
        let image: &PageImage = pages.value_at(i);
        assert(image.bytes@ == pages@[keys[i as int]]);
        let written = write_frame(&mut log, txn_id, id, image.bytes.as_slice());
        proof {
            assert(written is Ok);
            lemma_log_push(all.take(i as int), all[i as int]);
            assert(all.take(i as int).push(all[i as int]) =~= all.take(i + 1));
        }
        list.push((id, copy_bytes(&image.bytes)));
        i = i + 1;
    }
    let _ = write_commit(&mut log, txn_id, total as u32);
    proof {
        lemma_log_push(all.take(i as int), all[i as int]);
        assert(all.take(i as int).push(all[i as int]) =~= all);
    }
    let r = CommitPlan { log, pages: list };
    proof {
        assert(r@.ids =~= keys);
        assert forall|p: PageId| #[trigger] pages@.dom().contains(p) implies r@.pages.dom().contains(
            p,
        ) by {
            let k = choose|k: int| 0 <= k < keys.len() && keys[k] == p;
            assert(r.pages@[k].0 == p);
        }
        assert forall|p: PageId| #[trigger] r@.pages.dom().contains(p) implies pages@.dom().contains(
            p,
        ) && r@.pages[p] == pages@[p] by {
            let k = choose|k: int| 0 <= k < r.pages@.len() && r.pages@[k].0 == p;
            assert(keys[k] == p);
        }
        assert(r@.pages =~= pages@);
    }
    r
}

} // verus!
