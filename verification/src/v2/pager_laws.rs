//! What holds of the pager as a whole.

use vstd::prelude::*;

use crate::common::error::ErrorView;
use crate::common::ordmap::{ascending, OrdKey};
use crate::v2::page::{law_meta_page_round_trip, meta_bytes, PageId, PageKind};
use crate::v2::pager_model::{
    commit_records, count_for, meta_read, opened, put_frames, put_page, put_pages, replayed,
    restored, wrote, PagerModel, WriteView,
};
use crate::v2::wal::{
    hold_frame, law_recovery_replays_log, log_bytes, record_bytes, recovered, released, replay,
    torn, writable, FrameView, LogRecord,
};

verus! {

/// The frames that a commit writes into the log.
pub open spec fn commit_frames(txn: u64, ids: Seq<PageId>, pages: Map<PageId, Seq<u8>>) -> Seq<
    FrameView,
> {
    Seq::new(
        ids.len(),
        |i: int| FrameView { txn_id: txn, page_id: ids[i], page_bytes: pages[ids[i]] },
    )
}

proof fn lemma_replay_frames(
    txn: u64,
    frames: Seq<FrameView>,
    held: Seq<FrameView>,
    rest: Seq<LogRecord>,
)
    requires
        forall|i: int| 0 <= i < frames.len() ==> (#[trigger] frames[i]).txn_id == txn,
    ensures
        replay(
            frames.map_values(|f: FrameView| LogRecord::Frame(f)) + rest,
            Map::<u64, Seq<FrameView>>::empty().insert(txn, held),
            Seq::empty(),
        ) == replay(
            rest,
            Map::<u64, Seq<FrameView>>::empty().insert(txn, held + frames),
            Seq::empty(),
        ),
    decreases frames.len(),
{
    let records = frames.map_values(|f: FrameView| LogRecord::Frame(f)) + rest;
    let pending = Map::<u64, Seq<FrameView>>::empty().insert(txn, held);
    if frames.len() == 0 {
        assert(records =~= rest);
        assert(held + frames =~= held);
    } else {
        let tail = frames.drop_first();
        assert(records[0] == LogRecord::Frame(frames[0]));
        assert(records.drop_first() =~= tail.map_values(|f: FrameView| LogRecord::Frame(f)) + rest);
        assert(hold_frame(pending, frames[0]) =~= Map::<u64, Seq<FrameView>>::empty().insert(
            txn,
            held.push(frames[0]),
        ));
        lemma_replay_frames(txn, tail, held.push(frames[0]), rest);
        assert(held.push(frames[0]) + tail =~= held + frames);
    }
}

/// Frames alone, without a commit, give nothing.
proof fn lemma_frames_alone(
    frames: Seq<LogRecord>,
    pending: Map<u64, Seq<FrameView>>,
    done: Seq<FrameView>,
)
    requires
        forall|i: int| 0 <= i < frames.len() ==> #[trigger] frames[i] is Frame,
    ensures
        replay(frames, pending, done) == done,
    decreases frames.len(),
{
    if frames.len() > 0 {
        assert(frames[0] is Frame);
        lemma_frames_alone(
            frames.drop_first(),
            hold_frame(pending, frames[0]->Frame_0),
            done,
        );
    }
}

proof fn lemma_replay_commit(txn: u64, ids: Seq<PageId>, pages: Map<PageId, Seq<u8>>)
    requires
        0 < ids.len() <= u32::MAX,
    ensures
        replay(commit_records(txn, ids, pages), Map::empty(), Seq::empty()) == commit_frames(
            txn,
            ids,
            pages,
        ),
{
    let frames = commit_frames(txn, ids, pages);
    let records = commit_records(txn, ids, pages);
    let last = LogRecord::Commit { txn_id: txn, frame_count: ids.len() as u32 };
    let tail = frames.drop_first();
    assert(records[0] == LogRecord::Frame(frames[0]));
    assert(records.drop_first() =~= tail.map_values(|f: FrameView| LogRecord::Frame(f)) + seq![
        last,
    ]);
    let none = Map::<u64, Seq<FrameView>>::empty();
    assert(hold_frame(none, frames[0]) =~= none.insert(txn, seq![frames[0]]));
    lemma_replay_frames(txn, tail, seq![frames[0]], seq![last]);
    assert(seq![frames[0]] + tail =~= frames);
    let held = none.insert(txn, frames);
    assert(seq![last].drop_first() =~= Seq::empty());
    assert(released(held, txn, ids.len()) == frames);
    assert(replay(seq![last], held, Seq::empty()) == replay(
        Seq::empty(),
        held.remove(txn),
        Seq::empty() + frames,
    ));
    assert(Seq::<FrameView>::empty() + frames =~= frames);
}

proof fn lemma_frames_are_pages(
    disk: Seq<Seq<u8>>,
    txn: u64,
    ids: Seq<PageId>,
    pages: Map<PageId, Seq<u8>>,
    i: int,
)
    requires
        0 <= i <= ids.len(),
    ensures
        put_frames(disk, commit_frames(txn, ids, pages), i) == put_pages(disk, ids, pages, i),
    decreases ids.len() - i,
{
    if i < ids.len() {
        lemma_frames_are_pages(put_page(disk, ids[i], pages[ids[i]]), txn, ids, pages, i + 1);
    }
}

proof fn lemma_plan_writable(m: PagerModel, txn: u64)
    requires
        m.sound(),
        m.knows(txn),
    ensures
        forall|i: int|
            0 <= i < commit_records(txn, m.commit_plan(txn).ids, m.commit_plan(txn).pages).len()
                ==> writable(
                #[trigger] commit_records(
                    txn,
                    m.commit_plan(txn).ids,
                    m.commit_plan(txn).pages,
                )[i],
            ),
{
    let plan = m.commit_plan(txn);
    let records = commit_records(txn, plan.ids, plan.pages);
    lemma_plan_ids(m, txn);
    assert forall|i: int| 0 <= i < records.len() implies writable(#[trigger] records[i]) by {
        if i < plan.ids.len() {
            let p = plan.ids[i];
            assert(plan.ids.to_set().contains(p));
            if p != PageId(0) {
                assert(wrote(m.txn_page_states, txn, p));
            }
        }
    }
}

/// A transaction has written finitely many pages, as there are only so many numbers.
proof fn lemma_page_set_finite(s: Set<PageId>)
    ensures
        s.finite(),
{
    let numbers = vstd::set_lib::set_int_range(0, u32::MAX + 1);
    vstd::set_lib::lemma_int_range(0, u32::MAX + 1);
    let all = numbers.map(|n: int| PageId(n as u32));
    numbers.lemma_map_finite(|n: int| PageId(n as u32));
    assert forall|p: PageId| s.contains(p) implies all.contains(p) by {
        assert(numbers.contains(p.0 as int));
        assert(PageId((p.0 as int) as u32) == p);
    }
    vstd::set_lib::lemma_set_subset_finite(all, s);
}

pub proof fn lemma_plan_ids(m: PagerModel, txn: u64)
    ensures
        ascending::<PageId>(m.commit_plan(txn).ids),
        m.commit_plan(txn).ids.to_set() == m.commit_plan(txn).pages.dom(),
{
    let pages = m.commit_plan(txn).pages;
    lemma_page_set_finite(pages.dom());
    crate::common::ordset::lemma_sorted_exists::<PageId>(pages.dom());
}

/// Whatever happens to the file after the log of a commit is written, replaying the log
/// brings it to what the commit makes of it.
pub proof fn law_commit_survives_crash(m: PagerModel, txn: u64)
    requires
        m.sound(),
        m.knows(txn),
        m.commit_plan(txn).ids.len() <= u32::MAX,
    ensures
        replayed(m.disk, Some(m.commit_plan(txn).log)) == Ok::<_, ErrorView>(
            m.published(txn).disk,
        ),
{
    let plan = m.commit_plan(txn);
    let records = commit_records(txn, plan.ids, plan.pages);
    lemma_plan_writable(m, txn);
    lemma_plan_ids(m, txn);
    assert(plan.pages.dom().contains(PageId(0)));
    assert(plan.ids.to_set().contains(PageId(0)));
    assert(plan.ids.len() > 0);
    law_recovery_replays_log(records, Seq::empty());
    assert(log_bytes(records) + Seq::<u8>::empty() =~= log_bytes(records));
    lemma_replay_commit(txn, plan.ids, plan.pages);
    lemma_frames_are_pages(m.disk, txn, plan.ids, plan.pages, 0);
}

proof fn lemma_log_prefix(records: Seq<LogRecord>, n: int) -> (k: int)
    requires
        0 <= n < log_bytes(records).len(),
        forall|i: int| 0 <= i < records.len() ==> writable(#[trigger] records[i]),
    ensures
        0 <= k < records.len(),
        exists|tail: Seq<u8>| #[trigger]
            torn(tail) && log_bytes(records).take(n) == log_bytes(records.take(k)) + tail,
    decreases records.len(),
{
    let first = record_bytes(records[0]);
    let rest = records.drop_first();
    let whole = log_bytes(records);
    assert(whole == first + log_bytes(rest));
    if n < first.len() {
        let tail = whole.take(n);
        assert(tail =~= first.take(n));
        assert(writable(records[0]) && tail.len() < first.len());
        assert(torn(tail));
        assert(records.take(0) =~= Seq::empty());
        assert(log_bytes(records.take(0)) + tail =~= tail);
        0
    } else {
        let k = lemma_log_prefix(rest, n - first.len());
        let tail = choose|tail: Seq<u8>| #[trigger]
            torn(tail) && log_bytes(rest).take(n - first.len()) == log_bytes(rest.take(k)) + tail;
        assert(records.take(k + 1)[0] == records[0]);
        assert(records.take(k + 1).drop_first() =~= rest.take(k));
        assert(log_bytes(records.take(k + 1)) =~= first + log_bytes(rest.take(k)));
        assert(whole.take(n) =~= first + log_bytes(rest).take(n - first.len()));
        assert(whole.take(n) =~= log_bytes(records.take(k + 1)) + tail);
        k + 1
    }
}

proof fn lemma_replay_grows(
    records: Seq<LogRecord>,
    k: int,
    pending: Map<u64, Seq<FrameView>>,
    committed: Seq<FrameView>,
)
    requires
        0 <= k <= records.len(),
    ensures
        replay(records.take(k), pending, committed).is_prefix_of(
            replay(records, pending, committed),
        ),
        committed.is_prefix_of(replay(records, pending, committed)),
    decreases records.len(),
{
    if records.len() > 0 {
        let rest = records.drop_first();
        let (held, done) = match records[0] {
            LogRecord::Frame(frame) => (hold_frame(pending, frame), committed),
            LogRecord::Commit { txn_id, frame_count } => (
                pending.remove(txn_id),
                committed + released(pending, txn_id, frame_count as nat),
            ),
        };
        let part = if k > 0 {
            k - 1
        } else {
            0
        };
        lemma_replay_grows(rest, part, held, done);
        let whole = replay(records, pending, committed);
        assert(whole == replay(rest, held, done));
        assert(committed =~= done.subrange(0, committed.len() as int));
        assert(committed =~= whole.subrange(0, committed.len() as int)) by {
            assert(done =~= whole.subrange(0, done.len() as int));
        }
        if k > 0 {
            assert(records.take(k)[0] == records[0]);
            assert(records.take(k).drop_first() =~= rest.take(k - 1));
        }
    }
}

/// Wherever a log is cut off, what is left is a log whose last record may be cut off, and
/// recovering it gives the first of the frames that recovering the whole log gives.
pub proof fn law_cut_logs_recover_a_prefix(records: Seq<LogRecord>, n: int)
    requires
        forall|i: int| 0 <= i < records.len() ==> writable(#[trigger] records[i]),
        0 <= n <= log_bytes(records).len(),
    ensures
        exists|k: int, tail: Seq<u8>|
            0 <= k <= records.len() && torn(tail) && log_bytes(records).take(n) == #[trigger] (
            log_bytes(records.take(k)) + tail),
        recovered(log_bytes(records).take(n), Map::empty(), Seq::empty()) matches Ok(part)
            && recovered(log_bytes(records), Map::empty(), Seq::empty()) matches Ok(whole)
            && part.is_prefix_of(whole),
{
    let whole = log_bytes(records);
    let none = Seq::<u8>::empty();
    law_recovery_replays_log(records, none);
    assert(whole + none =~= whole);
    if n == whole.len() {
        assert(whole.take(n) =~= whole);
        assert(records.take(records.len() as int) =~= records);
        assert(whole.take(n) == log_bytes(records.take(records.len() as int)) + none);
    } else {
        let k = lemma_log_prefix(records, n);
        let tail = choose|tail: Seq<u8>| #[trigger]
            torn(tail) && whole.take(n) == log_bytes(records.take(k)) + tail;
        let part = records.take(k);
        assert forall|i: int| 0 <= i < part.len() implies writable(#[trigger] part[i]) by {
            assert(part[i] == records[i]);
        }
        law_recovery_replays_log(part, tail);
        lemma_replay_grows(records, k, Map::empty(), Seq::empty());
        assert(whole.take(n) == log_bytes(records.take(k)) + tail);
    }
}

/// Where the writing of the log of a commit is cut off, replaying what is there leaves the
/// file as it was.
pub proof fn law_torn_commit_is_ignored(m: PagerModel, txn: u64, n: int)
    requires
        m.sound(),
        m.knows(txn),
        0 <= n < m.commit_plan(txn).log.len(),
    ensures
        replayed(m.disk, Some(m.commit_plan(txn).log.take(n))) == Ok::<_, ErrorView>(m.disk),
{
    let plan = m.commit_plan(txn);
    let records = commit_records(txn, plan.ids, plan.pages);
    lemma_plan_writable(m, txn);
    let k = lemma_log_prefix(records, n);
    let tail = choose|tail: Seq<u8>| #[trigger]
        torn(tail) && log_bytes(records).take(n) == log_bytes(records.take(k)) + tail;
    let part = records.take(k);
    law_recovery_replays_log(part, tail);
    assert forall|i: int| 0 <= i < part.len() implies #[trigger] part[i] is Frame by {
        assert(part[i] == records[i]);
    }
    lemma_frames_alone(part, Map::empty(), Seq::empty());
    assert(put_frames(m.disk, Seq::empty(), 0) == m.disk);
}

/// A page that a transaction has written is read back as it wrote it.
pub proof fn law_written_pages_are_read(m: PagerModel, txn: u64, id: PageId, page: Seq<u8>)
    requires
        m.written(txn, id, page).1 is Ok,
    ensures
        m.written(txn, id, page).0.read(id) == Ok::<_, ErrorView>(page),
{
}

/// Whatever a transaction writes, rolling it back leaves every page as rolling it back before
/// would have left it.
pub proof fn law_rollback_undoes_writes(
    m: PagerModel,
    txn: u64,
    id: PageId,
    page: Seq<u8>,
    other: PageId,
)
    requires
        m.written(txn, id, page).1 is Ok,
    ensures
        m.written(txn, id, page).0.forgotten(txn).read(other) == m.forgotten(txn).read(other),
{
    let after = m.written(txn, id, page).0;
    let middle = m.locked(txn, id).0;
    assert(middle.txn_page_states == m.txn_page_states);
    assert(middle.page_cache == m.page_cache);
    let (w0, w1) = (m.txn_page_states[txn], after.txn_page_states[txn]);
    let (c0, c1) = (restored(m.page_cache, w0), restored(after.page_cache, w1));
    if other == id {
        assert(w1.dom().contains(id));
        if w0.dom().contains(id) {
            assert(c0.dom().contains(id) == c1.dom().contains(id));
        } else {
            assert(c0.dom().contains(id) == m.page_cache.dom().contains(id));
        }
    } else {
        assert(w0.dom().contains(other) == w1.dom().contains(other));
        assert(c0.dom().contains(other) == c1.dom().contains(other));
    }
}

/// A new page that a transaction gets is gone once it is rolled back. This holds where the
/// page was neither cached nor committed before.
pub proof fn law_rollback_undoes_allocations(m: PagerModel, txn: u64, kind: PageKind, other: PageId)
    requires
        m.allocated(txn, kind).1 is Ok,
        !m.page_cache.dom().contains(PageId(m.meta.page_count)),
        !m.txn_page_states[txn].dom().contains(PageId(m.meta.page_count)),
    ensures
        m.allocated(txn, kind).0.forgotten(txn).read(other) == m.forgotten(txn).read(other),
{
    let id = PageId(m.meta.page_count);
    let after = m.allocated(txn, kind).0;
    let (w0, w1) = (m.txn_page_states[txn], after.txn_page_states[txn]);
    let (c0, c1) = (restored(m.page_cache, w0), restored(after.page_cache, w1));
    if other == id {
        assert(!c0.dom().contains(id));
        assert(!c1.dom().contains(id));
    } else {
        assert(w0.dom().contains(other) == w1.dom().contains(other));
        assert(c0.dom().contains(other) == c1.dom().contains(other));
    }
}

/// Rolling back a transaction that has written nothing changes no page.
pub proof fn law_rollback_of_nothing(m: PagerModel, txn: u64, other: PageId)
    requires
        m.begun_with(txn).1 is Ok,
    ensures
        m.begun_with(txn).0.forgotten(txn).read(other) == m.read(other),
{
    let begun = m.begun_with(txn).0;
    assert(restored(begun.page_cache, begun.txn_page_states[txn]) =~= m.page_cache);
}

pub proof fn lemma_put_later(
    disk: Seq<Seq<u8>>,
    ids: Seq<PageId>,
    pages: Map<PageId, Seq<u8>>,
    i: int,
    id: PageId,
)
    requires
        0 <= i <= ids.len(),
        id.0 < disk.len(),
        forall|k: int| i <= k < ids.len() ==> #[trigger] ids[k] != id,
    ensures
        id.0 < put_pages(disk, ids, pages, i).len(),
        put_pages(disk, ids, pages, i)[id.0 as int] == disk[id.0 as int],
    decreases ids.len() - i,
{
    if i < ids.len() {
        assert(ids[i] != id);
        lemma_put_later(put_page(disk, ids[i], pages[ids[i]]), ids, pages, i + 1, id);
    }
}

pub proof fn lemma_put_found(
    disk: Seq<Seq<u8>>,
    ids: Seq<PageId>,
    pages: Map<PageId, Seq<u8>>,
    i: int,
    at: int,
)
    requires
        0 <= i <= at < ids.len(),
        ascending::<PageId>(ids),
    ensures
        ids[at].0 < put_pages(disk, ids, pages, i).len(),
        put_pages(disk, ids, pages, i)[ids[at].0 as int] == pages[ids[at]],
    decreases at - i,
{
    let next = put_page(disk, ids[i], pages[ids[i]]);
    if i == at {
        assert forall|k: int| i + 1 <= k < ids.len() implies #[trigger] ids[k] != ids[at] by {
            PageId::before_irreflexive(ids[at]);
            assert(PageId::before(ids[at], ids[k]));
        }
        lemma_put_later(next, ids, pages, i + 1, ids[at]);
    } else {
        lemma_put_found(next, ids, pages, i + 1, at);
    }
}

/// A page that a transaction wrote is what a new pager reads from the file after the commit, and
/// the meta page is the one that was committed.
/// There is one page whose number the page count cannot reach.
pub proof fn law_committed_pages_survive_reopening(m: PagerModel, txn: u64, id: PageId)
    requires
        m.knows(txn),
        m.txn_page_states[txn].dom().contains(id),
        0 < id.0 < u32::MAX,
    ensures
        opened(Some(m.published(txn).disk), None, Map::empty()) matches Ok(p) && p.read(id)
            == Ok::<_, ErrorView>(m.txn_page_states[txn][id].after_image) && p.meta
            == m.meta_to_commit(txn) && p.disk == m.published(txn).disk,
{
    let plan = m.commit_plan(txn);
    let disk = m.published(txn).disk;
    let meta = m.meta_to_commit(txn);
    lemma_plan_ids(m, txn);
    assert(plan.ids.to_set().contains(id));
    assert(plan.pages.dom().contains(PageId(0)));
    assert(plan.ids.to_set().contains(PageId(0)));
    let a = plan.ids.index_of(id);
    let z = plan.ids.index_of(PageId(0));
    lemma_put_found(m.disk, plan.ids, plan.pages, 0, a);
    lemma_put_found(m.disk, plan.ids, plan.pages, 0, z);
    assert(disk[0] == meta_bytes(meta));
    law_meta_page_round_trip(meta);
    assert(meta_read(disk[0]) == Ok::<_, ErrorView>(meta));
    let alone = Map::<u64, Map<PageId, WriteView>>::empty().insert(txn, m.txn_page_states[txn]);
    crate::v2::pager_model::lemma_covers_exists(alone, m.committed_page_count);
    assert(wrote(alone, txn, id));
    assert(count_for(id) <= meta.page_count);
}

/// A commit leaves the pages that can be read as they are: those of the transaction as it wrote
/// them, and the others but the first.
pub proof fn lemma_published_pages(m: PagerModel, txn: u64, id: PageId)
    requires
        m.knows(txn),
        id.0 != 0,
        m.read(id) is Ok,
    ensures
        m.published(txn).read(id) == (if m.txn_page_states[txn].dom().contains(id) {
            Ok::<_, ErrorView>(m.txn_page_states[txn][id].after_image)
        } else {
            m.read(id)
        }),
{
    let plan = m.commit_plan(txn);
    let alone = Map::<u64, Map<PageId, WriteView>>::empty().insert(txn, m.txn_page_states[txn]);
    crate::v2::pager_model::lemma_covers_exists(alone, m.committed_page_count);
    lemma_plan_ids(m, txn);
    if !plan.pages.dom().contains(id) && !m.page_cache.dom().contains(id) {
        assert forall|k: int| 0 <= k < plan.ids.len() implies #[trigger] plan.ids[k] != id by {
            assert(plan.ids.to_set().contains(plan.ids[k]));
        }
        lemma_put_later(m.disk, plan.ids, plan.pages, 0, id);
    }
}

} // verus!
