//! The write-ahead log: page images of a transaction, then its commit record.

use vstd::prelude::*;

use crate::common::bytes::{
    le_bytes, le_value, lemma_byte_ranges, lemma_le_bytes_len, lemma_le_round_trip, push_le,
    read_le, slice_vec,
};
use crate::common::error::{bare, DbError, DbResult, ErrorCode, ErrorView};
use crate::common::ordmap::OrdMap;
use crate::v2::page::{PageId, PAGE_SIZE};

verus! {

const RECORD_FRAME: u8 = 1;

const RECORD_COMMIT: u8 = 2;

/// A page image that a transaction wrote.
#[derive(Debug, PartialEq, Eq)]
pub struct WalFrame {
    pub txn_id: u64,
    pub page_id: PageId,
    pub page_bytes: Vec<u8>,
}

/// The model of a frame.
#[verifier::ext_equal]
pub struct FrameView {
    pub txn_id: u64,
    pub page_id: PageId,
    pub page_bytes: Seq<u8>,
}

impl DeepView for WalFrame {
    type V = FrameView;

    open spec fn deep_view(&self) -> FrameView {
        FrameView { txn_id: self.txn_id, page_id: self.page_id, page_bytes: self.page_bytes@ }
    }
}

/// One record of the log.
pub enum LogRecord {
    Frame(FrameView),
    Commit { txn_id: u64, frame_count: u32 },
}

/// How a frame is written.
pub open spec fn frame_bytes(frame: FrameView) -> Seq<u8> {
    seq![1u8] + le_bytes(frame.txn_id as nat, 8) + le_bytes(frame.page_id.0 as nat, 4) + le_bytes(
        frame.page_bytes.len(),
        4,
    ) + frame.page_bytes
}

/// How a commit is written.
pub open spec fn commit_bytes(txn_id: u64, frame_count: u32) -> Seq<u8> {
    seq![2u8] + le_bytes(txn_id as nat, 8) + le_bytes(frame_count as nat, 4)
}

/// How a record is written.
pub open spec fn record_bytes(record: LogRecord) -> Seq<u8> {
    match record {
        LogRecord::Frame(frame) => frame_bytes(frame),
        LogRecord::Commit { txn_id, frame_count } => commit_bytes(txn_id, frame_count),
    }
}

/// How a log is written.
pub open spec fn log_bytes(records: Seq<LogRecord>) -> Seq<u8>
    decreases records.len(),
{
    if records.len() == 0 {
        Seq::empty()
    } else {
        record_bytes(records[0]) + log_bytes(records.drop_first())
    }
}

/// Whether a record can be written: a frame holds exactly one page.
pub open spec fn writable(record: LogRecord) -> bool {
    match record {
        LogRecord::Frame(frame) => frame.page_bytes.len() == PAGE_SIZE,
        LogRecord::Commit { .. } => true,
    }
}

/// The frames of a transaction that have not been committed yet.
pub open spec fn pending_of(pending: Map<u64, Seq<FrameView>>, txn_id: u64) -> Seq<FrameView> {
    if pending.dom().contains(txn_id) {
        pending[txn_id]
    } else {
        Seq::empty()
    }
}

/// The uncommitted frames once a frame has been read.
pub open spec fn hold_frame(
    pending: Map<u64, Seq<FrameView>>,
    frame: FrameView,
) -> Map<u64, Seq<FrameView>> {
    pending.insert(frame.txn_id, pending_of(pending, frame.txn_id).push(frame))
}

/// The frames that a commit record releases: those of its transaction, provided that as
/// many were seen as it counts.
pub open spec fn released(
    pending: Map<u64, Seq<FrameView>>,
    txn_id: u64,
    frame_count: nat,
) -> Seq<FrameView> {
    if pending.dom().contains(txn_id) && pending[txn_id].len() == frame_count {
        pending[txn_id]
    } else {
        Seq::empty()
    }
}

/// The frames that a sequence of records releases, in the order of the commits.
pub open spec fn replay(
    records: Seq<LogRecord>,
    pending: Map<u64, Seq<FrameView>>,
    committed: Seq<FrameView>,
) -> Seq<FrameView>
    decreases records.len(),
{
    if records.len() == 0 {
        committed
    } else {
        match records[0] {
            LogRecord::Frame(frame) => replay(
                records.drop_first(),
                hold_frame(pending, frame),
                committed,
            ),
            LogRecord::Commit { txn_id, frame_count } => replay(
                records.drop_first(),
                pending.remove(txn_id),
                committed + released(pending, txn_id, frame_count as nat),
            ),
        }
    }
}

/// The frame written at the start of some bytes.
pub open spec fn first_frame(bytes: Seq<u8>) -> FrameView {
    FrameView {
        txn_id: le_value(bytes.subrange(1, 9)) as u64,
        page_id: PageId(le_value(bytes.subrange(9, 13)) as u32),
        page_bytes: bytes.subrange(17, 17 + PAGE_SIZE),
    }
}

/// What recovery makes of the rest of a log: records are read one by one, a record that is
/// cut short ends the log, and a record of an unknown type or with a page of the wrong size
/// is an error.
pub open spec fn recovered(
    bytes: Seq<u8>,
    pending: Map<u64, Seq<FrameView>>,
    committed: Seq<FrameView>,
) -> Result<Seq<FrameView>, ErrorView>
    decreases bytes.len(),
{
    if bytes.len() == 0 {
        Ok(committed)
    } else if bytes[0] == 1 {
        if bytes.len() < 17 || bytes.len() - 17 < le_value(bytes.subrange(13, 17)) {
            Ok(committed)
        } else if le_value(bytes.subrange(13, 17)) != PAGE_SIZE {
            Err(
                bare(
                    ErrorCode::WalFrameLength {
                        page: le_value(bytes.subrange(9, 13)) as u32,
                        len: le_value(bytes.subrange(13, 17)) as usize,
                    },
                ),
            )
        } else {
            recovered(
                bytes.skip(17 + PAGE_SIZE),
                hold_frame(pending, first_frame(bytes)),
                committed,
            )
        }
    } else if bytes[0] == 2 {
        if bytes.len() < 13 {
            Ok(committed)
        } else {
            let txn_id = le_value(bytes.subrange(1, 9)) as u64;
            recovered(
                bytes.skip(13),
                pending.remove(txn_id),
                committed + released(pending, txn_id, le_value(bytes.subrange(9, 13))),
            )
        }
    } else {
        Err(bare(ErrorCode::WalRecordType(bytes[0])))
    }
}

/// Appends the image of a page to a log.
pub fn write_frame(out: &mut Vec<u8>, txn_id: u64, page_id: PageId, page: &[u8]) -> (r: DbResult<
    (),
>)
    ensures
        match r {
            Ok(_) => page@.len() == PAGE_SIZE && final(out)@ == old(out)@ + frame_bytes(
                (FrameView { txn_id, page_id, page_bytes: page@ }),
            ),
            Err(e) => page@.len() != PAGE_SIZE && final(out)@ == old(out)@ && e@ == bare(
                ErrorCode::WalFrameSize,
            ),
        },
{
    if page.len() != PAGE_SIZE {
        return Err(DbError::bare(ErrorCode::WalFrameSize));
    }
    out.push(RECORD_FRAME);
    push_le(out, txn_id, 8);
    push_le(out, page_id.0 as u64, 4);
    push_le(out, page.len() as u64, 4);
    let mut copy = slice_vec(page, 0, page.len());
    out.append(&mut copy);
    assert(page@.subrange(0, page@.len() as int) =~= page@);
    assert(out@ =~= old(out)@ + frame_bytes(FrameView { txn_id, page_id, page_bytes: page@ }));
    Ok(())
}

/// Appends the commit of a transaction to a log.
pub fn write_commit(out: &mut Vec<u8>, txn_id: u64, frame_count: u32) -> (r: DbResult<()>)
    ensures
        r is Ok,
        final(out)@ == old(out)@ + commit_bytes(txn_id, frame_count),
{
    out.push(RECORD_COMMIT);
    push_le(out, txn_id, 8);
    push_le(out, frame_count as u64, 4);
    assert(out@ =~= old(out)@ + commit_bytes(txn_id, frame_count));
    Ok(())
}

/// The frames of all transactions whose commit a log holds, in the order of the commits.
pub fn recover_frames(bytes: &[u8]) -> (r: DbResult<Vec<WalFrame>>)
    ensures
        match r {
            Ok(frames) => recovered(bytes@, Map::empty(), Seq::empty()) == Ok::<_, ErrorView>(
                frames.deep_view(),
            ),
            Err(e) => recovered(bytes@, Map::empty(), Seq::empty()) == Err::<
                Seq<FrameView>,
                _,
            >(e@),
        },
{
    let mut offset: usize = 0;
    let mut pending: OrdMap<u64, Vec<WalFrame>> = OrdMap::new();
    let mut committed: Vec<WalFrame> = Vec::new();
    let total: usize = bytes.len();
    proof {
        lemma_byte_ranges();
        assert(bytes@.skip(0) =~= bytes@);
        assert(committed.deep_view() =~= Seq::<FrameView>::empty());
    }
    while offset < total
        invariant_except_break
            offset <= total,
            recovered(bytes@.skip(offset as int), pending@, committed.deep_view()) == recovered(
                bytes@,
                Map::empty(),
                Seq::empty(),
            ),
        invariant
            total == bytes@.len(),
        ensures
            recovered(bytes@, Map::empty(), Seq::empty()) == Ok::<_, ErrorView>(
                committed.deep_view(),
            ),
        decreases total - offset,
    {
        let ghost rest = bytes@.skip(offset as int);
        proof {
            lemma_byte_ranges();
            assert(rest.len() > 0);
        }
        let record_type: u8 = bytes[offset];
        if record_type == RECORD_FRAME {
            if total - offset < 17 {
                break;
            }
            let txn_id: u64 = read_le(bytes, offset + 1, 8);
            let page_id: u32 = read_le(bytes, offset + 9, 4) as u32;
            let page_len: usize = read_le(bytes, offset + 13, 4) as usize;
            proof {
                assert(bytes@.subrange(offset + 1, offset + 9) =~= rest.subrange(1, 9));
                assert(bytes@.subrange(offset + 9, offset + 13) =~= rest.subrange(9, 13));
                assert(bytes@.subrange(offset + 13, offset + 17) =~= rest.subrange(13, 17));
            }
            if total - offset - 17 < page_len {
                break;
            }
            if page_len != PAGE_SIZE {
                return Err(
                    DbError::bare(ErrorCode::WalFrameLength { page: page_id, len: page_len }),
                );
            }
            let page_bytes = slice_vec(bytes, offset + 17, offset + 17 + page_len);
            let frame = WalFrame { txn_id, page_id: PageId(page_id), page_bytes };
            proof {
                assert(frame.page_bytes@ =~= rest.subrange(17, 17 + PAGE_SIZE));
                assert(frame.deep_view() == first_frame(rest));
            }
            let ghost before = pending@;
            let ghost view = frame.deep_view();
            let mut frames: Vec<WalFrame> = match pending.remove(&txn_id) {
                Some(frames) => frames,
                None => Vec::new(),
            };
            assert(frames.deep_view() =~= pending_of(before, txn_id));
            frames.push(frame);
            assert(frames.deep_view() =~= pending_of(before, txn_id).push(view));
            pending.insert(txn_id, frames);
            assert(pending@ =~= hold_frame(before, view));
            offset = offset + 17 + page_len;
            assert(bytes@.skip(offset as int) =~= rest.skip(17 + PAGE_SIZE));
        } else if record_type == RECORD_COMMIT {
            if total - offset < 13 {
                break;
            }
            let txn_id: u64 = read_le(bytes, offset + 1, 8);
            let frame_count: u64 = read_le(bytes, offset + 9, 4);
            proof {
                assert(bytes@.subrange(offset + 1, offset + 9) =~= rest.subrange(1, 9));
                assert(bytes@.subrange(offset + 9, offset + 13) =~= rest.subrange(9, 13));
            }
            let ghost before = pending@;
            let ghost done = committed.deep_view();
            if let Some(frames) = pending.remove(&txn_id) {
                let mut frames = frames;
                let ghost view = frames.deep_view();
                if frames.len() as u64 == frame_count {
                    committed.append(&mut frames);
                    assert(committed.deep_view() =~= done + view);
                }
            }
            assert(committed.deep_view() =~= done + released(
                before,
                txn_id,
                frame_count as nat,
            ));
            offset = offset + 13;
            assert(bytes@.skip(offset as int) =~= rest.skip(13));
        } else {
            return Err(DbError::bare(ErrorCode::WalRecordType(record_type)));
        }
    }
    Ok(committed)
}

proof fn lemma_record_len(record: LogRecord)
    requires
        writable(record),
    ensures
        record_bytes(record).len() == match record {
            LogRecord::Frame(_) => 17int + PAGE_SIZE,
            LogRecord::Commit { .. } => 13int,
        },
{
    match record {
        LogRecord::Frame(frame) => {
            lemma_le_bytes_len(frame.txn_id as nat, 8);
            lemma_le_bytes_len(frame.page_id.0 as nat, 4);
            lemma_le_bytes_len(frame.page_bytes.len(), 4);
        },
        LogRecord::Commit { txn_id, frame_count } => {
            lemma_le_bytes_len(txn_id as nat, 8);
            lemma_le_bytes_len(frame_count as nat, 4);
        },
    }
}

proof fn lemma_recover_record(
    record: LogRecord,
    tail: Seq<u8>,
    pending: Map<u64, Seq<FrameView>>,
    committed: Seq<FrameView>,
)
    requires
        writable(record),
    ensures
        recovered(record_bytes(record) + tail, pending, committed) == match record {
            LogRecord::Frame(frame) => recovered(tail, hold_frame(pending, frame), committed),
            LogRecord::Commit { txn_id, frame_count } => recovered(
                tail,
                pending.remove(txn_id),
                committed + released(pending, txn_id, frame_count as nat),
            ),
        },
{
    lemma_record_len(record);
    lemma_byte_ranges();
    let bytes = record_bytes(record) + tail;
    match record {
        LogRecord::Frame(frame) => {
            lemma_le_round_trip(frame.txn_id as nat, 8);
            lemma_le_round_trip(frame.page_id.0 as nat, 4);
            lemma_le_round_trip(PAGE_SIZE as nat, 4);
            assert(bytes[0] == 1);
            assert(bytes.subrange(1, 9) =~= le_bytes(frame.txn_id as nat, 8));
            assert(bytes.subrange(9, 13) =~= le_bytes(frame.page_id.0 as nat, 4));
            assert(bytes.subrange(13, 17) =~= le_bytes(PAGE_SIZE as nat, 4));
            assert(bytes.subrange(17, 17 + PAGE_SIZE) =~= frame.page_bytes);
            assert(first_frame(bytes) =~= frame);
            assert(bytes.skip(17 + PAGE_SIZE) =~= tail);
        },
        LogRecord::Commit { txn_id, frame_count } => {
            lemma_le_round_trip(txn_id as nat, 8);
            lemma_le_round_trip(frame_count as nat, 4);
            assert(bytes[0] == 2);
            assert(bytes.subrange(1, 9) =~= le_bytes(txn_id as nat, 8));
            assert(bytes.subrange(9, 13) =~= le_bytes(frame_count as nat, 4));
            assert(bytes.skip(13) =~= tail);
        },
    }
}

proof fn lemma_recover_log(
    records: Seq<LogRecord>,
    tail: Seq<u8>,
    pending: Map<u64, Seq<FrameView>>,
    committed: Seq<FrameView>,
)
    requires
        forall|i: int| 0 <= i < records.len() ==> writable(#[trigger] records[i]),
        torn(tail),
    ensures
        recovered(log_bytes(records) + tail, pending, committed) == Ok::<_, ErrorView>(
            replay(records, pending, committed),
        ),
    decreases records.len(),
{
    if records.len() == 0 {
        assert(log_bytes(records) + tail =~= tail);
        if tail.len() > 0 {
            let next = choose|next: LogRecord| #[trigger]
                writable(next) && tail.len() < record_bytes(next).len() && tail
                    == record_bytes(next).take(tail.len() as int);
            let whole = record_bytes(next);
            lemma_record_len(next);
            lemma_byte_ranges();
            assert(tail[0] == whole[0]);
            match next {
                LogRecord::Frame(frame) => {
                    lemma_le_bytes_len(frame.txn_id as nat, 8);
                    lemma_le_bytes_len(frame.page_id.0 as nat, 4);
                    lemma_le_round_trip(PAGE_SIZE as nat, 4);
                    if tail.len() >= 17 {
                        assert(whole.subrange(13, 17) =~= le_bytes(PAGE_SIZE as nat, 4));
                        assert(tail.subrange(13, 17) =~= whole.subrange(13, 17));
                    }
                },
                LogRecord::Commit { .. } => {},
            }
        }
    } else {
        let rest = records.drop_first();
        assert(log_bytes(records) + tail =~= record_bytes(records[0]) + (log_bytes(rest) + tail));
        lemma_recover_record(records[0], log_bytes(rest) + tail, pending, committed);
        assert forall|i: int| 0 <= i < rest.len() implies writable(#[trigger] rest[i]) by {
            assert(rest[i] == records[i + 1]);
        }
        match records[0] {
            LogRecord::Frame(frame) => {
                lemma_recover_log(rest, tail, hold_frame(pending, frame), committed);
            },
            LogRecord::Commit { txn_id, frame_count } => {
                lemma_recover_log(
                    rest,
                    tail,
                    pending.remove(txn_id),
                    committed + released(pending, txn_id, frame_count as nat),
                );
            },
        }
    }
}

/// Whether some bytes are what is left of a record whose writing was cut off.
pub open spec fn torn(tail: Seq<u8>) -> bool {
    tail.len() == 0 || exists|next: LogRecord| #[trigger]
        writable(next) && tail.len() < record_bytes(next).len() && tail == record_bytes(next).take(
            tail.len() as int,
        )
}

/// Recovering a log that was written record by record, and whose last record may have been
/// cut off, gives the frames of its committed transactions.
pub proof fn law_recovery_replays_log(records: Seq<LogRecord>, tail: Seq<u8>)
    requires
        forall|i: int| 0 <= i < records.len() ==> writable(#[trigger] records[i]),
        torn(tail),
    ensures
        recovered(log_bytes(records) + tail, Map::empty(), Seq::empty()) == Ok::<_, ErrorView>(
            replay(records, Map::empty(), Seq::empty()),
        ),
{
    lemma_recover_log(records, tail, Map::empty(), Seq::empty());
}

/// Whether a sequence of records commits a transaction.
pub open spec fn commits(records: Seq<LogRecord>, txn_id: u64) -> bool {
    exists|i: int|
        0 <= i < records.len() && (#[trigger] records[i] matches LogRecord::Commit {
            txn_id: t,
            ..
        } && t == txn_id)
}

proof fn lemma_replay_committed(
    records: Seq<LogRecord>,
    pending: Map<u64, Seq<FrameView>>,
    committed: Seq<FrameView>,
    i: int,
)
    requires
        forall|t: u64, j: int|
            pending.dom().contains(t) && 0 <= j < pending[t].len() ==> (#[trigger] pending[t][j]).txn_id
                == t,
        0 <= i < replay(records, pending, committed).len(),
    ensures
        i < committed.len() && replay(records, pending, committed)[i] == committed[i] || commits(
            records,
            replay(records, pending, committed)[i].txn_id,
        ),
    decreases records.len(),
{
    if records.len() > 0 {
        let rest = records.drop_first();
        let result = replay(records, pending, committed);
        match records[0] {
            LogRecord::Frame(frame) => {
                let held = hold_frame(pending, frame);
                assert forall|t: u64, j: int|
                    held.dom().contains(t) && 0 <= j < held[t].len() implies (
                #[trigger] held[t][j]).txn_id == t by {
                    if t == frame.txn_id {
                        if j < pending_of(pending, t).len() {
                            assert(held[t][j] == pending[t][j]);
                        }
                    } else {
                        assert(held[t] == pending[t]);
                        assert(held[t][j] == pending[t][j]);
                    }
                }
                lemma_replay_committed(rest, held, committed, i);
            },
            LogRecord::Commit { txn_id, frame_count } => {
                let freed = released(pending, txn_id, frame_count as nat);
                assert forall|t: u64, j: int|
                    pending.remove(txn_id).dom().contains(t) && 0 <= j < pending.remove(
                        txn_id,
                    )[t].len() implies (#[trigger] pending.remove(txn_id)[t][j]).txn_id == t by {
                    assert(pending[t][j].txn_id == t);
                }
                lemma_replay_committed(rest, pending.remove(txn_id), committed + freed, i);
                if i < (committed + freed).len() && result[i] == (committed + freed)[i] && i
                    >= committed.len() {
                    assert(pending[txn_id][i - committed.len()].txn_id == txn_id);
                    assert(records[0] matches LogRecord::Commit { txn_id: t, .. } && t == txn_id);
                }
            },
        }
        if commits(rest, result[i].txn_id) {
            let k = choose|k: int|
                0 <= k < rest.len() && (#[trigger] rest[k] matches LogRecord::Commit {
                    txn_id: t,
                    ..
                } && t == result[i].txn_id);
            assert(records[k + 1] == rest[k]);
        }
    }
}

/// Every frame that a log gives back belongs to a transaction that the log commits.
pub proof fn law_recovery_only_committed(records: Seq<LogRecord>, i: int)
    requires
        0 <= i < replay(records, Map::empty(), Seq::empty()).len(),
    ensures
        commits(records, replay(records, Map::empty(), Seq::empty())[i].txn_id),
{
    lemma_replay_committed(records, Map::empty(), Seq::empty(), i);
}

} // verus!
