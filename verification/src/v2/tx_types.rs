//! What is known of a transaction: its snapshot, what it wrote and how to undo it.

use vstd::prelude::*;

use crate::common::bytes::{copy_bytes, same_bytes};
use crate::common::error::{DbError, ErrorView};
use crate::common::ordmap::Duplicate;
use crate::common::ordset::OrdSet;
use crate::common::value::{
    copy_values, same_values, IsolationLevel, RowId, SqlValue, TransactionId, DbValue,
};
use crate::v2::page::PageId;

verus! {

/// How far a transaction has come.
#[derive(Debug, Clone, Copy, PartialEq, Eq, Structural)]
pub enum TxnStatus {
    Active,
    Committed,
    Aborted,
}

/// What a transaction can see: commits up to a timestamp, and the transactions that were
/// active when it was taken.
pub struct TxnSnapshot {
    pub visible_up_to: u64,
    pub active_txns: OrdSet<TransactionId>,
}

/// The model of a snapshot.
#[verifier::ext_equal]
pub struct SnapshotView {
    pub visible_up_to: u64,
    pub active_txns: Set<TransactionId>,
}

impl DeepView for TxnSnapshot {
    type V = SnapshotView;

    open spec fn deep_view(&self) -> SnapshotView {
        SnapshotView { visible_up_to: self.visible_up_to, active_txns: self.active_txns@ }
    }
}

impl TxnSnapshot {
    /// Copies a snapshot.
    pub fn copy(&self) -> (r: TxnSnapshot)
        ensures
            r.deep_view() == self.deep_view(),
    {
        TxnSnapshot { visible_up_to: self.visible_up_to, active_txns: self.active_txns.copy() }
    }
}

/// A page that a transaction wrote, before and after.
pub struct PageWriteSetEntry {
    pub page_id: PageId,
    pub before_image: Option<Vec<u8>>,
    pub after_image: Vec<u8>,
}

/// The model of a written page.
#[verifier::ext_equal]
pub struct PageWriteView {
    pub page_id: PageId,
    pub before_image: Option<Seq<u8>>,
    pub after_image: Seq<u8>,
}

/// The model of an optional page image.
pub open spec fn image_view(image: Option<Vec<u8>>) -> Option<Seq<u8>> {
    match image {
        Some(bytes) => Some(bytes@),
        None => None,
    }
}

impl DeepView for PageWriteSetEntry {
    type V = PageWriteView;

    open spec fn deep_view(&self) -> PageWriteView {
        PageWriteView {
            page_id: self.page_id,
            before_image: image_view(self.before_image),
            after_image: self.after_image@,
        }
    }
}

/// Copies an optional page image.
pub fn copy_image(image: &Option<Vec<u8>>) -> (r: Option<Vec<u8>>)
    ensures
        image_view(r) == image_view(*image),
{
    match image {
        Some(bytes) => Some(copy_bytes(bytes)),
        None => None,
    }
}

impl Duplicate for PageWriteSetEntry {
    fn duplicate(&self) -> (r: PageWriteSetEntry) {
        PageWriteSetEntry {
            page_id: self.page_id,
            before_image: copy_image(&self.before_image),
            after_image: copy_bytes(&self.after_image),
        }
    }
}

/// How to take back one change of a transaction.
pub enum UndoRecord {
    PageWrite { page_id: PageId },
    InsertRow { table: String, row_id: RowId },
    DeleteRow { table: String, row_id: RowId, previous_bytes: Vec<u8> },
    IndexInsert { table: String, index: String, row_id: RowId, key: Vec<DbValue> },
    IndexDelete { table: String, index: String, row_id: RowId, key: Vec<DbValue> },
}

/// The model of an undo record.
pub enum UndoView {
    PageWrite { page_id: PageId },
    InsertRow { table: Seq<char>, row_id: RowId },
    DeleteRow { table: Seq<char>, row_id: RowId, previous_bytes: Seq<u8> },
    IndexInsert { table: Seq<char>, index: Seq<char>, row_id: RowId, key: Seq<SqlValue> },
    IndexDelete { table: Seq<char>, index: Seq<char>, row_id: RowId, key: Seq<SqlValue> },
}

impl DeepView for UndoRecord {
    type V = UndoView;

    open spec fn deep_view(&self) -> UndoView {
        match self {
            UndoRecord::PageWrite { page_id } => UndoView::PageWrite { page_id: *page_id },
            UndoRecord::InsertRow { table, row_id } => UndoView::InsertRow {
                table: table@,
                row_id: *row_id,
            },
            UndoRecord::DeleteRow { table, row_id, previous_bytes } => UndoView::DeleteRow {
                table: table@,
                row_id: *row_id,
                previous_bytes: previous_bytes@,
            },
            UndoRecord::IndexInsert { table, index, row_id, key } => UndoView::IndexInsert {
                table: table@,
                index: index@,
                row_id: *row_id,
                key: key.deep_view(),
            },
            UndoRecord::IndexDelete { table, index, row_id, key } => UndoView::IndexDelete {
                table: table@,
                index: index@,
                row_id: *row_id,
                key: key.deep_view(),
            },
        }
    }
}

impl UndoRecord {
    /// Copies a record.
    pub fn copy(&self) -> (r: UndoRecord)
        ensures
            r.deep_view() == self.deep_view(),
    {
        match self {
            UndoRecord::PageWrite { page_id } => UndoRecord::PageWrite { page_id: *page_id },
            UndoRecord::InsertRow { table, row_id } => UndoRecord::InsertRow {
                table: table.clone(),
                row_id: *row_id,
            },
            UndoRecord::DeleteRow { table, row_id, previous_bytes } => UndoRecord::DeleteRow {
                table: table.clone(),
                row_id: *row_id,
                previous_bytes: copy_bytes(previous_bytes),
            },
            UndoRecord::IndexInsert { table, index, row_id, key } => UndoRecord::IndexInsert {
                table: table.clone(),
                index: index.clone(),
                row_id: *row_id,
                key: copy_values(key.as_slice()),
            },
            UndoRecord::IndexDelete { table, index, row_id, key } => UndoRecord::IndexDelete {
                table: table.clone(),
                index: index.clone(),
                row_id: *row_id,
                key: copy_values(key.as_slice()),
            },
        }
    }

    /// Whether two records are the same.
    pub fn same(&self, other: &UndoRecord) -> (r: bool)
        ensures
            r == (self.deep_view() == other.deep_view()),
    {
        match (self, other) {
            (UndoRecord::PageWrite { page_id: a }, UndoRecord::PageWrite { page_id: b }) => *a
                == *b,
            (
                UndoRecord::InsertRow { table: a, row_id: i },
                UndoRecord::InsertRow { table: b, row_id: j },
            ) => *a == *b && *i == *j,
            (
                UndoRecord::DeleteRow { table: a, row_id: i, previous_bytes: x },
                UndoRecord::DeleteRow { table: b, row_id: j, previous_bytes: y },
            ) => *a == *b && *i == *j && same_bytes(x.as_slice(), y.as_slice()),
            (
                UndoRecord::IndexInsert { table: a, index: m, row_id: i, key: x },
                UndoRecord::IndexInsert { table: b, index: n, row_id: j, key: y },
            ) => *a == *b && *m == *n && *i == *j && same_values(x.as_slice(), y.as_slice()),
            (
                UndoRecord::IndexDelete { table: a, index: m, row_id: i, key: x },
                UndoRecord::IndexDelete { table: b, index: n, row_id: j, key: y },
            ) => *a == *b && *m == *n && *i == *j && same_values(x.as_slice(), y.as_slice()),
            _ => false,
        }
    }

    /// Whether the record is about a deleted row.
    pub fn is_delete_row(&self) -> (r: bool)
        ensures
            r == (self.deep_view() is DeleteRow),
    {
        match self {
            UndoRecord::DeleteRow { .. } => true,
            _ => false,
        }
    }
}

impl Duplicate for UndoRecord {
    fn duplicate(&self) -> (r: UndoRecord) {
        self.copy()
    }
}

/// What a transaction wrote.
pub struct TxnWriteSet {
    pub touched_pages: OrdSet<PageId>,
    pub page_writes: Vec<PageWriteSetEntry>,
}

/// The model of a write set.
#[verifier::ext_equal]
pub struct WriteSetView {
    pub touched_pages: Set<PageId>,
    pub page_writes: Seq<PageWriteView>,
}

impl DeepView for TxnWriteSet {
    type V = WriteSetView;

    open spec fn deep_view(&self) -> WriteSetView {
        WriteSetView {
            touched_pages: self.touched_pages@,
            page_writes: self.page_writes.deep_view(),
        }
    }
}

impl Default for TxnWriteSet {
    fn default() -> (r: TxnWriteSet)
        ensures
            r.deep_view() == (WriteSetView {
                touched_pages: Set::empty(),
                page_writes: Seq::empty(),
            }),
    {
        let r = TxnWriteSet { touched_pages: OrdSet::new(), page_writes: Vec::new() };
        assert(r.deep_view() =~= WriteSetView {
            touched_pages: Set::empty(),
            page_writes: Seq::empty(),
        });
        r
    }
}

/// The state of a transaction.
pub struct TxnState {
    pub id: TransactionId,
    pub isolation_level: IsolationLevel,
    pub status: TxnStatus,
    pub terminal_error: Option<DbError>,
    pub start_ts: u64,
    pub commit_ts: Option<u64>,
    pub snapshot: TxnSnapshot,
    pub write_set: TxnWriteSet,
    pub undo_records: Vec<UndoRecord>,
    pub purge_records: Vec<UndoRecord>,
}

/// The model of the state of a transaction.
#[verifier::ext_equal]
pub struct TxnView {
    pub id: TransactionId,
    pub isolation_level: IsolationLevel,
    pub status: TxnStatus,
    pub terminal_error: Option<ErrorView>,
    pub start_ts: u64,
    pub commit_ts: Option<u64>,
    pub snapshot: SnapshotView,
    pub write_set: WriteSetView,
    pub undo_records: Seq<UndoView>,
    pub purge_records: Seq<UndoView>,
}

/// The model of an optional error.
pub open spec fn error_view(error: Option<DbError>) -> Option<ErrorView> {
    match error {
        Some(e) => Some(e@),
        None => None,
    }
}

impl DeepView for TxnState {
    type V = TxnView;

    open spec fn deep_view(&self) -> TxnView {
        TxnView {
            id: self.id,
            isolation_level: self.isolation_level,
            status: self.status,
            terminal_error: error_view(self.terminal_error),
            start_ts: self.start_ts,
            commit_ts: self.commit_ts,
            snapshot: self.snapshot.deep_view(),
            write_set: self.write_set.deep_view(),
            undo_records: self.undo_records.deep_view(),
            purge_records: self.purge_records.deep_view(),
        }
    }
}

impl Duplicate for TxnState {
    fn duplicate(&self) -> (r: TxnState) {
        TxnState {
            id: self.id,
            isolation_level: self.isolation_level,
            status: self.status,
            terminal_error: match &self.terminal_error {
                Some(error) => Some(error.duplicate()),
                None => None,
            },
            start_ts: self.start_ts,
            commit_ts: self.commit_ts,
            snapshot: self.snapshot.copy(),
            write_set: TxnWriteSet {
                touched_pages: self.write_set.touched_pages.copy(),
                page_writes: self.write_set.page_writes.duplicate(),
            },
            undo_records: self.undo_records.duplicate(),
            purge_records: self.purge_records.duplicate(),
        }
    }
}

} // verus!
