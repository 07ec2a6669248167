//! What errors say.

use vstd::prelude::*;

use crate::common::error::{DbError, ErrorCode, ErrorView};
use crate::common::text::{nat_text, u64_text};
use crate::v2::page::PAGE_CAPACITY;

verus! {

/// The family that an error belongs to.
#[derive(Debug, Clone, Copy, PartialEq, Eq, Structural)]
pub enum ErrorKind {
    Storage,
    Txn,
    Plan,
}

/// The name of a kind of page.
pub open spec fn page_kind_name(kind: u8) -> Seq<char> {
    if kind == 1 {
        "Meta"@
    } else if kind == 2 {
        "Catalog"@
    } else if kind == 3 {
        "Leaf"@
    } else if kind == 4 {
        "Internal"@
    } else {
        "Unknown"@
    }
}

fn kind_name(kind: u8) -> (r: &'static str)
    ensures
        r@ == page_kind_name(kind),
{
    if kind == 1 {
        "Meta"
    } else if kind == 2 {
        "Catalog"
    } else if kind == 3 {
        "Leaf"
    } else if kind == 4 {
        "Internal"
    } else {
        "Unknown"
    }
}

/// The words of an error.
pub open spec fn message_of(e: ErrorView) -> Seq<char> {
    match e.code {
        ErrorCode::UnknownPageKind(n) => "unknown storage_v2 page kind: "@ + nat_text(n as nat),
        ErrorCode::MetaPageKind => "storage_v2 meta page has wrong page kind"@,
        ErrorCode::PayloadTooLarge(n) => "payload of "@ + nat_text(n as nat) + " bytes exceeds page capacity "@ + nat_text(PAGE_CAPACITY as nat),
        ErrorCode::WrongPageKind { expected, found } => "expected "@ + page_kind_name(expected) + " page but found "@ + page_kind_name(found),
        ErrorCode::PayloadLength(n) => "page payload length "@ + nat_text(n as nat) + " exceeds capacity"@,
        ErrorCode::PageBufferSize => "storage_v2 page buffer must be exactly 4096 bytes"@,
        ErrorCode::PageMagic => "invalid storage_v2 page magic"@,
        ErrorCode::WalFrameSize => "wal frames must contain exactly 4096 bytes"@,
        ErrorCode::WalFrameLength { page, len } => "wal frame for page "@ + nat_text(page as nat) + " had "@ + nat_text(len as nat) + " bytes instead of 4096"@,
        ErrorCode::WalRecordType(n) => "unknown storage_v2 wal record type: "@ + nat_text(n as nat),
        ErrorCode::TxnAlreadyRegistered(n) => "transaction "@ + nat_text(n as nat) + " is already registered"@,
        ErrorCode::TxnNotActive(n) => "transaction "@ + nat_text(n as nat) + " is not active"@,
        ErrorCode::TxnAlreadyActive(n) => "transaction "@ + nat_text(n as nat) + " is already active"@,
        ErrorCode::PageWriteConflict { page, owner } => "page write conflict on page "@ + nat_text(page as nat) + " held by transaction "@ + nat_text(owner as nat),
        ErrorCode::PageWriteWait { page, ahead } => "page write wait on page "@ + nat_text(page as nat) + "; transaction "@ + nat_text(ahead as nat) + " is ahead in queue"@,
        ErrorCode::PageDeadlock { txn, other, page, victim } => "deadlock detected between transactions "@ + nat_text(txn as nat) + " and "@ + nat_text(other as nat) + " on page "@ + nat_text(page as nat) + "; victim transaction "@ + nat_text(victim as nat) + " aborted"@,
        ErrorCode::TableLockConflict => "table lock wait on "@ + e.subject + "; waiting on transactions "@ + e.detail,
        ErrorCode::TableLockWait { ahead } => "table lock wait on "@ + e.subject + "; transaction "@ + nat_text(ahead as nat) + " is ahead in queue"@,
        ErrorCode::TableLockDeadlock { victim } => "deadlock detected while acquiring table lock on "@ + e.subject + "; victim transaction "@ + nat_text(victim as nat) + " aborted"@,
        ErrorCode::TableWaitDeadlock { victim } => "deadlock detected while waiting for table lock on "@ + e.subject + "; victim transaction "@ + nat_text(victim as nat) + " aborted"@,
        ErrorCode::SerializableConflict => "serializable conflict on table "@ + e.subject + "; waiting on transactions "@ + e.detail,
        ErrorCode::PredicateWriteWait { ahead } => "predicate write wait on table "@ + e.subject + "; transaction "@ + nat_text(ahead as nat) + " is ahead in queue"@,
        ErrorCode::PredicateWriteDeadlock { victim } => "deadlock detected while writing table "@ + e.subject + "; victim transaction "@ + nat_text(victim as nat) + " aborted"@,
        ErrorCode::PredicateWaitDeadlock { victim } => "deadlock detected while waiting for predicate write on table "@ + e.subject + "; victim transaction "@ + nat_text(victim as nat) + " aborted"@,
        ErrorCode::PurgeRecordMissing(n) => "missing purge record for transaction "@ + nat_text(n as nat),
        ErrorCode::PurgeRecordOrder(n) => "purge record order mismatch for transaction "@ + nat_text(n as nat),
        ErrorCode::Storage => e.subject,
        ErrorCode::Plan => e.subject,
        ErrorCode::PageWriteSize => "storage_v2 page writes require exactly 4096 bytes"@,
        ErrorCode::ShortFile => "storage_v2 file ends within a page"@,
        ErrorCode::DatabaseFull => "storage_v2 page numbers are used up"@,
        ErrorCode::TxnNumbersUsedUp => "transaction numbers are used up"@,
        ErrorCode::LockEpochsUsedUp => "lock epochs are used up"@,
        ErrorCode::Json => e.subject,
        ErrorCode::JsonShape => "the JSON value has an unexpected shape"@,
        ErrorCode::NotTreePage { page, kind } => "page "@ + nat_text(page as nat) + " has non-tree page kind "@ + page_kind_name(kind),
        ErrorCode::LeafExpected(n) => "expected leaf page "@ + nat_text(n as nat) + " while scanning B+Tree leaf chain"@,
        ErrorCode::TreeTooDeep => "B+Tree has more levels than the database has pages"@,
        ErrorCode::BrokenNode(n) => "B+Tree node on page "@ + nat_text(n as nat) + " lacks a child or a key"@,
        ErrorCode::RowNumbersUsedUp => "row numbers are used up"@,
        ErrorCode::CommitStampsUsedUp => "commit timestamps are used up"@,
        ErrorCode::SnapshotNeedsTxn => "metadata snapshot requires the active transaction id while a transaction is open"@,
        ErrorCode::NoTxnActive => "no active transaction"@,
        ErrorCode::OtherTxnActive { txn, active } => "transaction "@ + nat_text(txn as nat) + " is not active; current transaction is "@ + nat_text(active as nat),
        ErrorCode::PageOutOfBounds { page, count } => "page "@ + nat_text(page as nat) + " is out of bounds for database with "@ + nat_text(count as nat) + " pages"@,
    }
}

/// The family that an error belongs to.
pub open spec fn kind_of(code: ErrorCode) -> ErrorKind {
    match code {
        ErrorCode::TxnAlreadyRegistered(_) => ErrorKind::Txn,
        ErrorCode::TxnNotActive(_) => ErrorKind::Txn,
        ErrorCode::TxnAlreadyActive(_) => ErrorKind::Txn,
        ErrorCode::PageWriteConflict { .. } => ErrorKind::Txn,
        ErrorCode::PageWriteWait { .. } => ErrorKind::Txn,
        ErrorCode::PageDeadlock { .. } => ErrorKind::Txn,
        ErrorCode::TableLockConflict => ErrorKind::Txn,
        ErrorCode::TableLockWait { .. } => ErrorKind::Txn,
        ErrorCode::TableLockDeadlock { .. } => ErrorKind::Txn,
        ErrorCode::TableWaitDeadlock { .. } => ErrorKind::Txn,
        ErrorCode::SerializableConflict => ErrorKind::Txn,
        ErrorCode::PredicateWriteWait { .. } => ErrorKind::Txn,
        ErrorCode::PredicateWriteDeadlock { .. } => ErrorKind::Txn,
        ErrorCode::PredicateWaitDeadlock { .. } => ErrorKind::Txn,
        ErrorCode::Plan => ErrorKind::Plan,
        ErrorCode::TxnNumbersUsedUp => ErrorKind::Txn,
        ErrorCode::LockEpochsUsedUp => ErrorKind::Txn,
        ErrorCode::CommitStampsUsedUp => ErrorKind::Txn,
        ErrorCode::SnapshotNeedsTxn => ErrorKind::Txn,
        ErrorCode::NoTxnActive => ErrorKind::Txn,
        ErrorCode::OtherTxnActive { .. } => ErrorKind::Txn,
        _ => ErrorKind::Storage,
    }
}

impl DbError {
    /// The words of the error.
    pub fn message(&self) -> (r: String)
        ensures
            r@ == message_of(self@),
    {
        match self.code {
            ErrorCode::UnknownPageKind(n) => {
                let mut r = "unknown storage_v2 page kind: ".to_owned();
                r.append(u64_text(n as u64).as_str());
                r
            },
            ErrorCode::MetaPageKind => "storage_v2 meta page has wrong page kind".to_owned(),
            ErrorCode::PayloadTooLarge(n) => {
                let mut r = "payload of ".to_owned();
                r.append(u64_text(n as u64).as_str());
                r.append(" bytes exceeds page capacity ");
                r.append(u64_text(PAGE_CAPACITY as u64).as_str());
                r
            },
            ErrorCode::WrongPageKind { expected, found } => {
                let mut r = "expected ".to_owned();
                r.append(kind_name(expected));
                r.append(" page but found ");
                r.append(kind_name(found));
                r
            },
            ErrorCode::PayloadLength(n) => {
                let mut r = "page payload length ".to_owned();
                r.append(u64_text(n as u64).as_str());
                r.append(" exceeds capacity");
                r
            },
            ErrorCode::PageBufferSize => "storage_v2 page buffer must be exactly 4096 bytes".to_owned(),
            ErrorCode::PageMagic => "invalid storage_v2 page magic".to_owned(),
            ErrorCode::WalFrameSize => "wal frames must contain exactly 4096 bytes".to_owned(),
            ErrorCode::WalFrameLength { page, len } => {
                let mut r = "wal frame for page ".to_owned();
                r.append(u64_text(page as u64).as_str());
                r.append(" had ");
                r.append(u64_text(len as u64).as_str());
                r.append(" bytes instead of 4096");
                r
            },
            ErrorCode::WalRecordType(n) => {
                let mut r = "unknown storage_v2 wal record type: ".to_owned();
                r.append(u64_text(n as u64).as_str());
                r
            },
            ErrorCode::TxnAlreadyRegistered(n) => {
                let mut r = "transaction ".to_owned();
                r.append(u64_text(n as u64).as_str());
                r.append(" is already registered");
                r
            },
            ErrorCode::TxnNotActive(n) => {
                let mut r = "transaction ".to_owned();
                r.append(u64_text(n as u64).as_str());
                r.append(" is not active");
                r
            },
            ErrorCode::TxnAlreadyActive(n) => {
                let mut r = "transaction ".to_owned();
                r.append(u64_text(n as u64).as_str());
                r.append(" is already active");
                r
            },
            ErrorCode::PageWriteConflict { page, owner } => {
                let mut r = "page write conflict on page ".to_owned();
                r.append(u64_text(page as u64).as_str());
                r.append(" held by transaction ");
                r.append(u64_text(owner as u64).as_str());
                r
            },
            ErrorCode::PageWriteWait { page, ahead } => {
                let mut r = "page write wait on page ".to_owned();
                r.append(u64_text(page as u64).as_str());
                r.append("; transaction ");
                r.append(u64_text(ahead as u64).as_str());
                r.append(" is ahead in queue");
                r
            },
            ErrorCode::PageDeadlock { txn, other, page, victim } => {
                let mut r = "deadlock detected between transactions ".to_owned();
                r.append(u64_text(txn as u64).as_str());
                r.append(" and ");
                r.append(u64_text(other as u64).as_str());
                r.append(" on page ");
                r.append(u64_text(page as u64).as_str());
                r.append("; victim transaction ");
                r.append(u64_text(victim as u64).as_str());
                r.append(" aborted");
                r
            },
            ErrorCode::TableLockConflict => {
                let mut r = "table lock wait on ".to_owned();
                r.append(self.subject.as_str());
                r.append("; waiting on transactions ");
                r.append(self.detail.as_str());
                r
            },
            ErrorCode::TableLockWait { ahead } => {
                let mut r = "table lock wait on ".to_owned();
                r.append(self.subject.as_str());
                r.append("; transaction ");
                r.append(u64_text(ahead as u64).as_str());
                r.append(" is ahead in queue");
                r
            },
            ErrorCode::TableLockDeadlock { victim } => {
                let mut r = "deadlock detected while acquiring table lock on ".to_owned();
                r.append(self.subject.as_str());
                r.append("; victim transaction ");
                r.append(u64_text(victim as u64).as_str());
                r.append(" aborted");
                r
            },
            ErrorCode::TableWaitDeadlock { victim } => {
                let mut r = "deadlock detected while waiting for table lock on ".to_owned();
                r.append(self.subject.as_str());
                r.append("; victim transaction ");
                r.append(u64_text(victim as u64).as_str());
                r.append(" aborted");
                r
            },
            ErrorCode::SerializableConflict => {
                let mut r = "serializable conflict on table ".to_owned();
                r.append(self.subject.as_str());
                r.append("; waiting on transactions ");
                r.append(self.detail.as_str());
                r
            },
            ErrorCode::PredicateWriteWait { ahead } => {
                let mut r = "predicate write wait on table ".to_owned();
                r.append(self.subject.as_str());
                r.append("; transaction ");
                r.append(u64_text(ahead as u64).as_str());
                r.append(" is ahead in queue");
                r
            },
            ErrorCode::PredicateWriteDeadlock { victim } => {
                let mut r = "deadlock detected while writing table ".to_owned();
                r.append(self.subject.as_str());
                r.append("; victim transaction ");
                r.append(u64_text(victim as u64).as_str());
                r.append(" aborted");
                r
            },
            ErrorCode::PredicateWaitDeadlock { victim } => {
                let mut r = "deadlock detected while waiting for predicate write on table ".to_owned();
                r.append(self.subject.as_str());
                r.append("; victim transaction ");
                r.append(u64_text(victim as u64).as_str());
                r.append(" aborted");
                r
            },
            ErrorCode::PurgeRecordMissing(n) => {
                let mut r = "missing purge record for transaction ".to_owned();
                r.append(u64_text(n as u64).as_str());
                r
            },
            ErrorCode::PurgeRecordOrder(n) => {
                let mut r = "purge record order mismatch for transaction ".to_owned();
                r.append(u64_text(n as u64).as_str());
                r
            },
            ErrorCode::Storage => self.subject.clone(),
            ErrorCode::Plan => self.subject.clone(),
            ErrorCode::PageWriteSize => "storage_v2 page writes require exactly 4096 bytes".to_owned(),
            ErrorCode::ShortFile => "storage_v2 file ends within a page".to_owned(),
            ErrorCode::DatabaseFull => "storage_v2 page numbers are used up".to_owned(),
            ErrorCode::TxnNumbersUsedUp => "transaction numbers are used up".to_owned(),
            ErrorCode::LockEpochsUsedUp => "lock epochs are used up".to_owned(),
            ErrorCode::Json => self.subject.clone(),
            ErrorCode::JsonShape => "the JSON value has an unexpected shape".to_owned(),
            ErrorCode::NotTreePage { page, kind } => {
                let mut r = "page ".to_owned();
                r.append(u64_text(page as u64).as_str());
                r.append(" has non-tree page kind ");
                r.append(kind_name(kind));
                r
            },
            ErrorCode::LeafExpected(n) => {
                let mut r = "expected leaf page ".to_owned();
                r.append(u64_text(n as u64).as_str());
                r.append(" while scanning B+Tree leaf chain");
                r
            },
            ErrorCode::TreeTooDeep => "B+Tree has more levels than the database has pages".to_owned(),
            ErrorCode::BrokenNode(n) => {
                let mut r = "B+Tree node on page ".to_owned();
                r.append(u64_text(n as u64).as_str());
                r.append(" lacks a child or a key");
                r
            },
            ErrorCode::RowNumbersUsedUp => "row numbers are used up".to_owned(),
            ErrorCode::CommitStampsUsedUp => "commit timestamps are used up".to_owned(),
            ErrorCode::SnapshotNeedsTxn => "metadata snapshot requires the active transaction id while a transaction is open".to_owned(),
            ErrorCode::NoTxnActive => "no active transaction".to_owned(),
            ErrorCode::OtherTxnActive { txn, active } => {
                let mut r = "transaction ".to_owned();
                r.append(u64_text(txn as u64).as_str());
                r.append(" is not active; current transaction is ");
                r.append(u64_text(active as u64).as_str());
                r
            },
            ErrorCode::PageOutOfBounds { page, count } => {
                let mut r = "page ".to_owned();
                r.append(u64_text(page as u64).as_str());
                r.append(" is out of bounds for database with ");
                r.append(u64_text(count as u64).as_str());
                r.append(" pages");
                r
            },
        }
    }

    /// The family that the error belongs to.
    pub fn kind(&self) -> (r: ErrorKind)
        ensures
            r == kind_of(self.code),
    {
        match self.code {
            ErrorCode::TxnAlreadyRegistered(_) => ErrorKind::Txn,
            ErrorCode::TxnNotActive(_) => ErrorKind::Txn,
            ErrorCode::TxnAlreadyActive(_) => ErrorKind::Txn,
            ErrorCode::PageWriteConflict { .. } => ErrorKind::Txn,
            ErrorCode::PageWriteWait { .. } => ErrorKind::Txn,
            ErrorCode::PageDeadlock { .. } => ErrorKind::Txn,
            ErrorCode::TableLockConflict => ErrorKind::Txn,
            ErrorCode::TableLockWait { .. } => ErrorKind::Txn,
            ErrorCode::TableLockDeadlock { .. } => ErrorKind::Txn,
            ErrorCode::TableWaitDeadlock { .. } => ErrorKind::Txn,
            ErrorCode::SerializableConflict => ErrorKind::Txn,
            ErrorCode::PredicateWriteWait { .. } => ErrorKind::Txn,
            ErrorCode::PredicateWriteDeadlock { .. } => ErrorKind::Txn,
            ErrorCode::PredicateWaitDeadlock { .. } => ErrorKind::Txn,
            ErrorCode::Plan => ErrorKind::Plan,
            ErrorCode::TxnNumbersUsedUp => ErrorKind::Txn,
            ErrorCode::LockEpochsUsedUp => ErrorKind::Txn,
            ErrorCode::CommitStampsUsedUp => ErrorKind::Txn,
            ErrorCode::SnapshotNeedsTxn => ErrorKind::Txn,
            ErrorCode::NoTxnActive => ErrorKind::Txn,
            ErrorCode::OtherTxnActive { .. } => ErrorKind::Txn,
            _ => ErrorKind::Storage,
        }
    }
}

} // verus!
