//! Errors of the storage engines.

use vstd::prelude::*;

use crate::common::ordmap::Duplicate;

verus! {

/// What went wrong, with the numbers that belong to it.
#[derive(Debug, Clone, Copy, PartialEq, Eq, Structural)]
pub enum ErrorCode {
    UnknownPageKind(u8),
    MetaPageKind,
    PayloadTooLarge(usize),
    WrongPageKind { expected: u8, found: u8 },
    PayloadLength(usize),
    PageBufferSize,
    PageMagic,
    WalFrameSize,
    WalFrameLength { page: u32, len: usize },
    WalRecordType(u8),
    TxnAlreadyRegistered(u64),
    TxnNotActive(u64),
    TxnAlreadyActive(u64),
    PageWriteConflict { page: u32, owner: u64 },
    PageWriteWait { page: u32, ahead: u64 },
    PageDeadlock { txn: u64, other: u64, page: u32, victim: u64 },
    TableLockConflict,
    TableLockWait { ahead: u64 },
    TableLockDeadlock { victim: u64 },
    TableWaitDeadlock { victim: u64 },
    SerializableConflict,
    PredicateWriteWait { ahead: u64 },
    PredicateWriteDeadlock { victim: u64 },
    PredicateWaitDeadlock { victim: u64 },
    PurgeRecordMissing(u64),
    PurgeRecordOrder(u64),
    Storage,
    Plan,
    PageWriteSize,
    ShortFile,
    DatabaseFull,
    TxnNumbersUsedUp,
    LockEpochsUsedUp,
    Json,
    JsonShape,
    NotTreePage { page: u32, kind: u8 },
    LeafExpected(u32),
    TreeTooDeep,
    BrokenNode(u32),
    RowNumbersUsedUp,
    CommitStampsUsedUp,
    SnapshotNeedsTxn,
    NoTxnActive,
    OtherTxnActive { txn: u64, active: u64 },
    PageOutOfBounds { page: u32, count: u32 },
}

/// An error: what went wrong, and the names that belong to it.
#[derive(Debug)]
pub struct DbError {
    pub code: ErrorCode,
    pub subject: String,
    pub detail: String,
}

/// The model of an error.
#[verifier::ext_equal]
pub struct ErrorView {
    pub code: ErrorCode,
    pub subject: Seq<char>,
    pub detail: Seq<char>,
}

/// The result of an operation that can fail.
pub type DbResult<T> = core::result::Result<T, DbError>;

impl View for DbError {
    type V = ErrorView;

    open spec fn view(&self) -> ErrorView {
        ErrorView { code: self.code, subject: self.subject@, detail: self.detail@ }
    }
}

impl DeepView for DbError {
    type V = ErrorView;

    open spec fn deep_view(&self) -> ErrorView {
        self@
    }
}

impl Duplicate for DbError {
    fn duplicate(&self) -> (r: DbError) {
        self.copy()
    }
}

/// An error without names.
pub open spec fn bare(code: ErrorCode) -> ErrorView {
    ErrorView { code, subject: Seq::empty(), detail: Seq::empty() }
}

/// An error with one name.
pub open spec fn about(code: ErrorCode, subject: Seq<char>) -> ErrorView {
    ErrorView { code, subject, detail: Seq::empty() }
}

/// An error with two names.
pub open spec fn about_both(code: ErrorCode, subject: Seq<char>, detail: Seq<char>) -> ErrorView {
    ErrorView { code, subject, detail }
}

/// A failure of a storage engine, told in words.
pub open spec fn storage(message: Seq<char>) -> ErrorView {
    about(ErrorCode::Storage, message)
}

/// The model of a result.
pub open spec fn result_view<T: View>(r: DbResult<T>) -> core::result::Result<T::V, ErrorView> {
    match r {
        Ok(v) => Ok(v@),
        Err(e) => Err(e@),
    }
}

/// The model of a result whose value is its own model.
pub open spec fn plain_result<T>(r: DbResult<T>) -> core::result::Result<T, ErrorView> {
    match r {
        Ok(v) => Ok(v),
        Err(e) => Err(e@),
    }
}

impl DbError {
    /// A failure of a storage engine, told in words.
    pub fn storage(message: &str) -> (r: DbError)
        ensures
            r@ == storage(message@),
    {
        DbError::about(ErrorCode::Storage, message)
    }

    /// Makes an error without names.
    pub fn bare(code: ErrorCode) -> (r: DbError)
        ensures
            r@ == bare(code),
    {
        DbError { code, subject: String::new(), detail: String::new() }
    }

    /// Makes an error with one name.
    pub fn about(code: ErrorCode, subject: &str) -> (r: DbError)
        ensures
            r@ == about(code, subject@),
    {
        DbError { code, subject: subject.to_owned(), detail: String::new() }
    }

    /// Makes an error with two names.
    pub fn about_both(code: ErrorCode, subject: &str, detail: &str) -> (r: DbError)
        ensures
            r@ == about_both(code, subject@, detail@),
    {
        DbError { code, subject: subject.to_owned(), detail: detail.to_owned() }
    }

    /// Copies an error.
    pub fn copy(&self) -> (r: DbError)
        ensures
            r@ == self@,
    {
        DbError { code: self.code, subject: self.subject.clone(), detail: self.detail.clone() }
    }

    /// Whether two transactions waited for each other.
    pub fn is_deadlock(&self) -> (r: bool)
        ensures
            r == is_deadlock(self.code),
    {
        match self.code {
            ErrorCode::PageDeadlock { .. } => true,
            ErrorCode::TableLockDeadlock { .. } => true,
            ErrorCode::TableWaitDeadlock { .. } => true,
            ErrorCode::PredicateWriteDeadlock { .. } => true,
            ErrorCode::PredicateWaitDeadlock { .. } => true,
            _ => false,
        }
    }

    /// Whether a page or predicate write may be tried again once another transaction ends.
    pub fn is_write_wait(&self) -> (r: bool)
        ensures
            r == is_write_wait(self.code),
    {
        match self.code {
            ErrorCode::PageWriteConflict { .. } => true,
            ErrorCode::PageWriteWait { .. } => true,
            ErrorCode::SerializableConflict => true,
            ErrorCode::PredicateWriteWait { .. } => true,
            _ => false,
        }
    }

    /// The page that a write has to wait for, if it has to wait for one.
    pub fn page_waited_for(&self) -> (r: Option<u32>)
        ensures
            r == page_waited_for(self.code),
    {
        match self.code {
            ErrorCode::PageWriteConflict { page, .. } => Some(page),
            ErrorCode::PageWriteWait { page, .. } => Some(page),
            _ => None,
        }
    }
}

/// The page that an error says a write has to wait for.
pub open spec fn page_waited_for(code: ErrorCode) -> Option<u32> {
    match code {
        ErrorCode::PageWriteConflict { page, .. } => Some(page),
        ErrorCode::PageWriteWait { page, .. } => Some(page),
        _ => None,
    }
}

/// Whether an error says that two transactions waited for each other.
pub open spec fn is_deadlock(code: ErrorCode) -> bool {
    match code {
        ErrorCode::PageDeadlock { .. } => true,
        ErrorCode::TableLockDeadlock { .. } => true,
        ErrorCode::TableWaitDeadlock { .. } => true,
        ErrorCode::PredicateWriteDeadlock { .. } => true,
        ErrorCode::PredicateWaitDeadlock { .. } => true,
        _ => false,
    }
}

/// Whether an error says that a page or predicate write has to wait.
pub open spec fn is_write_wait(code: ErrorCode) -> bool {
    match code {
        ErrorCode::PageWriteConflict { .. } => true,
        ErrorCode::PageWriteWait { .. } => true,
        ErrorCode::SerializableConflict => true,
        ErrorCode::PredicateWriteWait { .. } => true,
        _ => false,
    }
}

} // verus!
