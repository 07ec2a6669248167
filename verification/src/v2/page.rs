//! Pages of the page-based engine: a magic number, a kind and a payload.

use vstd::prelude::*;

use crate::common::bytes::{
    le_bytes, le_value, lemma_byte_ranges, lemma_le_bytes_len, lemma_le_round_trip, push_le,
    put_bytes, read_le, slice_vec, splice, zero_vec,
};
use crate::common::error::{bare, DbError, DbResult, ErrorCode, ErrorView};
use crate::common::ordmap::{Order, OrdKey};

verus! {

/// The size of every page in bytes.
pub const PAGE_SIZE: usize = 4096;

const KIND_OFFSET: usize = 4;

const PAYLOAD_LEN_OFFSET: usize = 8;

const PAYLOAD_OFFSET: usize = 16;

/// The largest payload that a page holds.
pub const PAGE_CAPACITY: usize = 4080;

/// The number of a page.
#[derive(Debug, Clone, Copy, PartialEq, Eq, Hash, PartialOrd, Ord, Structural)]
pub struct PageId(pub u32);

impl Default for PageId {
    fn default() -> (r: PageId)
        ensures
            r == PageId(0),
    {
        PageId(0)
    }
}

impl DeepView for PageId {
    type V = PageId;

    open spec fn deep_view(&self) -> PageId {
        *self
    }
}

impl OrdKey for PageId {
    open spec fn before(a: PageId, b: PageId) -> bool {
        a.0 < b.0
    }

    proof fn before_irreflexive(a: PageId) {
    }

    proof fn before_transitive(a: PageId, b: PageId, c: PageId) {
    }

    proof fn before_total(a: PageId, b: PageId) {
    }

    fn compare(&self, other: &Self) -> (r: Order) {
        if self.0 < other.0 {
            Order::Less
        } else if self.0 == other.0 {
            Order::Equal
        } else {
            Order::Greater
        }
    }

    fn copy_key(&self) -> (r: Self) {
        *self
    }
}

/// What a page is for.
#[derive(Debug, Clone, Copy, PartialEq, Eq, Structural)]
pub enum PageKind {
    Meta,
    Catalog,
    Leaf,
    Internal,
}

/// The byte that stands for a page kind.
pub open spec fn kind_byte(kind: PageKind) -> u8 {
    match kind {
        PageKind::Meta => 1,
        PageKind::Catalog => 2,
        PageKind::Leaf => 3,
        PageKind::Internal => 4,
    }
}

impl PageKind {
    /// The byte that stands for the kind.
    pub fn to_byte(self) -> (r: u8)
        ensures
            r == kind_byte(self),
            1 <= r <= 4,
    {
        match self {
            PageKind::Meta => 1,
            PageKind::Catalog => 2,
            PageKind::Leaf => 3,
            PageKind::Internal => 4,
        }
    }

    /// The kind that a byte stands for.
    pub fn from_byte(value: u8) -> (r: DbResult<PageKind>)
        ensures
            match r {
                Ok(kind) => 1 <= value <= 4 && kind_byte(kind) == value,
                Err(e) => !(1 <= value <= 4) && e@ == bare(ErrorCode::UnknownPageKind(value)),
            },
    {
        match value {
            1 => Ok(PageKind::Meta),
            2 => Ok(PageKind::Catalog),
            3 => Ok(PageKind::Leaf),
            4 => Ok(PageKind::Internal),
            _ => Err(DbError::bare(ErrorCode::UnknownPageKind(value))),
        }
    }
}

/// The first page of a database: its size, where its catalog is and the next
/// transaction number.
#[derive(Debug, Clone, Copy, PartialEq, Eq, Structural)]
pub struct MetaPage {
    pub page_size: u32,
    pub page_count: u32,
    pub catalog_page_id: PageId,
    pub next_txn_id: u64,
}

/// The four bytes that every page starts with.
pub open spec fn magic() -> Seq<u8> {
    seq![82u8, 83u8, 86u8, 50u8]
}

/// A page of a kind with nothing in it.
pub open spec fn blank(kind: PageKind) -> Seq<u8> {
    splice(Seq::new(PAGE_SIZE as nat, |i: int| 0u8), 0, magic()).update(4, kind_byte(kind))
}

/// The payload of a meta page.
pub open spec fn meta_fields(meta: MetaPage) -> Seq<u8> {
    le_bytes(meta.page_size as nat, 4) + le_bytes(meta.page_count as nat, 4) + le_bytes(
        meta.catalog_page_id.0 as nat,
        4,
    ) + le_bytes(meta.next_txn_id as nat, 8)
}

/// The bytes of a meta page.
pub open spec fn meta_bytes(meta: MetaPage) -> Seq<u8> {
    splice(blank(PageKind::Meta), 16, meta_fields(meta))
}

/// What is wrong with a page buffer, if anything: its size, then its magic number.
pub open spec fn buffer_error(page: Seq<u8>) -> Option<ErrorView> {
    if page.len() != PAGE_SIZE {
        Some(bare(ErrorCode::PageBufferSize))
    } else if page.subrange(0, 4) != magic() {
        Some(bare(ErrorCode::PageMagic))
    } else {
        None
    }
}

/// What is wrong with a page before its payload is looked at, if anything.
pub open spec fn header_error(page: Seq<u8>) -> Option<ErrorView> {
    match buffer_error(page) {
        Some(e) => Some(e),
        None => if 1 <= page[4] <= 4 {
            None
        } else {
            Some(bare(ErrorCode::UnknownPageKind(page[4])))
        },
    }
}

/// What keeps a page from being read as a meta page, if anything.
pub open spec fn meta_error(page: Seq<u8>) -> Option<ErrorView> {
    match header_error(page) {
        Some(e) => Some(e),
        None => if page[4] == kind_byte(PageKind::Meta) {
            None
        } else {
            Some(bare(ErrorCode::MetaPageKind))
        },
    }
}

/// The length that a page gives for its payload.
pub open spec fn payload_len(page: Seq<u8>) -> nat {
    le_value(page.subrange(8, 12))
}

/// What keeps the payload of a page of a kind from being read, if anything.
pub open spec fn payload_error(page: Seq<u8>, kind: PageKind) -> Option<ErrorView> {
    match header_error(page) {
        Some(e) => Some(e),
        None => if page[4] != kind_byte(kind) {
            Some(bare(ErrorCode::WrongPageKind { expected: kind_byte(kind), found: page[4] }))
        } else if payload_len(page) > PAGE_CAPACITY {
            Some(bare(ErrorCode::PayloadLength(payload_len(page) as usize)))
        } else {
            None
        },
    }
}

/// A page of a kind that holds a payload.
pub open spec fn payload_page(kind: PageKind, payload: Seq<u8>) -> Seq<u8> {
    splice(splice(blank(kind), 8, le_bytes(payload.len(), 4)), 16, payload)
}

impl MetaPage {
    /// The bytes of the page.
    #[must_use]
    pub fn encode(&self) -> (page: Vec<u8>)
        ensures
            page@ == meta_bytes(*self),
            page@.len() == PAGE_SIZE,
    {
        let mut page = empty_page(PageKind::Meta);
        let mut fields: Vec<u8> = Vec::new();
        push_le(&mut fields, self.page_size as u64, 4);
        push_le(&mut fields, self.page_count as u64, 4);
        push_le(&mut fields, self.catalog_page_id.0 as u64, 4);
        push_le(&mut fields, self.next_txn_id, 8);
        proof {
            assert(fields@ =~= meta_fields(*self));
            lemma_meta_fields(*self);
        }
        put_bytes(&mut page, PAYLOAD_OFFSET, fields.as_slice());
        page
    }

    /// Reads a meta page back.
    pub fn decode(page: &[u8]) -> (r: DbResult<MetaPage>)
        ensures
            match r {
                Ok(meta) => {
                    &&& meta_error(page@) is None
                    &&& meta.page_size == le_value(page@.subrange(16, 20))
                    &&& meta.page_count == le_value(page@.subrange(20, 24))
                    &&& meta.catalog_page_id.0 == le_value(page@.subrange(24, 28))
                    &&& meta.next_txn_id == le_value(page@.subrange(28, 36))
                },
                Err(e) => meta_error(page@) == Some(e@),
            },
    {
        let kind = page_kind(page)?;
        if kind != PageKind::Meta {
            return Err(DbError::bare(ErrorCode::MetaPageKind));
        }
        proof {
            lemma_byte_ranges();
        }
        let page_size: u64 = read_le(page, PAYLOAD_OFFSET, 4);
        let page_count: u64 = read_le(page, PAYLOAD_OFFSET + 4, 4);
        let catalog: u64 = read_le(page, PAYLOAD_OFFSET + 8, 4);
        let next_txn_id: u64 = read_le(page, PAYLOAD_OFFSET + 12, 8);
        Ok(
            MetaPage {
                page_size: page_size as u32,
                page_count: page_count as u32,
                catalog_page_id: PageId(catalog as u32),
                next_txn_id,
            },
        )
    }
}

/// A page of a kind with nothing in it.
pub fn empty_page(kind: PageKind) -> (page: Vec<u8>)
    ensures
        page@ == blank(kind),
        page@.len() == PAGE_SIZE,
{
    let mut page = zero_vec(PAGE_SIZE);
    page.set(0, 82);
    page.set(1, 83);
    page.set(2, 86);
    page.set(3, 50);
    page.set(KIND_OFFSET, kind.to_byte());
    assert(page@ =~= blank(kind));
    page
}

/// Puts a payload into a page of a kind, where it fits.
pub fn encode_payload_page(kind: PageKind, payload: &[u8]) -> (r: DbResult<Vec<u8>>)
    ensures
        match r {
            Ok(page) => payload@.len() <= PAGE_CAPACITY && page@ == payload_page(kind, payload@)
                && page@.len() == PAGE_SIZE,
            Err(e) => payload@.len() > PAGE_CAPACITY && e@ == bare(
                ErrorCode::PayloadTooLarge(payload@.len() as usize),
            ),
        },
{
    if payload.len() > PAGE_SIZE - PAYLOAD_OFFSET {
        return Err(DbError::bare(ErrorCode::PayloadTooLarge(payload.len())));
    }
    let mut page = empty_page(kind);
    let mut length: Vec<u8> = Vec::new();
    push_le(&mut length, payload.len() as u64, 4);
    proof {
        assert(length@ =~= le_bytes(payload@.len(), 4));
        lemma_le_bytes_len(payload@.len(), 4);
    }
    put_bytes(&mut page, PAYLOAD_LEN_OFFSET, length.as_slice());
    put_bytes(&mut page, PAYLOAD_OFFSET, payload);
    Ok(page)
}

/// The payload of a page of a kind.
pub fn decode_payload(page: &[u8], expected_kind: PageKind) -> (r: DbResult<Vec<u8>>)
    ensures
        match r {
            Ok(payload) => payload_error(page@, expected_kind) is None && payload@
                == page@.subrange(16, 16int + payload_len(page@)),
            Err(e) => payload_error(page@, expected_kind) == Some(e@),
        },
{
    let kind = page_kind(page)?;
    if kind != expected_kind {
        proof {
            assert(kind_byte(kind) != kind_byte(expected_kind));
        }
        return Err(
            DbError::bare(
                ErrorCode::WrongPageKind { expected: expected_kind.to_byte(), found: kind.to_byte() },
            ),
        );
    }
    proof {
        lemma_byte_ranges();
    }
    let payload_len: usize = read_le(page, PAYLOAD_LEN_OFFSET, 4) as usize;
    if payload_len > PAGE_SIZE - PAYLOAD_OFFSET {
        return Err(DbError::bare(ErrorCode::PayloadLength(payload_len)));
    }
    Ok(slice_vec(page, PAYLOAD_OFFSET, PAYLOAD_OFFSET + payload_len))
}

/// The kind of a page.
pub fn page_kind(page: &[u8]) -> (r: DbResult<PageKind>)
    ensures
        match r {
            Ok(kind) => header_error(page@) is None && kind_byte(kind) == page@[4] && page@.len()
                == PAGE_SIZE,
            Err(e) => header_error(page@) == Some(e@),
        },
{
    validate_page_buffer(page)?;
    PageKind::from_byte(page[KIND_OFFSET])
}

/// Checks the size and the magic number of a page buffer.
pub fn validate_page_buffer(page: &[u8]) -> (r: DbResult<()>)
    ensures
        match r {
            Ok(_) => buffer_error(page@) is None,
            Err(e) => buffer_error(page@) == Some(e@),
        },
{
    if page.len() != PAGE_SIZE {
        return Err(DbError::bare(ErrorCode::PageBufferSize));
    }
    let ghost start = page@.subrange(0, 4);
    assert(start[0] == page@[0] && start[1] == page@[1] && start[2] == page@[2] && start[3]
        == page@[3]);
    if page[0] != 82 || page[1] != 83 || page[2] != 86 || page[3] != 50 {
        assert(magic()[0] == 82 && magic()[1] == 83 && magic()[2] == 86 && magic()[3] == 50);
        return Err(DbError::bare(ErrorCode::PageMagic));
    }
    assert(start =~= magic());
    Ok(())
}

proof fn lemma_meta_fields(meta: MetaPage)
    ensures
        meta_fields(meta).len() == 20,
        meta_fields(meta).subrange(0, 4) == le_bytes(meta.page_size as nat, 4),
        meta_fields(meta).subrange(4, 8) == le_bytes(meta.page_count as nat, 4),
        meta_fields(meta).subrange(8, 12) == le_bytes(meta.catalog_page_id.0 as nat, 4),
        meta_fields(meta).subrange(12, 20) == le_bytes(meta.next_txn_id as nat, 8),
{
    lemma_le_bytes_len(meta.page_size as nat, 4);
    lemma_le_bytes_len(meta.page_count as nat, 4);
    lemma_le_bytes_len(meta.catalog_page_id.0 as nat, 4);
    lemma_le_bytes_len(meta.next_txn_id as nat, 8);
    let f = meta_fields(meta);
    assert(f.subrange(0, 4) =~= le_bytes(meta.page_size as nat, 4));
    assert(f.subrange(4, 8) =~= le_bytes(meta.page_count as nat, 4));
    assert(f.subrange(8, 12) =~= le_bytes(meta.catalog_page_id.0 as nat, 4));
    assert(f.subrange(12, 20) =~= le_bytes(meta.next_txn_id as nat, 8));
}

/// A meta page that was written reads back as it was: the bytes are accepted, and each
/// field holds what was put into it.
pub proof fn law_meta_page_round_trip(meta: MetaPage)
    ensures
        meta_error(meta_bytes(meta)) is None,
        le_value(meta_bytes(meta).subrange(16, 20)) == meta.page_size,
        le_value(meta_bytes(meta).subrange(20, 24)) == meta.page_count,
        le_value(meta_bytes(meta).subrange(24, 28)) == meta.catalog_page_id.0,
        le_value(meta_bytes(meta).subrange(28, 36)) == meta.next_txn_id,
{
    lemma_meta_fields(meta);
    lemma_byte_ranges();
    let page = meta_bytes(meta);
    let f = meta_fields(meta);
    assert(page.subrange(0, 4) =~= magic());
    assert(page[4] == 1);
    assert(page.subrange(16, 20) =~= f.subrange(0, 4));
    assert(page.subrange(20, 24) =~= f.subrange(4, 8));
    assert(page.subrange(24, 28) =~= f.subrange(8, 12));
    assert(page.subrange(28, 36) =~= f.subrange(12, 20));
    lemma_le_round_trip(meta.page_size as nat, 4);
    lemma_le_round_trip(meta.page_count as nat, 4);
    lemma_le_round_trip(meta.catalog_page_id.0 as nat, 4);
    lemma_le_round_trip(meta.next_txn_id as nat, 8);
}

/// A payload that fits into a page is read back unchanged from the page that holds it, and
/// only from a page of that kind.
pub proof fn law_payload_page_round_trip(kind: PageKind, payload: Seq<u8>)
    requires
        payload.len() <= PAGE_CAPACITY,
    ensures
        payload_error(payload_page(kind, payload), kind) is None,
        payload_len(payload_page(kind, payload)) == payload.len(),
        payload_page(kind, payload).subrange(16, 16int + payload.len()) == payload,
        forall|other: PageKind|
            other != kind ==> #[trigger] payload_error(payload_page(kind, payload), other) is Some,
{
    lemma_byte_ranges();
    lemma_le_round_trip(payload.len(), 4);
    let page = payload_page(kind, payload);
    assert(page.subrange(0, 4) =~= magic());
    assert(page[4] == kind_byte(kind));
    assert(page.subrange(8, 12) =~= le_bytes(payload.len(), 4));
    assert(page.subrange(16, 16int + payload.len()) =~= payload);
}

} // verus!
