//! The catalog: which tables and indexes there are, and where each starts.

use vstd::prelude::*;

use std::sync::Arc;

use crate::common::error::{bare, result_view, DbResult, ErrorCode, ErrorView};
use crate::common::ordmap::{Duplicate, OrdMap};
use crate::common::schema::{IndexMeta, IndexView, Schema};
use crate::common::value::RowId;
use crate::v2::page::{
    decode_payload, encode_payload_page, payload_error, payload_len, payload_page, PageId, PageKind,
    PAGE_CAPACITY,
};
use crate::v2::pager::{step, Pager};
use crate::v2::pager_model::PagerModel;

verus! {

/// A definition of a table that several catalogs share.
pub struct SharedSchema {
    pub schema: Arc<Schema>,
}

impl DeepView for SharedSchema {
    type V = Schema;

    open spec fn deep_view(&self) -> Schema {
        *self.schema
    }
}

/// `std::sync::Arc::clone` gives another pointer to the same value.
#[verifier::external_body]
fn another(schema: &Arc<Schema>) -> (r: Arc<Schema>)
    ensures
        *r == **schema,
{
    Arc::clone(schema)
}

impl Duplicate for SharedSchema {
    fn duplicate(&self) -> (r: SharedSchema) {
        SharedSchema { schema: another(&self.schema) }
    }
}

impl SharedSchema {
    /// Shares a definition from now on.
    pub fn new(schema: Schema) -> (r: SharedSchema)
        ensures
            r.deep_view() == schema,
    {
        SharedSchema { schema: Arc::new(schema) }
    }
}

impl Duplicate for PageId {
    fn duplicate(&self) -> (r: PageId) {
        *self
    }
}

/// The tables and indexes of a database.
pub struct CatalogState {
    pub schemas: OrdMap<String, SharedSchema>,
    pub table_roots: OrdMap<String, PageId>,
    pub next_row_ids: OrdMap<String, u64>,
    pub indexes: OrdMap<String, OrdMap<String, IndexMeta>>,
    pub index_roots: OrdMap<String, OrdMap<String, PageId>>,
}

/// The model of a catalog.
#[verifier::ext_equal]
pub struct CatalogModel {
    pub schemas: Map<Seq<char>, Schema>,
    pub table_roots: Map<Seq<char>, PageId>,
    pub next_row_ids: Map<Seq<char>, u64>,
    pub indexes: Map<Seq<char>, Map<Seq<char>, IndexView>>,
    pub index_roots: Map<Seq<char>, Map<Seq<char>, PageId>>,
}

impl View for CatalogState {
    type V = CatalogModel;

    open spec fn view(&self) -> CatalogModel {
        CatalogModel {
            schemas: self.schemas@,
            table_roots: self.table_roots@,
            next_row_ids: self.next_row_ids@,
            indexes: self.indexes@,
            index_roots: self.index_roots@,
        }
    }
}

impl DeepView for CatalogState {
    type V = CatalogModel;

    open spec fn deep_view(&self) -> CatalogModel {
        self@
    }
}

impl Duplicate for CatalogState {
    fn duplicate(&self) -> (r: CatalogState) {
        CatalogState {
            schemas: self.schemas.duplicate(),
            table_roots: self.table_roots.duplicate(),
            next_row_ids: self.next_row_ids.duplicate(),
            indexes: self.indexes.duplicate(),
            index_roots: self.index_roots.duplicate(),
        }
    }
}

/// A catalog of nothing.
pub open spec fn no_catalog() -> CatalogModel {
    CatalogModel {
        schemas: Map::empty(),
        table_roots: Map::empty(),
        next_row_ids: Map::empty(),
        indexes: Map::empty(),
        index_roots: Map::empty(),
    }
}

impl Default for CatalogState {
    fn default() -> (r: CatalogState)
        ensures
            r@ == no_catalog(),
    {
        CatalogState {
            schemas: OrdMap::new(),
            table_roots: OrdMap::new(),
            next_row_ids: OrdMap::new(),
            indexes: OrdMap::new(),
            index_roots: OrdMap::new(),
        }
    }
}

/// The next row number of a table.
pub open spec fn next_number(ids: Map<Seq<char>, u64>, table: Seq<char>) -> u64 {
    if ids.dom().contains(table) {
        ids[table]
    } else {
        1
    }
}

impl CatalogState {
    /// Hands out the next row number of a table: they start at one and grow by one.
    pub fn allocate_row_id(&mut self, table: &str) -> (r: RowId)
        requires
            next_number(old(self)@.next_row_ids, table@) < u64::MAX,
        ensures
            r.0 == next_number(old(self)@.next_row_ids, table@),
            final(self)@ == (CatalogModel {
                next_row_ids: old(self)@.next_row_ids.insert(table@, (r.0 + 1) as u64),
                ..old(self)@
            }),
    {
        let key: String = table.to_owned();
        let next: u64 = match self.next_row_ids.get(&key) {
            Some(n) => *n,
            None => 1,
        };
        self.next_row_ids.insert(key, next + 1);
        RowId(next)
    }
}

/// The bytes of the catalog that a pager has: none where it was never stored.
pub open spec fn catalog_bytes(m: PagerModel) -> Result<Seq<u8>, ErrorView> {
    match m.read(PageId(1)) {
        Err(e) => Err(e),
        Ok(page) => match payload_error(page, PageKind::Catalog) {
            Some(e) => Err(e),
            None => Ok(page.subrange(16, 16int + payload_len(page))),
        },
    }
}

/// Reads the bytes of the catalog: none where it was never stored.
pub fn load_catalog(pager: &Pager) -> (r: DbResult<Vec<u8>>)
    ensures
        result_view(r) == catalog_bytes(pager@),
{
    let page = pager.read_page(PageId(1))?;
    decode_payload(page.as_slice(), PageKind::Catalog)
}

/// The pager once a transaction has stored the bytes of the catalog.
pub open spec fn catalog_stored(m: PagerModel, txn: u64, payload: Seq<u8>) -> (
    PagerModel,
    Result<(), ErrorView>,
) {
    if payload.len() <= PAGE_CAPACITY {
        m.written(txn, PageId(1), payload_page(PageKind::Catalog, payload))
    } else {
        (m, Err(bare(ErrorCode::PayloadTooLarge(payload.len() as usize))))
    }
}

/// Stores the bytes of the catalog for a transaction.
pub fn store_catalog(pager: &mut Pager, txn_id: u64, payload: &[u8]) -> (r: DbResult<()>)
    requires
        old(pager)@.sound(),
    ensures
        step(r, final(pager)@, catalog_stored(old(pager)@, txn_id, payload@)),
        final(pager)@.sound(),
{
    let page = encode_payload_page(PageKind::Catalog, payload)?;
    pager.write_page(txn_id, PageId(1), page)
}

/// A catalog that a transaction has stored is read back.
pub proof fn law_stored_catalog_is_loaded(m: PagerModel, txn: u64, payload: Seq<u8>)
    requires
        catalog_stored(m, txn, payload).1 is Ok,
    ensures
        catalog_bytes(catalog_stored(m, txn, payload).0) == Ok::<_, ErrorView>(payload),
{
    crate::v2::page::law_payload_page_round_trip(PageKind::Catalog, payload);
    crate::v2::pager_laws::law_written_pages_are_read(
        m,
        txn,
        PageId(1),
        payload_page(PageKind::Catalog, payload),
    );
}

} // verus!
