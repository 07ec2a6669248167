//! The rows in which a file lists its schema, and the rows of its tables.

use vstd::prelude::*;

use crate::common::bytes::{lemma_byte_ranges, read_be, slice_vec};
use crate::common::error::{result_view, storage, DbError, DbResult, ErrorView};
use crate::common::text::{nat_text, u64_text};
use crate::common::value::{DbValue, SqlValue};
use crate::sqlite3::page::{
    header_start, is_interior, number_at, page_header, BtreePageHeader, PageType,
};
use crate::sqlite3::pager::{chain, page_of, DatabaseHeader, Pager};
use crate::sqlite3::record::{
    decode_record_header, read_value, read_view, record_header, row_view, value_at,
};
use crate::sqlite3::varint::{decode_varint, varint_at_start};

verus! {

/// A row of the schema.
#[derive(Debug)]
pub struct SchemaRow {
    pub entry_type: String,
    pub name: String,
    pub table_name: String,
    pub root_page: u32,
    pub sql: Option<String>,
}

/// The model of a row of the schema.
pub struct SchemaRowView {
    pub entry_type: Seq<char>,
    pub name: Seq<char>,
    pub table_name: Seq<char>,
    pub root_page: u32,
    pub sql: Option<Seq<char>>,
}

impl View for SchemaRow {
    type V = SchemaRowView;

    open spec fn view(&self) -> SchemaRowView {
        SchemaRowView {
            entry_type: self.entry_type@,
            name: self.name@,
            table_name: self.table_name@,
            root_page: self.root_page,
            sql: match self.sql {
                Some(t) => Some(t@),
                None => None,
            },
        }
    }
}

impl DeepView for SchemaRow {
    type V = SchemaRowView;

    open spec fn deep_view(&self) -> SchemaRowView {
        self@
    }
}

// ---------------------------------------------------------------------------
// Rows of tables

/// A value in a row of a table: here zero and one are integers.
pub open spec fn table_value_at(b: Seq<u8>, s: u64, at: int) -> Result<(SqlValue, int), ErrorView> {
    if s == 8 {
        Ok((SqlValue::Integer(0), at))
    } else if s == 9 {
        Ok((SqlValue::Integer(1), at))
    } else if s == 10 || s == 11 {
        Err(storage("unsupported sqlite table serial type "@ + nat_text(s as nat)))
    } else {
        value_at(b, s, at)
    }
}

fn unsupported(start: &str, s: u64) -> (r: DbError)
    ensures
        r@ == storage(start@ + nat_text(s as nat)),
{
    let mut message = start.to_owned();
    message.append(u64_text(s).as_str());
    DbError::storage(message.as_str())
}

fn decode_table_serial_value(bytes: &[u8], s: u64, at: usize) -> (r: DbResult<(DbValue, usize)>)
    requires
        at <= bytes@.len(),
    ensures
        read_view(r) == table_value_at(bytes@, s, at as int),
        r matches Ok(x) ==> at <= x.1 <= bytes@.len(),
{
    if s == 8 {
        Ok((DbValue::Integer(0), at))
    } else if s == 9 {
        Ok((DbValue::Integer(1), at))
    } else if s == 10 || s == 11 {
        Err(unsupported("unsupported sqlite table serial type ", s))
    } else {
        read_value(bytes, s, at)
    }
}

/// The values of a row of a table from a serial type on.
pub open spec fn table_values_from(
    b: Seq<u8>,
    serials: Seq<u64>,
    k: int,
    at: int,
    out: Seq<SqlValue>,
) -> Result<Seq<SqlValue>, ErrorView>
    decreases serials.len() - k,
{
    if k < 0 || k >= serials.len() {
        if at == b.len() {
            Ok(out)
        } else {
            Err(storage("invalid sqlite record: trailing bytes after payload"@))
        }
    } else {
        match table_value_at(b, serials[k], at) {
            Err(e) => Err(e),
            Ok((v, next)) => table_values_from(b, serials, k + 1, next, out.push(v)),
        }
    }
}

/// A row of a table.
pub open spec fn table_record(b: Seq<u8>) -> Result<Seq<SqlValue>, ErrorView> {
    match record_header(b) {
        Err(e) => Err(e),
        Ok((serials, at)) => table_values_from(b, serials, 0, at, Seq::empty()),
    }
}

/// Reads a row of a table.
pub fn decode_table_record(bytes: &[u8]) -> (r: DbResult<Vec<DbValue>>)
    ensures
        row_view(r) == table_record(bytes@),
{
    let (serials, end): (Vec<u64>, usize) = decode_record_header(bytes)?;
    let mut values: Vec<DbValue> = Vec::new();
    let mut at: usize = end;
    let mut k: usize = 0;
    assert(values.deep_view() =~= Seq::<SqlValue>::empty());
    while k < serials.len()
        invariant
            k <= serials@.len(),
            at <= bytes@.len(),
            table_values_from(bytes@, serials@, k as int, at as int, values.deep_view())
                == table_record(bytes@),
        decreases serials@.len() - k,
    {
        let (v, next): (DbValue, usize) = decode_table_serial_value(bytes, serials[k], at)?;
        let ghost before = values.deep_view();
        values.push(v);
        assert(values.deep_view() =~= before.push(v@));
        at = next;
        k = k + 1;
    }
    if at != bytes.len() {
        return Err(DbError::storage("invalid sqlite record: trailing bytes after payload"));
    }
    Ok(values)
}

// ---------------------------------------------------------------------------
// Records of the schema

/// A value in a record of the schema: null, an integer or a text.
pub open spec fn schema_value_at(b: Seq<u8>, s: u64, at: int) -> Result<
    (SqlValue, int),
    ErrorView,
> {
    if s == 8 {
        Ok((SqlValue::Integer(0), at))
    } else if s == 9 {
        Ok((SqlValue::Integer(1), at))
    } else if s == 7 || s == 10 || s == 11 {
        Err(storage("unsupported sqlite schema serial type "@ + nat_text(s as nat)))
    } else if s >= 12 && s % 2 == 0 {
        match value_at(b, s, at) {
            Err(e) => Err(e),
            Ok(_) => Err(
                storage("unsupported sqlite schema serial type "@ + nat_text(s as nat)),
            ),
        }
    } else {
        value_at(b, s, at)
    }
}

fn decode_serial_value(bytes: &[u8], s: u64, at: usize) -> (r: DbResult<(DbValue, usize)>)
    requires
        at <= bytes@.len(),
    ensures
        read_view(r) == schema_value_at(bytes@, s, at as int),
        r matches Ok(x) ==> at <= x.1 <= bytes@.len(),
{
    if s == 8 {
        Ok((DbValue::Integer(0), at))
    } else if s == 9 {
        Ok((DbValue::Integer(1), at))
    } else if s == 7 || s == 10 || s == 11 {
        Err(unsupported("unsupported sqlite schema serial type ", s))
    } else if s >= 12 && s % 2 == 0 {
        match read_value(bytes, s, at) {
            Err(e) => Err(e),
            Ok(_) => Err(unsupported("unsupported sqlite schema serial type ", s)),
        }
    } else {
        read_value(bytes, s, at)
    }
}

/// The values of a record of the schema from a serial type on.
pub open spec fn schema_values_from(
    b: Seq<u8>,
    serials: Seq<u64>,
    k: int,
    at: int,
    out: Seq<SqlValue>,
) -> Result<Seq<SqlValue>, ErrorView>
    decreases serials.len() - k,
{
    if k < 0 || k >= serials.len() {
        Ok(out)
    } else {
        match schema_value_at(b, serials[k], at) {
            Err(e) => Err(e),
            Ok((v, next)) => schema_values_from(b, serials, k + 1, next, out.push(v)),
        }
    }
}

/// The values of a record of the schema.
pub open spec fn schema_record(b: Seq<u8>) -> Result<Seq<SqlValue>, ErrorView> {
    match record_header(b) {
        Err(e) => Err(e),
        Ok((serials, at)) => schema_values_from(b, serials, 0, at, Seq::empty()),
    }
}

fn decode_record_values(bytes: &[u8]) -> (r: DbResult<Vec<DbValue>>)
    ensures
        row_view(r) == schema_record(bytes@),
{
    let (serials, end): (Vec<u64>, usize) = decode_record_header(bytes)?;
    let mut values: Vec<DbValue> = Vec::new();
    let mut at: usize = end;
    let mut k: usize = 0;
    assert(values.deep_view() =~= Seq::<SqlValue>::empty());
    while k < serials.len()
        invariant
            k <= serials@.len(),
            at <= bytes@.len(),
            schema_values_from(bytes@, serials@, k as int, at as int, values.deep_view())
                == schema_record(bytes@),
        decreases serials@.len() - k,
    {
        let (v, next): (DbValue, usize) = decode_serial_value(bytes, serials[k], at)?;
        let ghost before = values.deep_view();
        values.push(v);
        assert(values.deep_view() =~= before.push(v@));
        at = next;
        k = k + 1;
    }
    Ok(values)
}

/// A row of the schema from the values of its record.
pub open spec fn schema_row_of(v: Seq<SqlValue>) -> Result<SchemaRowView, ErrorView> {
    if v.len() != 5 {
        Err(storage("sqlite schema row does not contain the expected five columns"@))
    } else if !(v[0] is Text) {
        Err(storage("sqlite schema column type is not TEXT"@))
    } else if !(v[1] is Text) {
        Err(storage("sqlite schema column name is not TEXT"@))
    } else if !(v[2] is Text) {
        Err(storage("sqlite schema column tbl_name is not TEXT"@))
    } else {
        match v[3] {
            SqlValue::Integer(root) => if 0 <= root <= u32::MAX {
                match v[4] {
                    SqlValue::Null => Ok(
                        SchemaRowView {
                            entry_type: v[0]->Text_0,
                            name: v[1]->Text_0,
                            table_name: v[2]->Text_0,
                            root_page: root as u32,
                            sql: None,
                        },
                    ),
                    SqlValue::Text(t) => Ok(
                        SchemaRowView {
                            entry_type: v[0]->Text_0,
                            name: v[1]->Text_0,
                            table_name: v[2]->Text_0,
                            root_page: root as u32,
                            sql: Some(t),
                        },
                    ),
                    _ => Err(storage("sqlite schema column sql is not TEXT or NULL"@)),
                }
            } else {
                Err(
                    storage(
                        "sqlite schema column rootpage is not a supported positive INTEGER"@,
                    ),
                )
            },
            _ => Err(storage("sqlite schema column rootpage is not INTEGER"@)),
        }
    }
}

fn read_schema_row(values: &Vec<DbValue>) -> (r: DbResult<SchemaRow>)
    ensures
        result_view(r) == schema_row_of(values.deep_view()),
{
    let ghost v = values.deep_view();
    if values.len() != 5 {
        return Err(
            DbError::storage("sqlite schema row does not contain the expected five columns"),
        );
    }
    assert(forall|i: int| 0 <= i < 5 ==> #[trigger] v[i] == values@[i]@);
    let entry_type = match &values[0] {
        DbValue::Text(t) => t.clone(),
        _ => {
            return Err(DbError::storage("sqlite schema column type is not TEXT"));
        },
    };
    let name = match &values[1] {
        DbValue::Text(t) => t.clone(),
        _ => {
            return Err(DbError::storage("sqlite schema column name is not TEXT"));
        },
    };
    let table_name = match &values[2] {
        DbValue::Text(t) => t.clone(),
        _ => {
            return Err(DbError::storage("sqlite schema column tbl_name is not TEXT"));
        },
    };
    let root_page: u32 = match &values[3] {
        DbValue::Integer(root) => {
            if *root < 0 || *root > u32::MAX as i64 {
                return Err(
                    DbError::storage(
                        "sqlite schema column rootpage is not a supported positive INTEGER",
                    ),
                );
            }
            *root as u32
        },
        _ => {
            return Err(DbError::storage("sqlite schema column rootpage is not INTEGER"));
        },
    };
    let sql = match &values[4] {
        DbValue::Null => None,
        DbValue::Text(t) => Some(t.clone()),
        _ => {
            return Err(DbError::storage("sqlite schema column sql is not TEXT or NULL"));
        },
    };
    Ok(SchemaRow { entry_type, name, table_name, root_page, sql })
}

// ---------------------------------------------------------------------------
// Cells

/// How many bytes of a payload stand in its cell on a leaf page of a table.
pub open spec fn local_part(usable: int, size: int) -> int {
    let limit = usable - 35;
    if size <= limit {
        size
    } else {
        let least = (usable - 12) * 32 / 255 - 23;
        let local = least + (size - least) % (usable - 4);
        if local > limit {
            least
        } else {
            local
        }
    }
}

/// The payload of a cell: the part that stands there, and what overflow pages hold.
pub open spec fn leaf_payload(
    file: Seq<u8>,
    header: DatabaseHeader,
    page: Seq<u8>,
    at: int,
    size: int,
) -> Result<Seq<u8>, ErrorView> {
    let local = local_part(header.usable(), size);
    if at + local > page.len() {
        Err(storage("sqlite schema payload bytes are truncated before overflow handling"@))
    } else if local >= size {
        Ok(page.subrange(at, at + local))
    } else if at + local + 4 > page.len() {
        Err(storage("sqlite schema overflow pointer is truncated"@))
    } else {
        let first = number_at(page, at + local, 4) as u32;
        if first == 0 {
            Err(
                storage(
                    "sqlite schema overflow payload is missing its first overflow page pointer"@,
                ),
            )
        } else {
            match chain(file, header, first, (size - local) as nat) {
                Err(e) => Err(e),
                Ok(rest) => Ok(page.subrange(at, at + local) + rest),
            }
        }
    }
}

fn read_leaf_table_payload(pager: &Pager, page: &Vec<u8>, at: usize, size: usize) -> (r: DbResult<
    Vec<u8>,
>)
    requires
        pager.wf(),
        page@.len() == pager.known().page_size,
        at <= page@.len(),
    ensures
        result_view(r) == leaf_payload(
            pager.contents(),
            pager.known(),
            page@,
            at as int,
            size as int,
        ),
{
    proof {
        lemma_byte_ranges();
    }
    let usable: usize = pager.usable_size()?;
    let limit: usize = usable - 35;
    let local: usize = if size <= limit {
        size
    } else {
        let least: usize = (usable - 12) * 32 / 255 - 23;
        let part: usize = least + (size - least) % (usable - 4);
        if part > limit {
            least
        } else {
            part
        }
    };
    if local > page.len() - at {
        return Err(
            DbError::storage("sqlite schema payload bytes are truncated before overflow handling"),
        );
    }
    let end: usize = at + local;
    let mut payload = slice_vec(page.as_slice(), at, end);
    if local >= size {
        return Ok(payload);
    }
    if page.len() - end < 4 {
        return Err(DbError::storage("sqlite schema overflow pointer is truncated"));
    }
    let first: u64 = read_be(page.as_slice(), end, 4);
    if first == 0 {
        return Err(
            DbError::storage(
                "sqlite schema overflow payload is missing its first overflow page pointer",
            ),
        );
    }
    let mut rest = pager.read_overflow_chain(first as u32, size - local)?;
    payload.append(&mut rest);
    Ok(payload)
}

/// A row of the schema in a cell at a position of a page.
pub open spec fn schema_row_at(file: Seq<u8>, header: DatabaseHeader, page: Seq<u8>, at: int) -> Result<
    SchemaRowView,
    ErrorView,
> {
    if at > page.len() {
        Err(storage("sqlite schema cell offset is out of bounds"@))
    } else {
        match varint_at_start(page.skip(at)) {
            Err(e) => Err(e),
            Ok((size, n)) => match varint_at_start(page.skip(at + n)) {
                Err(e) => Err(e),
                Ok((_, m)) => if size > usize::MAX {
                    Err(storage("sqlite schema payload is too large"@))
                } else {
                    match leaf_payload(file, header, page, at + n + m, size as int) {
                        Err(e) => Err(e),
                        Ok(payload) => match schema_record(payload) {
                            Err(e) => Err(e),
                            Ok(values) => schema_row_of(values),
                        },
                    }
                },
            },
        }
    }
}

fn decode_schema_cell(pager: &Pager, page: &Vec<u8>, at: usize) -> (r: DbResult<SchemaRow>)
    requires
        pager.wf(),
        page@.len() == pager.known().page_size,
    ensures
        result_view(r) == schema_row_at(pager.contents(), pager.known(), page@, at as int),
{
    let total: usize = page.len();
    if at > total {
        return Err(DbError::storage("sqlite schema cell offset is out of bounds"));
    }
    let cell = vstd::slice::slice_subrange(page.as_slice(), at, total);
    assert(cell@ =~= page@.skip(at as int));
    let (size, n): (u64, usize) = decode_varint(cell)?;
    let rest = vstd::slice::slice_subrange(page.as_slice(), at + n, total);
    assert(rest@ =~= page@.skip(at + n));
    let (_, m): (u64, usize) = decode_varint(rest)?;
    if size as u128 > usize::MAX as u128 {
        return Err(DbError::storage("sqlite schema payload is too large"));
    }
    let payload = read_leaf_table_payload(pager, page, at + n + m, size as usize)?;
    let values = decode_record_values(payload.as_slice())?;
    read_schema_row(&values)
}

// ---------------------------------------------------------------------------
// Pages

/// Where the pointers to the cells of a page start.
pub open spec fn pointers_start(first_page: bool, header: BtreePageHeader) -> int {
    header_start(first_page) + if is_interior(header.page_type) {
        12int
    } else {
        8
    }
}

/// The positions of the cells of a page, from one on.
pub open spec fn offsets_from(page: Seq<u8>, start: int, count: int, i: int, out: Seq<int>) -> Result<
    Seq<int>,
    ErrorView,
>
    decreases count - i,
{
    if i < 0 || i >= count {
        Ok(out)
    } else if start + 2 * i + 2 > page.len() {
        Err(storage("sqlite schema page has truncated cell pointer array"@))
    } else {
        offsets_from(
            page,
            start,
            count,
            i + 1,
            out.push(number_at(page, start + 2 * i, 2) as int),
        )
    }
}

/// The positions of the cells of a page.
pub open spec fn cell_offsets(page: Seq<u8>, first_page: bool, header: BtreePageHeader) -> Result<
    Seq<int>,
    ErrorView,
> {
    offsets_from(page, pointers_start(first_page, header), header.cell_count as int, 0, Seq::empty())
}

/// The model of positions of cells.
pub open spec fn offsets_view(r: DbResult<Vec<usize>>) -> Result<Seq<int>, ErrorView> {
    match r {
        Ok(v) => Ok(Seq::new(v@.len(), |i: int| v@[i] as int)),
        Err(e) => Err(e@),
    }
}

fn schema_cell_offsets(page: &Vec<u8>, first_page: bool, header: &BtreePageHeader) -> (r: DbResult<
    Vec<usize>,
>)
    ensures
        offsets_view(r) == cell_offsets(page@, first_page, *header),
{
    let start: usize = (if first_page {
        100usize
    } else {
        0usize
    }) + (match header.page_type {
        PageType::InteriorIndex => 12usize,
        PageType::InteriorTable => 12usize,
        _ => 8usize,
    });
    let count: usize = header.cell_count as usize;
    let mut out: Vec<usize> = Vec::new();
    let ghost mut seen: Seq<int> = Seq::empty();
    let mut i: usize = 0;
    assert(Seq::new(out@.len(), |k: int| out@[k] as int) =~= seen);
    while i < count
        invariant
            i <= count <= 0xffff,
            start <= 112,
            start == pointers_start(first_page, *header),
            count == header.cell_count,
            seen.len() == out@.len(),
            forall|k: int| 0 <= k < seen.len() ==> #[trigger] seen[k] == out@[k],
            offsets_from(page@, start as int, count as int, i as int, seen) == offsets_from(
                page@,
                start as int,
                count as int,
                0,
                Seq::empty(),
            ),
        decreases count - i,
    {
        proof {
            lemma_byte_ranges();
        }
        let at: usize = start + 2 * i;
        if page.len() < at + 2 {
            return Err(DbError::storage("sqlite schema page has truncated cell pointer array"));
        }
        let place: u64 = read_be(page.as_slice(), at, 2);
        proof {
            seen = seen.push(place as int);
        }
        out.push(place as usize);
        i = i + 1;
    }
    assert(Seq::new(out@.len(), |k: int| out@[k] as int) =~= seen);
    Ok(out)
}

/// The pages that an interior page leads to, from a cell on.
pub open spec fn children_from(page: Seq<u8>, offsets: Seq<int>, i: int, out: Seq<u32>) -> Result<
    Seq<u32>,
    ErrorView,
>
    decreases offsets.len() - i,
{
    if i < 0 || i >= offsets.len() {
        Ok(out)
    } else if offsets[i] + 4 > page.len() {
        Err(storage("sqlite schema interior table cell is truncated"@))
    } else {
        children_from(page, offsets, i + 1, out.push(number_at(page, offsets[i], 4) as u32))
    }
}

/// The pages that an interior page leads to.
pub open spec fn children_of(page: Seq<u8>, first_page: bool, header: BtreePageHeader) -> Result<
    Seq<u32>,
    ErrorView,
> {
    match cell_offsets(page, first_page, header) {
        Err(e) => Err(e),
        Ok(offsets) => match children_from(page, offsets, 0, Seq::empty()) {
            Err(e) => Err(e),
            Ok(children) => match header.rightmost_pointer {
                None => Err(
                    storage("sqlite schema interior table page is missing rightmost pointer"@),
                ),
                Some(last) => Ok(children.push(last)),
            },
        },
    }
}

/// The model of page numbers.
pub open spec fn numbers_view(r: DbResult<Vec<u32>>) -> Result<Seq<u32>, ErrorView> {
    match r {
        Ok(v) => Ok(v@),
        Err(e) => Err(e@),
    }
}

fn decode_interior_table_children(page: &Vec<u8>, first_page: bool, header: &BtreePageHeader) -> (r:
    DbResult<Vec<u32>>)
    ensures
        numbers_view(r) == children_of(page@, first_page, *header),
{
    let offsets = schema_cell_offsets(page, first_page, header)?;
    let ghost places = Seq::new(offsets@.len(), |i: int| offsets@[i] as int);
    let mut children: Vec<u32> = Vec::new();
    let mut i: usize = 0;
    while i < offsets.len()
        invariant
            places == Seq::new(offsets@.len(), |k: int| offsets@[k] as int),
            cell_offsets(page@, first_page, *header) == Ok::<Seq<int>, ErrorView>(places),
            i <= offsets@.len(),
            children_from(page@, places, i as int, children@) == children_from(
                page@,
                places,
                0,
                Seq::empty(),
            ),
        decreases offsets@.len() - i,
    {
        proof {
            lemma_byte_ranges();
        }
        let at: usize = offsets[i];
        if page.len() < 4 || at > page.len() - 4 {
            return Err(DbError::storage("sqlite schema interior table cell is truncated"));
        }
        children.push(read_be(page.as_slice(), at, 4) as u32);
        i = i + 1;
    }
    match header.rightmost_pointer {
        None => Err(
            DbError::storage("sqlite schema interior table page is missing rightmost pointer"),
        ),
        Some(last) => {
            children.push(last);
            Ok(children)
        },
    }
}

/// The rows of the schema in the cells of a page, from one on.
pub open spec fn leaf_rows_from(
    file: Seq<u8>,
    header: DatabaseHeader,
    page: Seq<u8>,
    offsets: Seq<int>,
    i: int,
    out: Seq<SchemaRowView>,
) -> Result<Seq<SchemaRowView>, ErrorView>
    decreases offsets.len() - i,
{
    if i < 0 || i >= offsets.len() {
        Ok(out)
    } else {
        match schema_row_at(file, header, page, offsets[i]) {
            Err(e) => Err(e),
            Ok(row) => leaf_rows_from(file, header, page, offsets, i + 1, out.push(row)),
        }
    }
}

/// The name of a kind of page.
pub open spec fn page_type_name(t: PageType) -> Seq<char> {
    match t {
        PageType::InteriorIndex => "InteriorIndex"@,
        PageType::InteriorTable => "InteriorTable"@,
        PageType::LeafIndex => "LeafIndex"@,
        PageType::LeafTable => "LeafTable"@,
    }
}

/// The failure of a page that cannot stand in the tree of the schema.
pub open spec fn wrong_page(t: PageType) -> ErrorView {
    storage("sqlite schema loader does not support page type "@ + page_type_name(t))
}

/// The failure of pages that lead back to themselves.
pub open spec fn endless() -> ErrorView {
    storage("sqlite schema pages are nested too deeply"@)
}

/// The rows of the schema below pages, from one of them on.
pub open spec fn pages_scanned(
    file: Seq<u8>,
    header: DatabaseHeader,
    children: Seq<u32>,
    k: int,
    depth: nat,
    out: Seq<SchemaRowView>,
) -> Result<Seq<SchemaRowView>, ErrorView>
    decreases depth, children.len() - k + 1,
{
    if k < 0 || k >= children.len() {
        Ok(out)
    } else {
        match page_scanned(file, header, children[k], false, depth, out) {
            Err(e) => Err(e),
            Ok(next) => pages_scanned(file, header, children, k + 1, depth, next),
        }
    }
}

/// The rows of the schema below a page, behind those already there. `depth` bounds how many
/// pages may lead to each other.
pub open spec fn page_scanned(
    file: Seq<u8>,
    header: DatabaseHeader,
    page_no: u32,
    first_page: bool,
    depth: nat,
    out: Seq<SchemaRowView>,
) -> Result<Seq<SchemaRowView>, ErrorView>
    decreases depth, 0int,
{
    if depth == 0 {
        Err(endless())
    } else {
        match page_of(file, header.page_size as int, page_no) {
            Err(e) => Err(e),
            Ok(page) => match page_header(page, first_page) {
                Err(e) => Err(e),
                Ok(page_header) => match page_header.page_type {
                    PageType::LeafTable => match cell_offsets(page, first_page, page_header) {
                        Err(e) => Err(e),
                        Ok(offsets) => leaf_rows_from(file, header, page, offsets, 0, out),
                    },
                    PageType::InteriorTable => match children_of(page, first_page, page_header) {
                        Err(e) => Err(e),
                        Ok(children) => pages_scanned(
                            file,
                            header,
                            children,
                            0,
                            (depth - 1) as nat,
                            out,
                        ),
                    },
                    other => Err(wrong_page(other)),
                },
            },
        }
    }
}

/// The rows of the schema of a file: no more pages lead to each other than there are.
pub open spec fn schema_rows(file: Seq<u8>, header: DatabaseHeader) -> Result<
    Seq<SchemaRowView>,
    ErrorView,
> {
    page_scanned(
        file,
        header,
        1,
        true,
        file.len() / (header.page_size as nat),
        Seq::empty(),
    )
}

/// The model of rows of the schema.
pub open spec fn rows_result(r: DbResult<Vec<SchemaRow>>) -> Result<Seq<SchemaRowView>, ErrorView> {
    match r {
        Ok(v) => Ok(v.deep_view()),
        Err(e) => Err(e@),
    }
}

fn read_leaf_rows(pager: &Pager, page: &Vec<u8>, offsets: &Vec<usize>, start: Vec<SchemaRow>) -> (r:
    DbResult<Vec<SchemaRow>>)
    requires
        pager.wf(),
        page@.len() == pager.known().page_size,
    ensures
        rows_result(r) == leaf_rows_from(
            pager.contents(),
            pager.known(),
            page@,
            Seq::new(offsets@.len(), |i: int| offsets@[i] as int),
            0,
            start.deep_view(),
        ),
{
    let ghost places = Seq::new(offsets@.len(), |i: int| offsets@[i] as int);
    let mut rows = start;
    let mut i: usize = 0;
    while i < offsets.len()
        invariant
            pager.wf(),
            page@.len() == pager.known().page_size,
            places == Seq::new(offsets@.len(), |k: int| offsets@[k] as int),
            i <= offsets@.len(),
            leaf_rows_from(
                pager.contents(),
                pager.known(),
                page@,
                places,
                i as int,
                rows.deep_view(),
            ) == leaf_rows_from(
                pager.contents(),
                pager.known(),
                page@,
                places,
                0,
                start.deep_view(),
            ),
        decreases offsets@.len() - i,
    {
        let row = decode_schema_cell(pager, page, offsets[i])?;
        let ghost before = rows.deep_view();
        rows.push(row);
        assert(rows.deep_view() =~= before.push(row@));
        i = i + 1;
    }
    Ok(rows)
}

fn fail_page_type(t: PageType) -> (r: DbError)
    ensures
        r@ == wrong_page(t),
{
    let name = match t {
        PageType::InteriorIndex => "InteriorIndex",
        PageType::InteriorTable => "InteriorTable",
        PageType::LeafIndex => "LeafIndex",
        PageType::LeafTable => "LeafTable",
    };
    let mut message = "sqlite schema loader does not support page type ".to_owned();
    message.append(name);
    DbError::storage(message.as_str())
}

fn scan_pages(
    pager: &Pager,
    children: &Vec<u32>,
    from: usize,
    depth: usize,
    rows: Vec<SchemaRow>,
) -> (r: DbResult<Vec<SchemaRow>>)
    requires
        pager.wf(),
        from <= children@.len(),
    ensures
        rows_result(r) == pages_scanned(
            pager.contents(),
            pager.known(),
            children@,
            from as int,
            depth as nat,
            rows.deep_view(),
        ),
    decreases depth, children@.len() - from + 1,
{
    if from >= children.len() {
        return Ok(rows);
    }
    let next = scan_schema_page(pager, children[from], false, depth, rows)?;
    scan_pages(pager, children, from + 1, depth, next)
}

fn scan_schema_page(
    pager: &Pager,
    page_no: u32,
    first_page: bool,
    depth: usize,
    rows: Vec<SchemaRow>,
) -> (r: DbResult<Vec<SchemaRow>>)
    requires
        pager.wf(),
    ensures
        rows_result(r) == page_scanned(
            pager.contents(),
            pager.known(),
            page_no,
            first_page,
            depth as nat,
            rows.deep_view(),
        ),
    decreases depth, 0int,
{
    if depth == 0 {
        return Err(DbError::storage("sqlite schema pages are nested too deeply"));
    }
    let page = pager.read_page(page_no)?;
    let header = BtreePageHeader::decode(page.as_slice(), first_page)?;
    match header.page_type {
        PageType::LeafTable => {
            let offsets = schema_cell_offsets(&page, first_page, &header)?;
            read_leaf_rows(pager, &page, &offsets, rows)
        },
        PageType::InteriorTable => {
            let children = decode_interior_table_children(&page, first_page, &header)?;
            scan_pages(pager, &children, 0, depth - 1, rows)
        },
        other => Err(fail_page_type(other)),
    }
}

/// Reads the rows in which a file lists its schema.
pub fn read_schema_rows(pager: &Pager) -> (r: DbResult<Vec<SchemaRow>>)
    requires
        pager.wf(),
    ensures
        rows_result(r) == schema_rows(pager.contents(), pager.known()),
{
    let depth: usize = pager.whole_pages();
    let none: Vec<SchemaRow> = Vec::new();
    assert(none.deep_view() =~= Seq::<SchemaRowView>::empty());
    scan_schema_page(pager, 1, true, depth, none)
}

} // verus!
