//! What is written on pages is what is read from them.

use vstd::prelude::*;
use vstd::utf8::encode_utf8;

use crate::common::bytes::{
    be_bytes, lemma_be_bytes_len, lemma_be_round_trip, lemma_byte_ranges, splice,
};
use crate::common::error::ErrorView;
use crate::common::ordmap::OrdKey;
use crate::common::value::SqlValue;
use crate::sqlite3::layout::{
    filled_from, finished, header_bytes, law_overflow_round_trip, lemma_pointer_bytes_len,
    local_len, overflowed, page_built, pointer_bytes, rendered, CellView, Sheet, SheetsView,
};
use crate::sqlite3::page::{number_at, page_header, PageType};
use crate::sqlite3::pager::{page_of, DatabaseHeader};
use crate::sqlite3::entries::record_of;
use crate::sqlite3::reals::{Facts, StopView};
use crate::sqlite3::record::{
    integer_serial, law_record_round_trip, lemma_no_fault, record_header, serial, serials_of,
    stored, value_at, values_from,
};
use crate::sqlite3::render_schema::create_index_text;
use crate::sqlite3::schema_rows::{
    cell_offsets, leaf_payload, leaf_rows_from, local_part, offsets_from, pointers_start,
    schema_record, schema_row_at, schema_row_of, schema_rows, schema_value_at, schema_values_from,
    SchemaRowView,
};
use crate::sqlite3::varint::{law_varint_round_trip, varint, varint_at_start, varint_len};
use crate::sqlite3::writer::{
    database_file, database_header, extra_rows_from, first_free_page, index_root, index_rows_from,
    indexes_from, is_auto_name, is_synthesized, law_written_file_opens, lemma_header_parts,
    names_of, pages_written, physical_indexes, places_from, places_of_table, schema_cells,
    schema_entry, schema_row, sequence_added, sequence_root, sql_text, table_from, table_root,
    table_rows_from, table_sql, tables_from, IndexPlace, WritableDatabase, WritableSchemaObject,
};

verus! {

/// The cells from a position on as they stand on their page.
pub open spec fn cell_texts(s: SheetsView, cells: Seq<CellView>, i: int) -> Seq<Seq<u8>>
    decreases cells.len() - i,
{
    if i < 0 || i >= cells.len() {
        Seq::empty()
    } else {
        match rendered(s, cells[i]) {
            Err(_) => Seq::empty(),
            Ok((next, bytes)) => seq![bytes] + cell_texts(next, cells, i + 1),
        }
    }
}

/// Whether texts stand on a page where pointers say, none before a position.
pub open spec fn texts_stand(page: Seq<u8>, texts: Seq<Seq<u8>>, pointers: Seq<int>, low: int) -> bool {
    &&& pointers.len() == texts.len()
    &&& forall|k: int|
        0 <= k < texts.len() ==> text_stands(page, #[trigger] texts[k], pointers[k], low)
}

/// Whether a text stands on a page at a position, which is not before another.
pub open spec fn text_stands(page: Seq<u8>, text: Seq<u8>, at: int, low: int) -> bool {
    &&& low <= at
    &&& at + text.len() <= page.len()
    &&& page.subrange(at, at + text.len()) == text
}

/// Where the cells of a page may start at the earliest.
pub open spec fn room_start(sheet: Sheet, count: nat) -> int {
    sheet.offset() + sheet.header_len() + 2 * count
}

proof fn lemma_header_len(sheet: Sheet, count: int, start: int)
    requires
        0 <= count,
        0 <= start,
    ensures
        header_bytes(sheet, count, start).len() == sheet.header_len(),
{
    lemma_be_bytes_len(count as nat, 2);
    lemma_be_bytes_len(start as nat, 2);
    match sheet.rightmost() {
        Some(p) => {
            lemma_be_bytes_len(p as nat, 4);
        },
        None => {},
    }
}

proof fn lemma_finished(
    sheet: Sheet,
    page: Seq<u8>,
    start: int,
    pointers: Seq<int>,
    texts: Seq<Seq<u8>>,
)
    requires
        page.len() == 4096,
        room_start(sheet, pointers.len()) <= start <= 4096,
        texts_stand(page, texts, pointers, start),
    ensures
        ({
            let out = finished(sheet, page, start, pointers);
            let at = sheet.offset() + sheet.header_len();
            &&& out.len() == 4096
            &&& texts_stand(out, texts, pointers, room_start(sheet, pointers.len()))
            &&& out.subrange(sheet.offset(), at) == header_bytes(
                sheet,
                pointers.len() as int,
                start,
            )
            &&& out.subrange(at, at + 2 * pointers.len()) == pointer_bytes(pointers)
        }),
{
    let out = finished(sheet, page, start, pointers);
    let low = room_start(sheet, pointers.len());
    let at = sheet.offset() + sheet.header_len();
    lemma_header_len(sheet, pointers.len() as int, start);
    lemma_pointer_bytes_len(pointers);
    assert forall|k: int| 0 <= k < texts.len() implies text_stands(
        out,
        #[trigger] texts[k],
        pointers[k],
        low,
    ) by {
        assert(text_stands(page, texts[k], pointers[k], start));
        let end = pointers[k] + texts[k].len();
        assert(out.subrange(pointers[k], end) =~= page.subrange(pointers[k], end));
    }
    assert(out.subrange(sheet.offset(), at) =~= header_bytes(sheet, pointers.len() as int, start));
    assert(out.subrange(at, at + 2 * pointers.len()) =~= pointer_bytes(pointers));
}

/// Cells put on a page from its end towards its start all stand there in the end.
proof fn lemma_filled(
    s: SheetsView,
    sheet: Sheet,
    cells: Seq<CellView>,
    i: int,
    page: Seq<u8>,
    start: int,
    pointers: Seq<int>,
    texts: Seq<Seq<u8>>,
) -> (r: (Seq<int>, int))
    requires
        filled_from(s, sheet, cells, i, page, start, pointers) is Ok,
        page.len() == 4096,
        0 <= i <= cells.len(),
        pointers.len() == i,
        start <= 4096,
        i == 0 ==> start == 4096,
        i > 0 ==> room_start(sheet, cells.len()) <= start,
        texts_stand(page, texts, pointers, start),
    ensures
        ({
            let out = filled_from(s, sheet, cells, i, page, start, pointers)->Ok_0.1;
            let at = sheet.offset() + sheet.header_len();
            &&& r.0.len() == cells.len()
            &&& room_start(sheet, cells.len()) <= r.1 <= 4096
            &&& out.len() == 4096
            &&& texts_stand(
                out,
                texts + cell_texts(s, cells, i),
                r.0,
                room_start(sheet, cells.len()),
            )
            &&& out.subrange(sheet.offset(), at) == header_bytes(sheet, cells.len() as int, r.1)
            &&& out.subrange(at, at + 2 * cells.len()) == pointer_bytes(r.0)
        }),
    decreases cells.len() - i,
{
    if i < cells.len() {
        let (next, bytes) = rendered(s, cells[i])->Ok_0;
        let to = start - bytes.len();
        let after = splice(page, to, bytes);
        let more = texts.push(bytes);
        let places = pointers.push(to);
        assert forall|k: int| 0 <= k < more.len() implies text_stands(
            after,
            #[trigger] more[k],
            places[k],
            to,
        ) by {
            if k < texts.len() {
                assert(text_stands(page, texts[k], pointers[k], start));
                let end = pointers[k] + texts[k].len();
                assert(after.subrange(pointers[k], end) =~= page.subrange(pointers[k], end));
            } else {
                assert(after.subrange(to, start) =~= bytes);
            }
        }
        let r = lemma_filled(next, sheet, cells, i + 1, after, to, places, more);
        assert(texts + cell_texts(s, cells, i) =~= more + cell_texts(next, cells, i + 1));
        r
    } else {
        assert(texts + cell_texts(s, cells, i) =~= texts);
        lemma_finished(sheet, page, start, pointers, texts);
        (pointers, start)
    }
}

proof fn lemma_pointer_at(pointers: Seq<int>, i: int)
    requires
        0 <= i < pointers.len(),
    ensures
        pointer_bytes(pointers).len() == 2 * pointers.len(),
        pointer_bytes(pointers).subrange(2 * i, 2 * i + 2) == be_bytes(pointers[i] as nat, 2),
    decreases pointers.len(),
{
    let before = pointers.drop_last();
    let last = be_bytes(pointers.last() as nat, 2);
    lemma_pointer_bytes_len(pointers);
    lemma_pointer_bytes_len(before);
    lemma_be_bytes_len(pointers.last() as nat, 2);
    assert(pointer_bytes(pointers) == pointer_bytes(before) + last);
    if i < before.len() {
        lemma_pointer_at(before, i);
        assert(pointer_bytes(pointers).subrange(2 * i, 2 * i + 2) =~= pointer_bytes(before).subrange(
            2 * i,
            2 * i + 2,
        ));
    } else {
        assert(pointer_bytes(pointers).subrange(2 * i, 2 * i + 2) =~= last);
    }
}

proof fn lemma_offsets_read(page: Seq<u8>, start: int, pointers: Seq<int>, i: int)
    requires
        0 <= i <= pointers.len(),
        0 <= start,
        start + 2 * pointers.len() <= page.len(),
        page.subrange(start, start + 2 * pointers.len()) == pointer_bytes(pointers),
        forall|k: int| 0 <= k < pointers.len() ==> 0 <= #[trigger] pointers[k] < 65_536,
    ensures
        offsets_from(page, start, pointers.len() as int, i, pointers.take(i)) == Ok::<_, ErrorView>(
            pointers,
        ),
    decreases pointers.len() - i,
{
    if i < pointers.len() {
        lemma_pointer_at(pointers, i);
        lemma_byte_ranges();
        lemma_be_round_trip(pointers[i] as nat, 2);
        assert(page.subrange(start + 2 * i, start + 2 * i + 2) =~= pointer_bytes(pointers).subrange(
            2 * i,
            2 * i + 2,
        ));
        assert(pointers.take(i + 1) =~= pointers.take(i).push(pointers[i]));
        lemma_offsets_read(page, start, pointers, i + 1);
    } else {
        assert(pointers.take(i) =~= pointers);
    }
}

/// The kind of page that a sheet is.
pub open spec fn sheet_type(sheet: Sheet) -> PageType {
    match sheet {
        Sheet::FirstLeafTable => PageType::LeafTable,
        Sheet::LeafTable => PageType::LeafTable,
        Sheet::LeafIndex => PageType::LeafIndex,
        Sheet::InteriorTable { .. } => PageType::InteriorTable,
        Sheet::InteriorIndex { .. } => PageType::InteriorIndex,
    }
}

/// What is read of a page on which cells were put: its kind, its last child, as many positions
/// as there are cells, and at each position the cell. This holds of any page that is the same
/// from the header on, so that the header of a file may stand in front.
pub proof fn law_built_page_is_read(s: SheetsView, sheet: Sheet, cells: Seq<CellView>, page: Seq<u8>)
    requires
        page_built(s, sheet, cells) is Ok,
        page.len() == 4096,
        forall|i: int|
            sheet.offset() <= i < 4096 ==> #[trigger] page[i] == page_built(
                s,
                sheet,
                cells,
            )->Ok_0.1[i],
    ensures
        ({
            let first = sheet is FirstLeafTable;
            let header = page_header(page, first);
            &&& header is Ok
            &&& header->Ok_0.page_type == sheet_type(sheet)
            &&& header->Ok_0.rightmost_pointer == sheet.rightmost()
            &&& header->Ok_0.cell_count == cells.len()
            &&& cell_offsets(page, first, header->Ok_0) is Ok
            &&& texts_stand(
                page,
                cell_texts(s, cells, 0),
                cell_offsets(page, first, header->Ok_0)->Ok_0,
                room_start(sheet, cells.len()),
            )
        }),
{
    let built = page_built(s, sheet, cells)->Ok_0.1;
    let blank = crate::sqlite3::layout::blank_page();
    let (pointers, start) = lemma_filled(
        s,
        sheet,
        cells,
        0,
        blank,
        4096,
        Seq::empty(),
        Seq::empty(),
    );
    let texts = cell_texts(s, cells, 0);
    assert(Seq::<Seq<u8>>::empty() + texts =~= texts);
    let low = room_start(sheet, cells.len());
    assert forall|k: int| 0 <= k < texts.len() implies text_stands(
        page,
        #[trigger] texts[k],
        pointers[k],
        low,
    ) by {
        assert(text_stands(built, texts[k], pointers[k], low));
        let end = pointers[k] + texts[k].len();
        assert(page.subrange(pointers[k], end) =~= built.subrange(pointers[k], end));
    }
    let at = sheet.offset();
    let behind = at + sheet.header_len();
    let count = cells.len() as int;
    let hb = header_bytes(sheet, count, start);
    lemma_header_len(sheet, count, start);
    assert(page.subrange(at, behind) =~= built.subrange(at, behind));
    assert(page.subrange(behind, behind + 2 * count) =~= built.subrange(behind, behind + 2 * count));
    lemma_byte_ranges();
    lemma_be_bytes_len(count as nat, 2);
    lemma_be_bytes_len(start as nat, 2);
    lemma_be_round_trip(count as nat, 2);
    assert(page[at] == hb[0]) by {
        assert(page.subrange(at, behind)[0] == hb[0]);
    }
    assert(page.subrange(at + 3, at + 5) =~= page.subrange(at, behind).subrange(3, 5));
    assert(hb.subrange(3, 5) =~= be_bytes(count as nat, 2));
    assert(number_at(page, at + 3, 2) == count);
    match sheet.rightmost() {
        Some(p) => {
            lemma_be_bytes_len(p as nat, 4);
            lemma_be_round_trip(p as nat, 4);
            assert(page.subrange(at + 8, at + 12) =~= page.subrange(at, behind).subrange(8, 12));
            assert(hb.subrange(8, 12) =~= be_bytes(p as nat, 4));
        },
        None => {},
    }
    let first = sheet is FirstLeafTable;
    let header = page_header(page, first)->Ok_0;
    assert(pointers_start(first, header) == behind);
    assert forall|k: int| 0 <= k < pointers.len() implies 0 <= #[trigger] pointers[k] < 65_536 by {
        assert(text_stands(built, texts[k], pointers[k], low));
    }
    assert(pointers.take(0) =~= Seq::<int>::empty());
    lemma_offsets_read(page, behind, pointers, 0);
}

// ---------------------------------------------------------------------------
// Rows of tables

/// The header of a file that was written.
pub open spec fn written_header() -> DatabaseHeader {
    DatabaseHeader { page_size: 4096, reserved: 0 }
}

/// A row in a cell of a leaf page of a table is read back: its size, its number, and its record,
/// be it on the page or on overflow pages.
pub proof fn law_leaf_cell_is_read(
    s: SheetsView,
    row_id: u64,
    payload: Seq<u8>,
    page: Seq<u8>,
    at: int,
    file: Seq<u8>,
)
    requires
        s.next > 0,
        payload.len() <= usize::MAX,
        page.len() == 4096,
        ({
            let cell = CellView::Spilling {
                before: Seq::empty(),
                after: varint(row_id),
                payload,
                is_index: false,
            };
            &&& rendered(s, cell) is Ok
            &&& text_stands(page, rendered(s, cell)->Ok_0.1, at, 0)
            &&& forall|p: u32|
                (#[trigger] rendered(s, cell)->Ok_0.0.pages.dom().contains(p as u64)) ==> page_of(
                    file,
                    4096,
                    p,
                ) == Ok::<Seq<u8>, ErrorView>(rendered(s, cell)->Ok_0.0.pages[p as u64])
        }),
    ensures
        ({
            let size = payload.len();
            let n = varint_len(size as u64) as int;
            let m = varint_len(row_id) as int;
            &&& varint_at_start(page.skip(at)) == Ok::<_, ErrorView>((size as u64, n as usize))
            &&& varint_at_start(page.skip(at + n)) == Ok::<_, ErrorView>((row_id, m as usize))
            &&& leaf_payload(file, written_header(), page, at + n + m, size as int) == Ok::<
                _,
                ErrorView,
            >(payload)
        }),
{
    let cell = CellView::Spilling {
        before: Seq::empty(),
        after: varint(row_id),
        payload,
        is_index: false,
    };
    let text = rendered(s, cell)->Ok_0.1;
    let size = varint(payload.len() as u64);
    let number = varint(row_id);
    let local = local_len(payload.len() as int, false);
    let n = size.len() as int;
    let m = number.len() as int;
    law_varint_round_trip(payload.len() as u64, page.skip(at + varint_len(payload.len() as u64)));
    law_varint_round_trip(row_id, page.skip(at + n + varint_len(row_id)));
    let part = payload.take(local);
    assert(0 <= local <= payload.len());
    let rest = if local < payload.len() {
        be_bytes(overflowed(s, payload.skip(local))->Ok_0.1 as nat, 4)
    } else {
        Seq::empty()
    };
    assert(text =~= size + number + part + rest);
    let stands = page.subrange(at, at + text.len());
    assert(page.skip(at) =~= size + page.skip(at + n)) by {
        assert forall|i: int| 0 <= i < n implies page[at + i] == size[i] by {
            assert(stands[i] == text[i]);
        }
    }
    assert(page.skip(at + n) =~= number + page.skip(at + n + m)) by {
        assert forall|i: int| 0 <= i < m implies page[at + n + i] == number[i] by {
            assert(stands[n + i] == text[n + i]);
        }
    }
    let from = at + n + m;
    assert(page.subrange(from, from + local) =~= part) by {
        assert forall|i: int| 0 <= i < local implies page[from + i] == part[i] by {
            assert(stands[n + m + i] == text[n + m + i]);
        }
    }
    assert(local_part(4096, payload.len() as int) == local);
    if local < payload.len() {
        let (after, first) = overflowed(s, payload.skip(local))->Ok_0;
        lemma_be_bytes_len(first as nat, 4);
        lemma_byte_ranges();
        lemma_be_round_trip(first as nat, 4);
        assert(page.subrange(from + local, from + local + 4) =~= rest) by {
            assert forall|i: int| 0 <= i < 4 implies page[from + local + i] == rest[i] by {
                assert(stands[n + m + local + i] == text[n + m + local + i]);
            }
        }
        assert forall|p: u32|
            (#[trigger] overflowed(s, payload.skip(local))->Ok_0.0.pages.dom().contains(
                p as u64,
            )) implies page_of(file, 4096, p) == Ok::<Seq<u8>, ErrorView>(
            overflowed(s, payload.skip(local))->Ok_0.0.pages[p as u64],
        ) by {
            assert(rendered(s, cell)->Ok_0.0 == after);
            assert(rendered(s, cell)->Ok_0.0.pages.dom().contains(p as u64));
        }
        law_overflow_round_trip(s, payload.skip(local), file);
        assert(first == s.next);
        assert(part + payload.skip(local) =~= payload);
    } else {
        assert(part =~= payload);
    }
}

// ---------------------------------------------------------------------------
// The schema

/// A value of the schema as a record gives it back to a reader of the schema.
spec fn as_integer(v: SqlValue) -> SqlValue {
    match v {
        SqlValue::Boolean(b) => SqlValue::Integer(
            if b {
                1
            } else {
                0
            },
        ),
        _ => v,
    }
}

/// Reading values of the schema gives what reading them as a row gives, but that zero and one
/// are integers.
proof fn lemma_schema_values(
    b: Seq<u8>,
    serials: Seq<u64>,
    k: int,
    at: int,
    row: Seq<SqlValue>,
    out: Seq<SqlValue>,
)
    requires
        0 <= k <= serials.len(),
        forall|j: int|
            0 <= j < serials.len() ==> (#[trigger] serials[j] <= 9 && serials[j] != 7) || (serials[j]
                >= 13 && serials[j] % 2 == 1),
        out == row.map_values(|v: SqlValue| as_integer(v)),
        values_from(b, serials, k, at, row) is Ok,
    ensures
        schema_values_from(b, serials, k, at, out) == Ok::<_, ErrorView>(
            values_from(b, serials, k, at, row)->Ok_0.map_values(|v: SqlValue| as_integer(v)),
        ),
    decreases serials.len() - k,
{
    if k < serials.len() {
        let (v, next) = value_at(b, serials[k], at)->Ok_0;
        assert(serials[k] <= 9 || serials[k] >= 13);
        let (w, end) = schema_value_at(b, serials[k], at)->Ok_0;
        assert(w == as_integer(v) && end == next);
        assert(out.push(w) =~= row.push(v).map_values(|v: SqlValue| as_integer(v)));
        lemma_schema_values(b, serials, k + 1, next, row.push(v), out.push(w));
    }
}

/// A row of the schema in its record.
proof fn lemma_schema_record(row: SchemaRowView, payload: Seq<u8>)
    requires
        record_of(row_values(row)) == Ok::<_, StopView>(payload),
    ensures
        schema_record(payload) == Ok::<_, ErrorView>(row_values(row)),
        schema_row_of(row_values(row)) == Ok::<_, ErrorView>(row),
{
    let values = row_values(row);
    law_record_round_trip(values);
    let serials = serials_of(values);
    let (_, at) = record_header(payload)->Ok_0;
    assert forall|j: int| 0 <= j < serials.len() implies (#[trigger] serials[j] <= 9 && serials[j]
        != 7) || (serials[j] >= 13 && serials[j] % 2 == 1) by {
        lemma_no_fault(values, 0, j);
        assert(serials[j] == serial(values[j]));
        match values[j] {
            SqlValue::Integer(i) => {
                assert(integer_serial(i) <= 9 && integer_serial(i) != 7);
            },
            SqlValue::Text(t) => {
                assert((2 * encode_utf8(t).len() + 13) % 2 == 1);
            },
            _ => {},
        }
    }
    let stored_values = values.map_values(|v: SqlValue| stored(v));
    assert(Seq::<SqlValue>::empty().map_values(|v: SqlValue| as_integer(v)) =~= Seq::empty());
    lemma_schema_values(payload, serials, 0, at, Seq::empty(), Seq::empty());
    assert(stored_values.map_values(|v: SqlValue| as_integer(v)) =~= values);
}

/// The values of a row of the schema.
pub open spec fn row_values(row: SchemaRowView) -> Seq<SqlValue> {
    schema_row(row.entry_type, row.name, row.table_name, row.root_page, row.sql)
}

/// Whether a cell is a row of the schema.
pub open spec fn is_entry(c: CellView, row_id: nat, row: SchemaRowView) -> bool {
    schema_entry(row_id, row.entry_type, row.name, row.table_name, row.root_page, row.sql) == Ok::<
        CellView,
        StopView,
    >(c)
}

/// A row of the schema is read back from its cell.
#[verifier::spinoff_prover]
#[verifier::rlimit(60)]
proof fn lemma_schema_row_read(
    file: Seq<u8>,
    page: Seq<u8>,
    at: int,
    c: CellView,
    row_id: nat,
    row: SchemaRowView,
)
    requires
        is_entry(c, row_id, row),
        page.len() == 4096,
        text_stands(page, c->bytes, at, 108),
    ensures
        schema_row_at(file, written_header(), page, at) == Ok::<_, ErrorView>(row),
{
    let payload = record_of(row_values(row))->Ok_0;
    let size = varint(payload.len() as u64);
    let number = varint(row_id as u64);
    let text = size + number + payload;
    let n = size.len() as int;
    let m = number.len() as int;
    law_varint_round_trip(payload.len() as u64, page.skip(at + varint_len(payload.len() as u64)));
    law_varint_round_trip(row_id as u64, page.skip(at + n + varint_len(row_id as u64)));
    let stands = page.subrange(at, at + text.len());
    assert(stands == text);
    assert(page.skip(at) =~= size + page.skip(at + n)) by {
        assert forall|i: int| 0 <= i < n implies page[at + i] == size[i] by {
            assert(stands[i] == text[i]);
        }
    }
    assert(page.skip(at + n) =~= number + page.skip(at + n + m)) by {
        assert forall|i: int| 0 <= i < m implies page[at + n + i] == number[i] by {
            assert(stands[n + i] == text[n + i]);
        }
    }
    let from = at + n + m;
    assert(page.subrange(from, from + payload.len()) =~= payload) by {
        assert forall|i: int| 0 <= i < payload.len() implies page[from + i] == payload[i] by {
            assert(stands[n + m + i] == text[n + m + i]);
        }
    }
    lemma_schema_record(row, payload);
}

/// Whether cells are rows of the schema, each under its number.
#[verifier::opaque]
pub open spec fn are_entries(cells: Seq<CellView>, rows: Seq<SchemaRowView>) -> bool {
    &&& cells.len() == rows.len()
    &&& forall|k: int|
        0 <= k < cells.len() ==> is_entry(#[trigger] cells[k], (k + 1) as nat, rows[k])
}

proof fn lemma_entry_added(
    cells: Seq<CellView>,
    rows: Seq<SchemaRowView>,
    row: SchemaRowView,
    c: CellView,
)
    requires
        are_entries(cells, rows),
        is_entry(c, cells.len() + 1, row),
    ensures
        are_entries(cells.push(c), rows.push(row)),
{
    reveal(are_entries);
}

/// The row of the schema for a table.
#[verifier::opaque]
pub open spec fn table_row(f: Facts, db: WritableDatabase, i: int) -> SchemaRowView {
    let (name, table) = db.tables@[i];
    SchemaRowView {
        entry_type: if table.schema.view {
            "view"@
        } else {
            "table"@
        },
        name: name@,
        table_name: name@,
        root_page: if table.schema.view {
            0
        } else {
            table_root(db, i)
        },
        sql: Some(table_sql(f, table.schema)->Ok_0),
    }
}

/// The row of the schema for an index.
pub open spec fn index_row(db: WritableDatabase, places: Seq<IndexPlace>, k: int) -> SchemaRowView {
    let (_, outer, inner) = places[k];
    let table = db.indexes@[outer as int].0@;
    let (name, index) = db.indexes@[outer as int].1@[inner as int];
    SchemaRowView {
        entry_type: "index"@,
        name: name@,
        table_name: table,
        root_page: index_root(db, k),
        sql: if is_auto_name(name@) {
            None
        } else {
            Some(create_index_text(table, index.meta))
        },
    }
}

/// The row of the schema for another object.
pub open spec fn extra_row(object: WritableSchemaObject) -> SchemaRowView {
    SchemaRowView {
        entry_type: object.entry_type@,
        name: object.name@,
        table_name: object.table_name@,
        root_page: object.root_page,
        sql: sql_text(object.sql),
    }
}

/// The row of the schema for the table of sequences.
pub open spec fn sequences_row(db: WritableDatabase) -> SchemaRowView {
    SchemaRowView {
        entry_type: "table"@,
        name: "sqlite_sequence"@,
        table_name: "sqlite_sequence"@,
        root_page: sequence_root(db),
        sql: Some("CREATE TABLE sqlite_sequence(name,seq)"@),
    }
}

/// The rows of the schema: tables, indexes, other objects and the table of sequences.
pub open spec fn schema_list(f: Facts, db: WritableDatabase, places: Seq<IndexPlace>) -> Seq<
    SchemaRowView,
> {
    let objects = db.extra_schema_objects@;
    Seq::new(db.tables@.len(), |i: int| table_row(f, db, i)) + Seq::new(
        places.len(),
        |k: int| index_row(db, places, k),
    ) + Seq::new(objects.len(), |i: int| extra_row(objects[i])) + (if db.sqlite_sequence_exists {
        seq![sequences_row(db)]
    } else {
        Seq::empty()
    })
}

/// The rows of the schema for tables from one on.
spec fn tables_listed(f: Facts, db: WritableDatabase, i: int) -> Seq<SchemaRowView> {
    Seq::new((db.tables@.len() - i) as nat, |k: int| table_row(f, db, i + k))
}

proof fn lemma_rest_of_tables(f: Facts, db: WritableDatabase, i: int, rows: Seq<SchemaRowView>)
    requires
        0 <= i < db.tables@.len(),
    ensures
        rows + tables_listed(f, db, i) == rows.push(table_row(f, db, i)) + tables_listed(
            f,
            db,
            i + 1,
        ),
{
    assert(rows + tables_listed(f, db, i) =~= rows.push(table_row(f, db, i)) + tables_listed(
        f,
        db,
        i + 1,
    ));
}

proof fn lemma_table_row(f: Facts, db: WritableDatabase, i: int, row_id: nat)
    ensures
        ({
            let (name, table) = db.tables@[i];
            let row = table_row(f, db, i);
            &&& row.name == name@
            &&& schema_entry(
                row_id,
                row.entry_type,
                row.name,
                row.table_name,
                row.root_page,
                row.sql,
            ) == schema_entry(
                row_id,
                if table.schema.view {
                    "view"@
                } else {
                    "table"@
                },
                name@,
                name@,
                if table.schema.view {
                    0
                } else {
                    table_root(db, i)
                },
                Some(table_sql(f, table.schema)->Ok_0),
            )
        }),
{
    reveal(table_row);
}

proof fn lemma_table_entries(
    f: Facts,
    db: WritableDatabase,
    i: int,
    out: Seq<CellView>,
    rows: Seq<SchemaRowView>,
)
    requires
        0 <= i <= db.tables@.len(),
        are_entries(out, rows),
        table_rows_from(f, db, i, out) is Ok,
    ensures
        are_entries(table_rows_from(f, db, i, out)->Ok_0, rows + tables_listed(f, db, i)),
    decreases db.tables@.len() - i,
{
    if i >= db.tables@.len() {
        assert(rows + tables_listed(f, db, i) =~= rows);
    } else {
        let row = table_row(f, db, i);
        lemma_table_row(f, db, i, out.len() + 1);
        let c = schema_entry(
            out.len() + 1,
            row.entry_type,
            row.name,
            row.table_name,
            row.root_page,
            row.sql,
        )->Ok_0;
        lemma_entry_added(out, rows, row, c);
        lemma_rest_of_tables(f, db, i, rows);
        lemma_table_entries(f, db, i + 1, out.push(c), rows.push(row));
    }
}

proof fn lemma_index_entries(
    db: WritableDatabase,
    places: Seq<IndexPlace>,
    k: int,
    out: Seq<CellView>,
    rows: Seq<SchemaRowView>,
)
    requires
        0 <= k <= places.len(),
        are_entries(out, rows),
        index_rows_from(db, places, k, out) is Ok,
    ensures
        are_entries(
            index_rows_from(db, places, k, out)->Ok_0,
            rows + Seq::new((places.len() - k) as nat, |j: int| index_row(db, places, k + j)),
        ),
    decreases places.len() - k,
{
    let rest = Seq::new((places.len() - k) as nat, |j: int| index_row(db, places, k + j));
    if k >= places.len() {
        assert(rows + rest =~= rows);
    } else {
        let row = index_row(db, places, k);
        let c = schema_entry(
            out.len() + 1,
            row.entry_type,
            row.name,
            row.table_name,
            row.root_page,
            row.sql,
        )->Ok_0;
        lemma_entry_added(out, rows, row, c);
        lemma_index_entries(db, places, k + 1, out.push(c), rows.push(row));
        assert(rows + rest =~= rows.push(row) + Seq::new(
            (places.len() - (k + 1)) as nat,
            |j: int| index_row(db, places, k + 1 + j),
        ));
    }
}

proof fn lemma_extra_entries(
    objects: Seq<WritableSchemaObject>,
    i: int,
    out: Seq<CellView>,
    rows: Seq<SchemaRowView>,
)
    requires
        0 <= i <= objects.len(),
        are_entries(out, rows),
        extra_rows_from(objects, i, out) is Ok,
    ensures
        are_entries(
            extra_rows_from(objects, i, out)->Ok_0,
            rows + Seq::new((objects.len() - i) as nat, |j: int| extra_row(objects[i + j])),
        ),
    decreases objects.len() - i,
{
    let rest = Seq::new((objects.len() - i) as nat, |j: int| extra_row(objects[i + j]));
    if i >= objects.len() {
        assert(rows + rest =~= rows);
    } else {
        let row = extra_row(objects[i]);
        let c = schema_entry(
            out.len() + 1,
            row.entry_type,
            row.name,
            row.table_name,
            row.root_page,
            row.sql,
        )->Ok_0;
        lemma_entry_added(out, rows, row, c);
        lemma_extra_entries(objects, i + 1, out.push(c), rows.push(row));
        assert(rows + rest =~= rows.push(row) + Seq::new(
            (objects.len() - (i + 1)) as nat,
            |j: int| extra_row(objects[i + 1 + j]),
        ));
    }
}

proof fn lemma_listed_together(f: Facts, db: WritableDatabase, places: Seq<IndexPlace>)
    ensures
        ({
            let objects = db.extra_schema_objects@;
            let extras = Seq::<SchemaRowView>::empty() + tables_listed(f, db, 0) + Seq::new(
                places.len(),
                |j: int| index_row(db, places, 0 + j),
            ) + Seq::new(objects.len(), |j: int| extra_row(objects[0 + j]));
            schema_list(f, db, places) == if db.sqlite_sequence_exists {
                extras.push(sequences_row(db))
            } else {
                extras
            }
        }),
{
    let objects = db.extra_schema_objects@;
    let extras = Seq::<SchemaRowView>::empty() + tables_listed(f, db, 0) + Seq::new(
        places.len(),
        |j: int| index_row(db, places, 0 + j),
    ) + Seq::new(objects.len(), |j: int| extra_row(objects[0 + j]));
    if db.sqlite_sequence_exists {
        assert(schema_list(f, db, places) =~= extras.push(sequences_row(db)));
    } else {
        assert(schema_list(f, db, places) =~= extras);
    }
}

/// The cells of the schema are its rows.
#[verifier::spinoff_prover]
#[verifier::rlimit(60)]
proof fn lemma_schema_entries(f: Facts, db: WritableDatabase, places: Seq<IndexPlace>)
    requires
        schema_cells(f, db, places) is Ok,
    ensures
        are_entries(schema_cells(f, db, places)->Ok_0, schema_list(f, db, places)),
{
    let objects = db.extra_schema_objects@;
    let none = Seq::<SchemaRowView>::empty();
    assert(are_entries(Seq::empty(), none)) by {
        reveal(are_entries);
    }
    lemma_table_entries(f, db, 0, Seq::empty(), none);
    let tables = none + tables_listed(f, db, 0);
    let tabled = table_rows_from(f, db, 0, Seq::empty())->Ok_0;
    lemma_index_entries(db, places, 0, tabled, tables);
    let indexes = tables + Seq::new(places.len(), |j: int| index_row(db, places, 0 + j));
    let indexed = index_rows_from(db, places, 0, tabled)->Ok_0;
    lemma_extra_entries(objects, 0, indexed, indexes);
    let extras = indexes + Seq::new(objects.len(), |j: int| extra_row(objects[0 + j]));
    let out = extra_rows_from(objects, 0, indexed)->Ok_0;
    if db.sqlite_sequence_exists {
        let row = sequences_row(db);
        let c = schema_entry(
            out.len() + 1,
            row.entry_type,
            row.name,
            row.table_name,
            row.root_page,
            row.sql,
        )->Ok_0;
        lemma_entry_added(out, extras, row, c);
    }
    lemma_listed_together(f, db, places);
}

proof fn lemma_fixed_texts(s: SheetsView, cells: Seq<CellView>, rows: Seq<SchemaRowView>, i: int)
    requires
        are_entries(cells, rows),
        0 <= i <= cells.len(),
    ensures
        cell_texts(s, cells, i).len() == cells.len() - i,
        forall|k: int|
            i <= k < cells.len() ==> cell_texts(s, cells, i)[k - i] == (#[trigger] cells[k])->bytes,
    decreases cells.len() - i,
{
    reveal(are_entries);
    if i < cells.len() {
        assert(is_entry(cells[i], (i + 1) as nat, rows[i]));
        lemma_fixed_texts(s, cells, rows, i + 1);
        let rest = cell_texts(s, cells, i + 1);
        assert(cell_texts(s, cells, i) == seq![cells[i]->bytes] + rest);
        assert forall|k: int| i <= k < cells.len() implies cell_texts(s, cells, i)[k - i] == (
        #[trigger] cells[k])->bytes by {
            if k > i {
                assert(rest[k - (i + 1)] == cells[k]->bytes);
            }
        }
    }
}

proof fn lemma_rows_read(
    file: Seq<u8>,
    page: Seq<u8>,
    cells: Seq<CellView>,
    rows: Seq<SchemaRowView>,
    offsets: Seq<int>,
    i: int,
)
    requires
        are_entries(cells, rows),
        page.len() == 4096,
        0 <= i <= cells.len(),
        offsets.len() == cells.len(),
        forall|k: int|
            0 <= k < cells.len() ==> text_stands(
                page,
                (#[trigger] cells[k])->bytes,
                offsets[k],
                108,
            ),
    ensures
        leaf_rows_from(file, written_header(), page, offsets, i, rows.take(i)) == Ok::<
            _,
            ErrorView,
        >(rows),
    decreases cells.len() - i,
{
    reveal(are_entries);
    if i < cells.len() {
        assert(is_entry(cells[i], (i + 1) as nat, rows[i]));
        lemma_schema_row_read(file, page, offsets[i], cells[i], (i + 1) as nat, rows[i]);
        assert(rows.take(i + 1) =~= rows.take(i).push(rows[i]));
        lemma_rows_read(file, page, cells, rows, offsets, i + 1);
    } else {
        assert(rows.take(i) =~= rows);
    }
}

/// The schema of a file that was written is read back: its rows are those of the tables, the
/// indexes, the other objects and the table of sequences.
pub proof fn law_written_schema_is_read(f: Facts, db: WritableDatabase)
    requires
        database_file(f, db) is Ok,
    ensures
        schema_cells(f, db, physical_indexes(db)->Ok_0) is Ok,
        schema_rows(database_file(f, db)->Ok_0, written_header()) == Ok::<_, ErrorView>(
            schema_list(f, db, physical_indexes(db)->Ok_0),
        ),
{
    let file = database_file(f, db)->Ok_0;
    let next = first_free_page(db)->Ok_0;
    let places = physical_indexes(db)->Ok_0;
    law_written_file_opens(f, db);
    let s = pages_written(f, db, next, places)->Ok_0;
    let s1 = tables_from(f, db, SheetsView { next, pages: Map::empty() }, 0)->Ok_0;
    let s2 = sequence_added(f, db, s1)->Ok_0;
    let s3 = indexes_from(f, db, places, s2, 0)->Ok_0;
    let cells = schema_cells(f, db, places)->Ok_0;
    let built = page_built(s3, Sheet::FirstLeafTable, cells)->Ok_0.1;
    assert(s.pages[1] == built);
    let page_count = (s.next - 1) as u32;
    let header = database_header(page_count, db);
    lemma_header_parts(page_count, db);
    let page = splice(built, 0, header);
    let rows = schema_list(f, db, places);
    lemma_schema_entries(f, db, places);
    let (_, _) = lemma_filled(
        s3,
        Sheet::FirstLeafTable,
        cells,
        0,
        crate::sqlite3::layout::blank_page(),
        4096,
        Seq::empty(),
        Seq::empty(),
    );
    law_built_page_is_read(s3, Sheet::FirstLeafTable, cells, page);
    lemma_fixed_texts(s3, cells, rows, 0);
    let offsets = cell_offsets(page, true, page_header(page, true)->Ok_0)->Ok_0;
    assert forall|k: int| 0 <= k < cells.len() implies text_stands(
        page,
        (#[trigger] cells[k])->bytes,
        offsets[k],
        108,
    ) by {
        assert(cell_texts(s3, cells, 0)[k] == cells[k]->bytes);
    }
    assert(rows.take(0) =~= Seq::<SchemaRowView>::empty());
    lemma_rows_read(file, page, cells, rows, offsets, 0);
    assert(file.len() / 4096 == page_count);
}

/// Whether places stand in the order of tables and, within a table, of indexes.
spec fn places_rise(places: Seq<IndexPlace>) -> bool {
    forall|k: int, l: int|
        #![trigger places[k], places[l]]
        0 <= k < l < places.len() ==> places[k].1 < places[l].1 || (places[k].1 == places[l].1
            && places[k].2 < places[l].2)
}

proof fn lemma_table_places(
    db: WritableDatabase,
    table: int,
    outer: int,
    j: int,
    out: Seq<IndexPlace>,
)
    requires
        0 <= outer < db.indexes@.len(),
        0 <= j <= db.indexes@[outer].1@.len(),
        places_rise(out),
        forall|k: int|
            0 <= k < out.len() ==> (#[trigger] out[k]).1 < outer || (out[k].1 == outer && out[k].2
                < j),
    ensures
        places_rise(places_of_table(db, table, outer, j, out)),
        forall|k: int|
            0 <= k < places_of_table(db, table, outer, j, out).len() ==> (
            #[trigger] places_of_table(db, table, outer, j, out)[k]).1 <= outer && (
            out.contains(places_of_table(db, table, outer, j, out)[k]) || (places_of_table(
                db,
                table,
                outer,
                j,
                out,
            )[k].1 == outer && places_of_table(db, table, outer, j, out)[k].2
                < db.indexes@[outer].1@.len())),
    decreases db.indexes@[outer].1@.len() - j,
{
    let (name, list) = db.indexes@[outer];
    assert(outer < db.indexes.len());
    if j < list@.len() {
        assert(j < list.len());
        if is_synthesized(db.tables@[table].1.schema, list@[j].1.meta, name@) {
            lemma_table_places(db, table, outer, j + 1, out);
        } else {
            let place = (table as usize, outer as usize, j as usize);
            let next = out.push(place);
            lemma_table_places(db, table, outer, j + 1, next);
            let all = places_of_table(db, table, outer, j, out);
            assert(all == places_of_table(db, table, outer, j + 1, next));
            assert forall|k: int| 0 <= k < all.len() implies (#[trigger] all[k]).1 <= outer && (
            out.contains(all[k]) || (all[k].1 == outer && all[k].2 < list@.len())) by {
                if next.contains(all[k]) {
                    let i = next.index_of(all[k]);
                    if i < out.len() {
                        assert(out[i] == all[k]);
                    }
                }
            }
        }
    } else {
        assert forall|k: int| 0 <= k < out.len() implies (#[trigger] out[k]).1 <= outer
            && out.contains(out[k]) by {}
    }
}

proof fn lemma_all_places(db: WritableDatabase, outer: int, out: Seq<IndexPlace>)
    requires
        0 <= outer <= db.indexes@.len(),
        places_rise(out),
        places_from(db, outer, out) is Ok,
        forall|k: int|
            0 <= k < out.len() ==> (#[trigger] out[k]).1 < outer && out[k].2
                < db.indexes@[out[k].1 as int].1@.len(),
    ensures
        places_rise(places_from(db, outer, out)->Ok_0),
        forall|k: int|
            0 <= k < places_from(db, outer, out)->Ok_0.len() ==> (
            #[trigger] places_from(db, outer, out)->Ok_0[k]).1 < db.indexes@.len() && places_from(
                db,
                outer,
                out,
            )->Ok_0[k].2 < db.indexes@[places_from(db, outer, out)->Ok_0[k].1 as int].1@.len(),
    decreases db.indexes@.len() - outer,
{
    if outer < db.indexes@.len() {
        let name = db.indexes@[outer].0@;
        let table = table_from(db.tables@, name, 0)->Some_0;
        if db.tables@[table].1.schema.view {
            lemma_all_places(db, outer + 1, out);
        } else {
            lemma_table_places(db, table, outer, 0, out);
            let next = places_of_table(db, table, outer, 0, out);
            assert forall|k: int| 0 <= k < next.len() implies (#[trigger] next[k]).1 < outer + 1
                && next[k].2 < db.indexes@[next[k].1 as int].1@.len() by {
                if out.contains(next[k]) {
                    let i = out.index_of(next[k]);
                    assert(out[i] == next[k]);
                }
            }
            lemma_all_places(db, outer + 1, next);
        }
    }
}

/// Where tables and indexes stand in the order of their names, the schema that is written and
/// read back lists each table once, and each index of a table once.
pub proof fn law_written_schema_lists_each_once(f: Facts, db: WritableDatabase)
    requires
        database_file(f, db) is Ok,
        db.in_name_order(),
    ensures
        ({
            let rows = schema_rows(database_file(f, db)->Ok_0, written_header())->Ok_0;
            let tables = db.tables@.len() as int;
            let indexes = physical_indexes(db)->Ok_0.len() as int;
            &&& rows.len() >= tables + indexes
            &&& forall|i: int|
                0 <= i < tables ==> (#[trigger] rows[i]).name == db.tables@[i].0@
            &&& forall|i: int, j: int|
                #![trigger rows[i], rows[j]]
                0 <= i < j < tables ==> rows[i].name != rows[j].name
            &&& forall|i: int, j: int|
                #![trigger rows[i], rows[j]]
                tables <= i < j < tables + indexes ==> (rows[i].table_name, rows[i].name) != (
                    rows[j].table_name,
                    rows[j].name,
                )
        }),
{
    law_written_schema_is_read(f, db);
    let places = physical_indexes(db)->Ok_0;
    let rows = schema_list(f, db, places);
    let tables = db.tables@.len() as int;
    lemma_all_places(db, 0, Seq::empty());
    let names = names_of(db.tables@);
    assert forall|i: int| 0 <= i < tables implies (#[trigger] rows[i]) == table_row(f, db, i)
        && rows[i].name == names[i] by {
        lemma_table_row(f, db, i, 0);
    }
    assert forall|i: int, j: int|
        #![trigger rows[i], rows[j]]
        0 <= i < j < tables implies rows[i].name != rows[j].name by {
        assert(String::before(names[i], names[j]));
        String::before_irreflexive(names[i]);
    }
    assert forall|i: int, j: int|
        #![trigger rows[i], rows[j]]
        tables <= i < j < tables + places.len() implies (rows[i].table_name, rows[i].name) != (
        rows[j].table_name,
        rows[j].name,
    ) by {
        let (a, b) = (places[i - tables], places[j - tables]);
        assert(rows[i] == index_row(db, places, i - tables));
        assert(rows[j] == index_row(db, places, j - tables));
        let owners = names_of(db.indexes@);
        if a.1 < b.1 {
            assert(String::before(owners[a.1 as int], owners[b.1 as int]));
            String::before_irreflexive(owners[a.1 as int]);
        } else {
            let inner = names_of(db.indexes@[a.1 as int].1@);
            assert(String::before(inner[a.2 as int], inner[b.2 as int]));
            String::before_irreflexive(inner[a.2 as int]);
        }
    }
}

} // verus!
