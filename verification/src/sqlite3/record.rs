//! Rows as records: a header of serial types, and the contents behind it.

use vstd::prelude::*;
use vstd::utf8::{decode_utf8, encode_utf8, valid_utf8};

use crate::common::bytes::{
    be_bytes, be_value, byte_range, copy_bytes, lemma_be_bytes_len, lemma_be_round_trip,
    lemma_byte_ranges, push_be, read_be, slice_vec,
};
use crate::common::error::{storage, DbError, DbResult, ErrorView};
use crate::common::text::{nat_text, u64_text};
use crate::common::value::{DbValue, SqlValue};
use crate::sqlite3::strings::{read_utf8, text_bytes};
use crate::sqlite3::varint::{
    decode_varint, encode_varint, law_varint_round_trip, len_of_varint, varint, varint_at_start,
    varint_len,
};

verus! {

/// The serial type of an integer: how many bytes it takes, or that it is zero or one.
pub open spec fn integer_serial(i: i64) -> u64 {
    if i == 0 {
        8
    } else if i == 1 {
        9
    } else if -128 <= i <= 127 {
        1
    } else if -32_768 <= i <= 32_767 {
        2
    } else if -8_388_608 <= i <= 8_388_607 {
        3
    } else if -2_147_483_648 <= i <= 2_147_483_647 {
        4
    } else if -140_737_488_355_328 <= i <= 140_737_488_355_327 {
        5
    } else {
        6
    }
}

/// The serial type of an integer.
pub fn integer_serial_type(value: i64) -> (r: u64)
    ensures
        r == integer_serial(value),
{
    if value == 0 {
        8
    } else if value == 1 {
        9
    } else if -128 <= value && value <= 127 {
        1
    } else if -32_768 <= value && value <= 32_767 {
        2
    } else if -8_388_608 <= value && value <= 8_388_607 {
        3
    } else if -2_147_483_648 <= value && value <= 2_147_483_647 {
        4
    } else if -140_737_488_355_328 <= value && value <= 140_737_488_355_327 {
        5
    } else {
        6
    }
}

/// How many bytes an integer of a serial type takes.
pub open spec fn integer_width(serial: u64) -> nat {
    if 1 <= serial <= 4 {
        serial as nat
    } else if serial == 5 {
        6
    } else if serial == 6 {
        8
    } else {
        0
    }
}

/// How many bytes an integer of a serial type takes.
pub fn integer_len(serial: u64) -> (r: usize)
    ensures
        r == integer_width(serial),
        r <= 8,
{
    match serial {
        1 => 1,
        2 => 2,
        3 => 3,
        4 => 4,
        5 => 6,
        6 => 8,
        _ => 0,
    }
}

/// An integer as an unsigned one of the same bytes.
pub open spec fn unsigned(i: i64, width: nat) -> nat {
    if i < 0 {
        (byte_range(width) + i) as nat
    } else {
        i as nat
    }
}

/// The integer that bytes hold, the highest bit of the first being the sign.
pub open spec fn signed(s: Seq<u8>) -> i64 {
    if s.len() > 0 && s[0] >= 128 {
        (be_value(s) - byte_range(s.len())) as i64
    } else {
        be_value(s) as i64
    }
}

/// The serial type of a value.
pub open spec fn serial(v: SqlValue) -> nat {
    match v {
        SqlValue::Null => 0,
        SqlValue::Boolean(b) => if b {
            9
        } else {
            8
        },
        SqlValue::Integer(i) => integer_serial(i) as nat,
        SqlValue::Real(_) => 7,
        SqlValue::Blob(b) => 2 * b.len() + 12,
        SqlValue::Text(t) => 2 * encode_utf8(t).len() + 13,
    }
}

/// What stands behind the header for a value.
pub open spec fn content(v: SqlValue) -> Seq<u8> {
    match v {
        SqlValue::Integer(i) => be_bytes(
            unsigned(i, integer_width(integer_serial(i))),
            integer_width(integer_serial(i)),
        ),
        SqlValue::Real(bits) => be_bytes(bits as nat, 8),
        SqlValue::Blob(b) => b,
        SqlValue::Text(t) => encode_utf8(t),
        _ => Seq::empty(),
    }
}

/// Why a value cannot be written, if it cannot.
pub open spec fn value_fault(v: SqlValue) -> Option<ErrorView> {
    if serial(v) > u64::MAX {
        Some(
            storage(
                if v is Blob {
                    "sqlite blob serial type overflow"@
                } else {
                    "sqlite text serial type overflow"@
                },
            ),
        )
    } else {
        None
    }
}

/// Why one of the values from a position on cannot be written, if so.
pub open spec fn fault_from(values: Seq<SqlValue>, i: int) -> Option<ErrorView>
    decreases values.len() - i,
{
    if i < 0 || i >= values.len() {
        None
    } else if value_fault(values[i]) is Some {
        value_fault(values[i])
    } else {
        fault_from(values, i + 1)
    }
}

/// The serial types of the values from a position on, written out.
pub open spec fn header_from(values: Seq<SqlValue>, i: int) -> Seq<u8>
    decreases values.len() - i,
{
    if i < 0 || i >= values.len() {
        Seq::empty()
    } else {
        varint(serial(values[i]) as u64) + header_from(values, i + 1)
    }
}

/// The contents of the values from a position on.
pub open spec fn payload_from(values: Seq<SqlValue>, i: int) -> Seq<u8>
    decreases values.len() - i,
{
    if i < 0 || i >= values.len() {
        Seq::empty()
    } else {
        content(values[i]) + payload_from(values, i + 1)
    }
}

/// The size of a header whose size takes `k` bytes or more: it counts its own bytes too.
pub open spec fn header_size_from(len: nat, k: nat) -> nat
    decreases 10 - k,
{
    let next = varint_len((len + k) as u64);
    if next <= k || k >= 9 {
        len + k
    } else {
        header_size_from(len, next)
    }
}

/// The size of a header with the bytes that say its size.
pub open spec fn header_size(len: nat) -> nat {
    header_size_from(len, 1)
}

/// A row as a record.
pub open spec fn record(values: Seq<SqlValue>) -> Seq<u8> {
    varint(header_size(header_from(values, 0).len()) as u64) + header_from(values, 0)
        + payload_from(values, 0)
}

/// A row as a record, or why there is none.
pub open spec fn encoded_record(values: Seq<SqlValue>) -> Result<Seq<u8>, ErrorView> {
    match fault_from(values, 0) {
        Some(e) => Err(e),
        None => if header_from(values, 0).len() + 9 > usize::MAX {
            Err(storage("sqlite record header is too large"@))
        } else {
            Ok(record(values))
        },
    }
}

fn push_integer(out: &mut Vec<u8>, i: i64, width: usize)
    requires
        width == integer_width(integer_serial(i)),
    ensures
        final(out)@ == old(out)@ + be_bytes(unsigned(i, width as nat), width as nat),
{
    proof {
        lemma_byte_ranges();
    }
    if width == 0 {
        assert(out@ =~= old(out)@ + be_bytes(unsigned(i, 0), 0));
        return;
    }
    let range: i128 = match width {
        1 => 0x100,
        2 => 0x1_0000,
        3 => 0x100_0000,
        4 => 0x1_0000_0000,
        6 => 0x1_0000_0000_0000,
        _ => 0x1_0000_0000_0000_0000,
    };
    assert(range == byte_range(width as nat));
    let n: i128 = if i < 0 {
        range + i as i128
    } else {
        i as i128
    };
    push_be(out, n as u64, width);
}

fn push_content(out: &mut Vec<u8>, v: &DbValue)
    ensures
        final(out)@ == old(out)@ + content(v@),
{
    match v {
        DbValue::Integer(i) => push_integer(out, *i, integer_len(integer_serial_type(*i))),
        DbValue::Real(bits) => push_be(out, *bits, 8),
        DbValue::Blob(b) => {
            let mut copy = copy_bytes(b);
            out.append(&mut copy);
        },
        DbValue::Text(t) => {
            let mut bytes = text_bytes(t.as_str());
            out.append(&mut bytes);
        },
        _ => {
            assert(out@ =~= old(out)@ + content(v@));
        },
    }
}

/// The model of the serial type of a value.
pub open spec fn serial_result(v: SqlValue) -> Result<u64, ErrorView> {
    match value_fault(v) {
        Some(e) => Err(e),
        None => Ok(serial(v) as u64),
    }
}

fn serial_type(v: &DbValue) -> (r: DbResult<u64>)
    ensures
        crate::common::error::plain_result(r) == serial_result(v@),
{
    match v {
        DbValue::Null => Ok(0),
        DbValue::Boolean(b) => {
            if *b {
                Ok(9)
            } else {
                Ok(8)
            }
        },
        DbValue::Integer(i) => Ok(integer_serial_type(*i)),
        DbValue::Real(_) => Ok(7),
        DbValue::Blob(b) => {
            let n: u128 = 2 * (b.len() as u128) + 12;
            if n > u64::MAX as u128 {
                Err(DbError::storage("sqlite blob serial type overflow"))
            } else {
                Ok(n as u64)
            }
        },
        DbValue::Text(t) => {
            let n: u128 = 2 * (text_bytes(t.as_str()).len() as u128) + 13;
            if n > u64::MAX as u128 {
                Err(DbError::storage("sqlite text serial type overflow"))
            } else {
                Ok(n as u64)
            }
        },
    }
}

fn size_of_header(len: usize) -> (r: usize)
    requires
        len + 9 <= usize::MAX,
    ensures
        r == header_size(len as nat),
{
    let mut k: usize = 1;
    let mut next: usize = len_of_varint((len + k) as u64);
    while next > k && k < 9
        invariant
            1 <= k <= 9,
            next <= 9,
            len + 9 <= usize::MAX,
            next == varint_len((len + k) as u64),
            header_size_from(len as nat, k as nat) == header_size(len as nat),
        decreases 9 - k,
    {
        k = next;
        next = len_of_varint((len + k) as u64);
    }
    len + k
}

/// Writes a row as a record.
pub fn encode_record(values: &[DbValue]) -> (r: DbResult<Vec<u8>>)
    ensures
        crate::common::error::result_view(r) == encoded_record(values.deep_view()),
{
    let ghost a = values.deep_view();
    let mut header: Vec<u8> = Vec::new();
    let mut payload: Vec<u8> = Vec::new();
    let mut i: usize = 0;
    assert(header@ + header_from(a, 0) =~= header_from(a, 0));
    assert(payload@ + payload_from(a, 0) =~= payload_from(a, 0));
    while i < values.len()
        invariant
            a == values.deep_view(),
            i <= values@.len(),
            header@ + header_from(a, i as int) == header_from(a, 0),
            payload@ + payload_from(a, i as int) == payload_from(a, 0),
            fault_from(a, i as int) == fault_from(a, 0),
        decreases values@.len() - i,
    {
        assert(a[i as int] == values@[i as int]@);
        let s: u64 = serial_type(&values[i])?;
        let ghost h = header@;
        let ghost p = payload@;
        push_content(&mut payload, &values[i]);
        let mut bytes = encode_varint(s);
        header.append(&mut bytes);
        assert(header@ + header_from(a, i + 1) =~= h + header_from(a, i as int));
        assert(payload@ + payload_from(a, i + 1) =~= p + payload_from(a, i as int));
        i = i + 1;
    }
    assert(header@ =~= header_from(a, 0));
    assert(payload@ =~= payload_from(a, 0));
    if header.len() > usize::MAX - 9 {
        return Err(DbError::storage("sqlite record header is too large"));
    }
    let size: usize = size_of_header(header.len());
    let mut out = encode_varint(size as u64);
    out.append(&mut header);
    out.append(&mut payload);
    assert(out@ =~= record(a));
    Ok(out)
}

// ---------------------------------------------------------------------------
// Reading

/// The serial types in a header from a position on.
pub open spec fn serials_from(b: Seq<u8>, end: int, at: int, out: Seq<u64>) -> Result<
    Seq<u64>,
    ErrorView,
>
    decreases end - at,
{
    if at < 0 || end > b.len() || at >= end {
        Ok(out)
    } else {
        match varint_at_start(b.subrange(at, end)) {
            Err(e) => Err(e),
            Ok((s, n)) => if n == 0 || at + n > end {
                Ok(out)
            } else {
                serials_from(b, end, at + n, out.push(s))
            },
        }
    }
}

/// A value of a serial type at a position, and where the next one starts.
pub open spec fn value_at(b: Seq<u8>, s: u64, at: int) -> Result<(SqlValue, int), ErrorView> {
    if s == 0 {
        Ok((SqlValue::Null, at))
    } else if 1 <= s <= 6 {
        let end = at + integer_width(s);
        if end <= b.len() {
            Ok((SqlValue::Integer(signed(b.subrange(at, end))), end))
        } else {
            Err(storage("invalid sqlite integer record length"@))
        }
    } else if s == 7 {
        if at + 8 <= b.len() {
            Ok((SqlValue::Real(be_value(b.subrange(at, at + 8)) as u64), at + 8))
        } else {
            Err(storage("invalid sqlite real record length"@))
        }
    } else if s == 8 {
        Ok((SqlValue::Boolean(false), at))
    } else if s == 9 {
        Ok((SqlValue::Boolean(true), at))
    } else if s >= 12 && s % 2 == 0 {
        let end = at + (s - 12) / 2;
        if end <= b.len() {
            Ok((SqlValue::Blob(b.subrange(at, end)), end))
        } else {
            Err(storage("invalid sqlite blob record length"@))
        }
    } else if s >= 13 {
        let end = at + (s - 13) / 2;
        if end <= b.len() {
            if valid_utf8(b.subrange(at, end)) {
                Ok((SqlValue::Text(decode_utf8(b.subrange(at, end))), end))
            } else {
                Err(storage("invalid utf-8 in sqlite text record"@))
            }
        } else {
            Err(storage("invalid sqlite text record length"@))
        }
    } else {
        Err(storage("unsupported sqlite serial type "@ + nat_text(s as nat)))
    }
}

/// The values of serial types from a position on; the record ends where they end.
pub open spec fn values_from(
    b: Seq<u8>,
    serials: Seq<u64>,
    k: int,
    at: int,
    out: Seq<SqlValue>,
) -> Result<Seq<SqlValue>, ErrorView>
    decreases serials.len() - k,
{
    if k < 0 || k >= serials.len() {
        if at == b.len() {
            Ok(out)
        } else {
            Err(storage("invalid sqlite record: trailing bytes after payload"@))
        }
    } else {
        match value_at(b, serials[k], at) {
            Err(e) => Err(e),
            Ok((v, next)) => values_from(b, serials, k + 1, next, out.push(v)),
        }
    }
}

/// The row that a record holds.
pub open spec fn decoded(b: Seq<u8>) -> Result<Seq<SqlValue>, ErrorView> {
    match record_header(b) {
        Err(e) => Err(e),
        Ok((serials, at)) => values_from(b, serials, 0, at, Seq::empty()),
    }
}

/// The integer that bytes hold, the highest bit of the first being the sign.
fn decode_integer(bytes: &[u8], at: usize, width: usize) -> (r: i64)
    requires
        at + width <= bytes@.len(),
        width == 1 || width == 2 || width == 3 || width == 4 || width == 6 || width == 8,
    ensures
        r == signed(bytes@.subrange(at as int, at + width)),
{
    let ghost s = bytes@.subrange(at as int, at + width);
    proof {
        lemma_byte_ranges();
        lemma_sign(s);
        assert(s[0] == bytes@[at as int]);
    }
    let n: u64 = read_be(bytes, at, width);
    let range: i128 = match width {
        1 => 0x100,
        2 => 0x1_0000,
        3 => 0x100_0000,
        4 => 0x1_0000_0000,
        6 => 0x1_0000_0000_0000,
        _ => 0x1_0000_0000_0000_0000,
    };
    if bytes[at] >= 128 {
        (n as i128 - range) as i64
    } else {
        n as i64
    }
}

/// The highest bit of the first byte tells whether a number lies in the upper half.
proof fn lemma_sign(s: Seq<u8>)
    requires
        s.len() > 0,
    ensures
        s[0] >= 128 <==> 2 * be_value(s) >= byte_range(s.len()),
        be_value(s) < byte_range(s.len()),
    decreases s.len(),
{
    if s.len() > 1 {
        lemma_sign(s.drop_last());
        assert(s.drop_last()[0] == s[0]);
        assert(byte_range(s.len()) == 256 * byte_range((s.len() - 1) as nat));
        let half = byte_range((s.len() - 1) as nat);
        lemma_even_range((s.len() - 1) as nat);
    } else {
        assert(s.drop_last().len() == 0);
        assert(byte_range(1) == 256 * byte_range(0));
        assert(be_value(s.drop_last()) == 0);
    }
}

proof fn lemma_even_range(n: nat)
    requires
        n > 0,
    ensures
        byte_range(n) % 2 == 0,
        byte_range(n) > 0,
    decreases n,
{
    if n > 1 {
        lemma_even_range((n - 1) as nat);
    } else {
        assert(byte_range(0) == 1);
    }
}

/// The model of a value that was read, and of where it ends.
pub open spec fn read_view(r: DbResult<(DbValue, usize)>) -> Result<(SqlValue, int), ErrorView> {
    match r {
        Ok((v, next)) => Ok((v@, next as int)),
        Err(e) => Err(e@),
    }
}

/// Reads a value of a serial type, and where it ends.
pub fn read_value(bytes: &[u8], s: u64, at: usize) -> (r: DbResult<(DbValue, usize)>)
    requires
        at <= bytes@.len(),
    ensures
        read_view(r) == value_at(bytes@, s, at as int),
        r matches Ok(x) ==> at <= x.1 <= bytes@.len(),
{
    let room: usize = bytes.len() - at;
    proof {
        lemma_byte_ranges();
    }
    if s == 0 {
        Ok((DbValue::Null, at))
    } else if s <= 6 {
        let width: usize = integer_len(s);
        if width > room {
            return Err(DbError::storage("invalid sqlite integer record length"));
        }
        Ok((DbValue::Integer(decode_integer(bytes, at, width)), at + width))
    } else if s == 7 {
        if 8 > room {
            return Err(DbError::storage("invalid sqlite real record length"));
        }
        Ok((DbValue::Real(read_be(bytes, at, 8)), at + 8))
    } else if s == 8 {
        Ok((DbValue::Boolean(false), at))
    } else if s == 9 {
        Ok((DbValue::Boolean(true), at))
    } else if s >= 12 && s % 2 == 0 {
        let n: u64 = (s - 12) / 2;
        if n as u128 > room as u128 {
            return Err(DbError::storage("invalid sqlite blob record length"));
        }
        let end: usize = at + n as usize;
        Ok((DbValue::Blob(slice_vec(bytes, at, end)), end))
    } else if s >= 13 {
        let n: u64 = (s - 13) / 2;
        if n as u128 > room as u128 {
            return Err(DbError::storage("invalid sqlite text record length"));
        }
        let end: usize = at + n as usize;
        let part = slice_vec(bytes, at, end);
        match read_utf8(part.as_slice()) {
            Some(t) => Ok((DbValue::Text(t), end)),
            None => Err(DbError::storage("invalid utf-8 in sqlite text record")),
        }
    } else {
        let mut message = "unsupported sqlite serial type ".to_owned();
        message.append(u64_text(s).as_str());
        Err(DbError::storage(message.as_str()))
    }
}

/// The model of serial types that were read.
pub open spec fn serials_view(r: DbResult<Vec<u64>>) -> Result<Seq<u64>, ErrorView> {
    match r {
        Ok(v) => Ok(v@),
        Err(e) => Err(e@),
    }
}

fn read_serials(bytes: &[u8], end: usize, first: usize) -> (r: DbResult<Vec<u64>>)
    requires
        first <= end <= bytes@.len(),
    ensures
        serials_view(r) == serials_from(bytes@, end as int, first as int, Seq::empty()),
{
    let mut serials: Vec<u64> = Vec::new();
    let mut at: usize = first;
    while at < end
        invariant
            first <= at <= end <= bytes@.len(),
            serials_from(bytes@, end as int, at as int, serials@) == serials_from(
                bytes@,
                end as int,
                first as int,
                Seq::empty(),
            ),
        decreases end - at,
    {
        let part = vstd::slice::slice_subrange(bytes, at, end);
        let (s, n): (u64, usize) = decode_varint(part)?;
        serials.push(s);
        at = at + n;
    }
    Ok(serials)
}

/// The model of a row that was read.
pub open spec fn row_view(r: DbResult<Vec<DbValue>>) -> Result<Seq<SqlValue>, ErrorView> {
    match r {
        Ok(v) => Ok(v.deep_view()),
        Err(e) => Err(e@),
    }
}

/// The header of a record: the serial types, and where the contents start.
pub open spec fn record_header(b: Seq<u8>) -> Result<(Seq<u64>, int), ErrorView> {
    match varint_at_start(b) {
        Err(e) => Err(e),
        Ok((size, first)) => if size > b.len() || size < first {
            Err(storage("invalid sqlite record header size"@))
        } else {
            match serials_from(b, size as int, first as int, Seq::empty()) {
                Err(e) => Err(e),
                Ok(serials) => Ok((serials, size as int)),
            }
        },
    }
}

/// The model of a header that was read.
pub open spec fn header_view(r: DbResult<(Vec<u64>, usize)>) -> Result<(Seq<u64>, int), ErrorView> {
    match r {
        Ok((serials, at)) => Ok((serials@, at as int)),
        Err(e) => Err(e@),
    }
}

/// Reads the header of a record.
pub fn decode_record_header(bytes: &[u8]) -> (r: DbResult<(Vec<u64>, usize)>)
    ensures
        header_view(r) == record_header(bytes@),
        r matches Ok(x) ==> x.1 <= bytes@.len(),
{
    let (size, first): (u64, usize) = decode_varint(bytes)?;
    if size as u128 > bytes.len() as u128 || (size as u128) < first as u128 {
        return Err(DbError::storage("invalid sqlite record header size"));
    }
    let end: usize = size as usize;
    let serials = read_serials(bytes, end, first)?;
    Ok((serials, end))
}

/// Reads the row that a record holds.
pub fn decode_record(bytes: &[u8]) -> (r: DbResult<Vec<DbValue>>)
    ensures
        row_view(r) == decoded(bytes@),
{
    let (serials, end): (Vec<u64>, usize) = decode_record_header(bytes)?;
    let mut values: Vec<DbValue> = Vec::new();
    let mut at: usize = end;
    let mut k: usize = 0;
    assert(values.deep_view() =~= Seq::<SqlValue>::empty());
    while k < serials.len()
        invariant
            k <= serials@.len(),
            at <= bytes@.len(),
            values_from(bytes@, serials@, k as int, at as int, values.deep_view()) == values_from(
                bytes@,
                serials@,
                0,
                end as int,
                Seq::empty(),
            ),
            decoded(bytes@) == values_from(bytes@, serials@, 0, end as int, Seq::empty()),
        decreases serials@.len() - k,
    {
        let (v, next): (DbValue, usize) = read_value(bytes, serials[k], at)?;
        let ghost before = values.deep_view();
        values.push(v);
        assert(values.deep_view() =~= before.push(v@));
        at = next;
        k = k + 1;
    }
    if at != bytes.len() {
        return Err(DbError::storage("invalid sqlite record: trailing bytes after payload"));
    }
    Ok(values)
}

// ---------------------------------------------------------------------------
// What is written is read back

/// The value that a record gives back: the integers zero and one come back as truth values.
pub open spec fn stored(v: SqlValue) -> SqlValue {
    match v {
        SqlValue::Integer(i) => if i == 0 {
            SqlValue::Boolean(false)
        } else if i == 1 {
            SqlValue::Boolean(true)
        } else {
            v
        },
        _ => v,
    }
}

/// The serial types of values.
pub open spec fn serials_of(values: Seq<SqlValue>) -> Seq<u64> {
    Seq::new(values.len(), |i: int| serial(values[i]) as u64)
}

pub proof fn lemma_no_fault(values: Seq<SqlValue>, from: int, i: int)
    requires
        fault_from(values, from) is None,
        0 <= from <= i < values.len(),
    ensures
        serial(values[i]) <= u64::MAX,
    decreases i - from,
{
    if from < i {
        lemma_no_fault(values, from + 1, i);
    }
}

proof fn lemma_serials_read(b: Seq<u8>, end: int, at: int, values: Seq<SqlValue>, i: int)
    requires
        fault_from(values, 0) is None,
        0 <= at <= end <= b.len(),
        0 <= i <= values.len(),
        b.subrange(at, end) == header_from(values, i),
    ensures
        serials_from(b, end, at, serials_of(values).take(i)) == Ok::<Seq<u64>, ErrorView>(
            serials_of(values),
        ),
    decreases values.len() - i,
{
    let all = serials_of(values);
    if i < values.len() {
        let s = serial(values[i]) as u64;
        let rest = header_from(values, i + 1);
        law_varint_round_trip(s, rest);
        let n = varint_len(s);
        assert(b.subrange(at, end) == varint(s) + rest);
        assert(b.subrange(at, end).len() == end - at);
        assert(b.subrange(at + n, end) =~= b.subrange(at, end).skip(n as int));
        assert((varint(s) + rest).skip(n as int) =~= rest);
        lemma_serials_read(b, end, at + n, values, i + 1);
        assert(all.take(i + 1) =~= all.take(i).push(s));
    } else {
        assert(at == end) by {
            assert(b.subrange(at, end).len() == end - at);
        }
        assert(all.take(i) =~= all);
    }
}

proof fn lemma_value_read(b: Seq<u8>, at: int, v: SqlValue)
    requires
        serial(v) <= u64::MAX,
        0 <= at,
        at + content(v).len() <= b.len(),
        b.subrange(at, at + content(v).len()) == content(v),
    ensures
        value_at(b, serial(v) as u64, at) == Ok::<(SqlValue, int), ErrorView>(
            (stored(v), at + content(v).len()),
        ),
{
    lemma_byte_ranges();
    match v {
        SqlValue::Integer(i) => {
            let w = integer_width(integer_serial(i));
            lemma_be_bytes_len(unsigned(i, w), w);
            if i != 0 && i != 1 {
                lemma_be_round_trip(unsigned(i, w), w);
                lemma_sign(content(v));
                assert(signed(content(v)) == i);
            }
        },
        SqlValue::Real(bits) => {
            lemma_be_round_trip(bits as nat, 8);
        },
        SqlValue::Text(t) => {
            vstd::utf8::encode_utf8_valid_utf8(t);
            vstd::utf8::encode_utf8_decode_utf8(t);
        },
        _ => {},
    }
}

proof fn lemma_values_read(b: Seq<u8>, at: int, values: Seq<SqlValue>, i: int)
    requires
        fault_from(values, 0) is None,
        0 <= at <= b.len(),
        0 <= i <= values.len(),
        b.skip(at) == payload_from(values, i),
    ensures
        values_from(b, serials_of(values), i, at, values.map_values(|v: SqlValue| stored(v)).take(i))
            == Ok::<Seq<SqlValue>, ErrorView>(values.map_values(|v: SqlValue| stored(v))),
    decreases values.len() - i,
{
    let all = values.map_values(|v: SqlValue| stored(v));
    if i < values.len() {
        lemma_no_fault(values, 0, i);
        let c = content(values[i]);
        let rest = payload_from(values, i + 1);
        assert(b.skip(at).len() == b.len() - at);
        assert(b.skip(at) == c + rest);
        assert(b.subrange(at, at + c.len()) =~= (c + rest).take(c.len() as int));
        assert((c + rest).take(c.len() as int) =~= c);
        lemma_value_read(b, at, values[i]);
        assert(b.skip(at + c.len()) =~= (c + rest).skip(c.len() as int));
        assert((c + rest).skip(c.len() as int) =~= rest);
        lemma_values_read(b, at + c.len(), values, i + 1);
        assert(all.take(i + 1) =~= all.take(i).push(stored(values[i])));
    } else {
        assert(b.skip(at).len() == b.len() - at);
        assert(all.take(i) =~= all);
    }
}

proof fn lemma_varint_len_grows(a: u64, b: u64)
    requires
        a <= b,
    ensures
        varint_len(a) <= varint_len(b),
{
}

proof fn lemma_header_size(len: nat, k: nat)
    requires
        len + 9 <= u64::MAX,
        1 <= k <= 9,
        k <= varint_len((len + k) as u64),
    ensures
        header_size_from(len, k) == len + varint_len(header_size_from(len, k) as u64),
        len < header_size_from(len, k) <= len + 9,
    decreases 10 - k,
{
    let next = varint_len((len + k) as u64);
    if next > k && k < 9 {
        lemma_varint_len_grows((len + k) as u64, (len + next) as u64);
        lemma_header_size(len, next);
    }
}

/// A record gives back the row that was written, except that the integers zero and one come
/// back as truth values. Its header gives back the serial types.
pub proof fn law_record_round_trip(values: Seq<SqlValue>)
    requires
        encoded_record(values) is Ok,
    ensures
        decoded(encoded_record(values)->Ok_0) == Ok::<Seq<SqlValue>, ErrorView>(
            values.map_values(|v: SqlValue| stored(v)),
        ),
        record_header(encoded_record(values)->Ok_0) is Ok,
        record_header(encoded_record(values)->Ok_0)->Ok_0.0 == serials_of(values),
{
    let b = record(values);
    let header = header_from(values, 0);
    let payload = payload_from(values, 0);
    lemma_varint_len_grows(1, (header.len() + 1) as u64);
    lemma_header_size(header.len(), 1);
    let size = header_size(header.len());
    let first = varint_len(size as u64);
    law_varint_round_trip(size as u64, header + payload);
    assert(b =~= varint(size as u64) + (header + payload));
    assert(b.subrange(first as int, size as int) =~= header);
    assert(serials_of(values).take(0) =~= Seq::<u64>::empty());
    lemma_serials_read(b, size as int, first as int, values, 0);
    assert(b.skip(size as int) =~= payload);
    let all = values.map_values(|v: SqlValue| stored(v));
    assert(all.take(0) =~= Seq::<SqlValue>::empty());
    lemma_values_read(b, size as int, values, 0);
}

} // verus!
