//! Integers of variable length: seven bits in each byte, the highest first, and a ninth byte
//! that holds eight.

use vstd::prelude::*;

use crate::common::error::{plain_result, storage, DbError, DbResult, ErrorView};

verus! {

/// How many integers a number of seven-bit bytes can tell apart.
pub open spec fn group_range(i: int) -> nat {
    if i <= 0 {
        1
    } else if i == 1 {
        0x80
    } else if i == 2 {
        0x4000
    } else if i == 3 {
        0x20_0000
    } else if i == 4 {
        0x1000_0000
    } else if i == 5 {
        0x8_0000_0000
    } else if i == 6 {
        0x400_0000_0000
    } else if i == 7 {
        0x2_0000_0000_0000
    } else {
        0x100_0000_0000_0000
    }
}

/// How many bytes an integer takes.
pub open spec fn varint_len(v: u64) -> nat {
    if v < 0x80 {
        1
    } else if v < 0x4000 {
        2
    } else if v < 0x20_0000 {
        3
    } else if v < 0x1000_0000 {
        4
    } else if v < 0x8_0000_0000 {
        5
    } else if v < 0x400_0000_0000 {
        6
    } else if v < 0x2_0000_0000_0000 {
        7
    } else if v < 0x100_0000_0000_0000 {
        8
    } else {
        9
    }
}

/// The last `n` groups of seven bits of an integer, each marked as followed by another byte.
pub open spec fn marked(v: nat, n: nat) -> Seq<u8>
    decreases n,
{
    if n == 0 {
        Seq::empty()
    } else {
        marked(v / 128, (n - 1) as nat).push((v % 128 + 128) as u8)
    }
}

/// An integer in its shortest form.
pub open spec fn varint(v: u64) -> Seq<u8> {
    if varint_len(v) < 9 {
        marked((v / 128) as nat, (varint_len(v) - 1) as nat).push((v % 128) as u8)
    } else {
        marked((v / 256) as nat, 8).push((v % 256) as u8)
    }
}

/// Whether an integer needs as many bytes as it was written with.
pub open spec fn is_canonical(v: nat, n: int) -> bool {
    1 <= n <= 9 && (n > 1 ==> v >= group_range(n - 1))
}

/// What is read from a position on behind bytes that spell a value.
pub open spec fn read_from(b: Seq<u8>, i: int, value: nat) -> Result<(u64, usize), ErrorView>
    decreases 9 - i,
{
    if i < 0 || i > 8 || i >= b.len() {
        Err(storage("truncated sqlite varint"@))
    } else if i == 8 {
        if is_canonical(value * 256 + b[8] as nat, 9) {
            Ok(((value * 256 + b[8] as nat) as u64, 9))
        } else {
            Err(storage("non-canonical sqlite varint"@))
        }
    } else if b[i] >= 128 {
        read_from(b, i + 1, value * 128 + (b[i] - 128) as nat)
    } else if is_canonical(value * 128 + b[i] as nat, i + 1) {
        Ok(((value * 128 + b[i] as nat) as u64, (i + 1) as usize))
    } else {
        Err(storage("non-canonical sqlite varint"@))
    }
}

/// The integer at the start of some bytes and how many of them it takes.
pub open spec fn varint_at_start(b: Seq<u8>) -> Result<(u64, usize), ErrorView> {
    read_from(b, 0, 0)
}

fn canonical(v: u64, n: usize) -> (r: bool)
    ensures
        r == is_canonical(v as nat, n as int),
{
    match n {
        1 => true,
        2 => v >= 0x80,
        3 => v >= 0x4000,
        4 => v >= 0x20_0000,
        5 => v >= 0x1000_0000,
        6 => v >= 0x8_0000_0000,
        7 => v >= 0x400_0000_0000,
        8 => v >= 0x2_0000_0000_0000,
        9 => v >= 0x100_0000_0000_0000,
        _ => false,
    }
}

/// How many bytes an integer takes.
pub fn len_of_varint(v: u64) -> (r: usize)
    ensures
        r == varint_len(v),
        1 <= r <= 9,
{
    if v < 0x80 {
        1
    } else if v < 0x4000 {
        2
    } else if v < 0x20_0000 {
        3
    } else if v < 0x1000_0000 {
        4
    } else if v < 0x8_0000_0000 {
        5
    } else if v < 0x400_0000_0000 {
        6
    } else if v < 0x2_0000_0000_0000 {
        7
    } else if v < 0x100_0000_0000_0000 {
        8
    } else {
        9
    }
}

fn push_marked(out: &mut Vec<u8>, v: u64, n: usize)
    ensures
        final(out)@ == old(out)@ + marked(v as nat, n as nat),
    decreases n,
{
    if n > 0 {
        push_marked(out, v / 128, n - 1);
        out.push((v % 128 + 128) as u8);
        assert(out@ =~= old(out)@ + marked(v as nat, n as nat));
    } else {
        assert(out@ =~= old(out)@ + marked(v as nat, n as nat));
    }
}

/// Writes an integer in its shortest form.
pub fn encode_varint(value: u64) -> (r: Vec<u8>)
    ensures
        r@ == varint(value),
        r@.len() == varint_len(value),
{
    let n: usize = len_of_varint(value);
    let mut out: Vec<u8> = Vec::new();
    if n < 9 {
        push_marked(&mut out, value / 128, n - 1);
        out.push((value % 128) as u8);
    } else {
        push_marked(&mut out, value / 256, 8);
        out.push((value % 256) as u8);
    }
    proof {
        lemma_marked_len((value / 128) as nat, (n - 1) as nat);
        lemma_marked_len((value / 256) as nat, 8);
        assert(out@ =~= varint(value));
    }
    out
}

/// Reads an integer, and how many bytes it takes.
pub fn decode_varint(bytes: &[u8]) -> (r: DbResult<(u64, usize)>)
    ensures
        plain_result(r) == varint_at_start(bytes@),
        r matches Ok(x) ==> 1 <= x.1 <= 9 && x.1 <= bytes@.len(),
{
    let mut value: u64 = 0;
    let mut i: usize = 0;
    while i < bytes.len() && i < 9
        invariant
            i <= bytes@.len(),
            i <= 9,
            i <= 8 ==> value < group_range(i as int),
            read_from(bytes@, i as int, value as nat) == varint_at_start(bytes@),
        decreases 9 - i,
    {
        let byte: u8 = bytes[i];
        if i == 8 {
            value = value * 256 + byte as u64;
            if canonical(value, 9) {
                return Ok((value, 9));
            }
            return Err(DbError::storage("non-canonical sqlite varint"));
        }
        if byte >= 128 {
            value = value * 128 + (byte - 128) as u64;
        } else {
            value = value * 128 + byte as u64;
            if canonical(value, i + 1) {
                return Ok((value, i + 1));
            }
            return Err(DbError::storage("non-canonical sqlite varint"));
        }
        i = i + 1;
    }
    Err(DbError::storage("truncated sqlite varint"))
}

// ---------------------------------------------------------------------------
// What is written is read back

proof fn lemma_marked_len(v: nat, n: nat)
    ensures
        marked(v, n).len() == n,
    decreases n,
{
    if n > 0 {
        lemma_marked_len(v / 128, (n - 1) as nat);
    }
}

/// The value that marked bytes spell.
spec fn marked_value(b: Seq<u8>) -> nat
    decreases b.len(),
{
    if b.len() == 0 {
        0
    } else {
        marked_value(b.drop_last()) * 128 + (b.last() - 128) as nat
    }
}

proof fn lemma_marked_value(v: nat, n: nat)
    requires
        n <= 8,
        v < group_range(n as int),
    ensures
        marked_value(marked(v, n)) == v,
        forall|i: int| 0 <= i < n ==> #[trigger] marked(v, n)[i] >= 128,
    decreases n,
{
    lemma_marked_len(v, n);
    if n > 0 {
        lemma_marked_value(v / 128, (n - 1) as nat);
        lemma_marked_len(v / 128, (n - 1) as nat);
        assert(marked(v, n).drop_last() =~= marked(v / 128, (n - 1) as nat));
        assert(v == v / 128 * 128 + v % 128);
    }
}

proof fn lemma_read_marked(b: Seq<u8>, n: int)
    requires
        0 <= n <= 8,
        n <= b.len(),
        forall|i: int| 0 <= i < n ==> #[trigger] b[i] >= 128,
    ensures
        read_from(b, 0, 0) == read_from(b, n, marked_value(b.take(n))),
    decreases n,
{
    if n > 0 {
        lemma_read_marked(b, n - 1);
        assert(b.take(n).drop_last() =~= b.take(n - 1));
        assert(b.take(n).last() == b[n - 1]);
    } else {
        assert(b.take(0).len() == 0);
    }
}

/// An integer is read back from the bytes that it is written as, whatever follows them.
pub proof fn law_varint_round_trip(v: u64, rest: Seq<u8>)
    ensures
        varint_at_start(varint(v) + rest) == Ok::<(u64, usize), ErrorView>((v, varint_len(v) as usize)),
        varint(v).len() == varint_len(v),
{
    let b = varint(v) + rest;
    let n = varint_len(v);
    if n < 9 {
        let high = (v / 128) as nat;
        lemma_marked_len(high, (n - 1) as nat);
        lemma_marked_value(high, (n - 1) as nat);
        assert forall|i: int| 0 <= i < n - 1 implies #[trigger] b[i] >= 128 by {
            assert(b[i] == marked(high, (n - 1) as nat)[i]);
        }
        lemma_read_marked(b, n - 1);
        assert(b.take(n - 1) =~= marked(high, (n - 1) as nat));
        assert(b[n - 1] == (v % 128) as u8);
        assert(high * 128 + v % 128 == v);
    } else {
        let high = (v / 256) as nat;
        lemma_marked_len(high, 8);
        lemma_marked_value(high, 8);
        assert forall|i: int| 0 <= i < 8 implies #[trigger] b[i] >= 128 by {
            assert(b[i] == marked(high, 8)[i]);
        }
        lemma_read_marked(b, 8);
        assert(b.take(8) =~= marked(high, 8));
        assert(b[8] == (v % 256) as u8);
        assert(high * 256 + v % 256 == v);
    }
}

proof fn lemma_marked_of_value(b: Seq<u8>)
    requires
        b.len() <= 8,
        forall|i: int| 0 <= i < b.len() ==> #[trigger] b[i] >= 128,
    ensures
        marked(marked_value(b), b.len()) == b,
        marked_value(b) < group_range(b.len() as int),
    decreases b.len(),
{
    if b.len() > 0 {
        let init = b.drop_last();
        assert forall|i: int| 0 <= i < init.len() implies #[trigger] init[i] >= 128 by {
            assert(init[i] == b[i]);
        }
        lemma_marked_of_value(init);
        let low = (b.last() - 128) as nat;
        let v = marked_value(b);
        assert(v == marked_value(init) * 128 + low);
        assert(v / 128 == marked_value(init));
        assert(v % 128 == low);
        assert(marked(v, b.len()) =~= b);
    } else {
        assert(marked(0, 0) =~= b);
    }
}

proof fn lemma_read_is_written(b: Seq<u8>, i: int)
    requires
        0 <= i <= 8,
        i <= b.len(),
        forall|k: int| 0 <= k < i ==> #[trigger] b[k] >= 128,
        read_from(b, i, marked_value(b.take(i))) is Ok,
    ensures
        ({
            let (v, n) = read_from(b, i, marked_value(b.take(i)))->Ok_0;
            n <= b.len() && b.take(n as int) == varint(v) && n == varint_len(v)
        }),
    decreases 9 - i,
{
    let value = marked_value(b.take(i));
    assert forall|k: int| 0 <= k < i implies #[trigger] b.take(i)[k] >= 128 by {
        assert(b.take(i)[k] == b[k]);
    }
    lemma_marked_of_value(b.take(i));
    if i == 8 {
        let v = value * 256 + b[8] as nat;
        assert(v / 256 == value);
        assert(v % 256 == b[8]);
        assert(b.take(9) =~= varint(v as u64));
    } else if b[i] >= 128 {
        assert(b.take(i + 1).drop_last() =~= b.take(i));
        assert(b.take(i + 1).last() == b[i]);
        lemma_read_is_written(b, i + 1);
    } else {
        let v = value * 128 + b[i] as nat;
        assert(v / 128 == value);
        assert(v % 128 == b[i]);
        assert(varint_len(v as u64) == i + 1);
        assert(b.take(i + 1) =~= varint(v as u64));
    }
}

/// Only the shortest form of an integer is read: the bytes that were read are those that the
/// integer is written as.
pub proof fn law_varint_is_canonical(b: Seq<u8>)
    requires
        varint_at_start(b) is Ok,
    ensures
        ({
            let (v, n) = varint_at_start(b)->Ok_0;
            n <= b.len() && b.take(n as int) == varint(v) && n == varint_len(v)
        }),
{
    assert(b.take(0).len() == 0);
    lemma_read_is_written(b, 0);
}

} // verus!
