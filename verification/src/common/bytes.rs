//! Fixed-width integers as bytes, in either byte order.

use vstd::prelude::*;

verus! {

/// How many numbers `len` bytes can write.
pub open spec fn byte_range(len: nat) -> nat
    decreases len,
{
    if len == 0 {
        1
    } else {
        256 * byte_range((len - 1) as nat)
    }
}

/// The number written by bytes with the least significant byte first.
pub open spec fn le_value(s: Seq<u8>) -> nat
    decreases s.len(),
{
    if s.len() == 0 {
        0
    } else {
        s[0] as nat + 256 * le_value(s.drop_first())
    }
}

/// The `len` low bytes of a number, least significant byte first.
pub open spec fn le_bytes(n: nat, len: nat) -> Seq<u8>
    decreases len,
{
    if len == 0 {
        Seq::empty()
    } else {
        seq![(n % 256) as u8] + le_bytes(n / 256, (len - 1) as nat)
    }
}

/// The number written by bytes with the most significant byte first.
pub open spec fn be_value(s: Seq<u8>) -> nat
    decreases s.len(),
{
    if s.len() == 0 {
        0
    } else {
        256 * be_value(s.drop_last()) + s.last() as nat
    }
}

/// The `len` low bytes of a number, most significant byte first.
pub open spec fn be_bytes(n: nat, len: nat) -> Seq<u8>
    decreases len,
{
    if len == 0 {
        Seq::empty()
    } else {
        be_bytes(n / 256, (len - 1) as nat).push((n % 256) as u8)
    }
}

pub proof fn lemma_le_value_bound(s: Seq<u8>)
    ensures
        le_value(s) < byte_range(s.len()),
    decreases s.len(),
{
    if s.len() > 0 {
        lemma_le_value_bound(s.drop_first());
    }
}

pub proof fn lemma_be_value_bound(s: Seq<u8>)
    ensures
        be_value(s) < byte_range(s.len()),
    decreases s.len(),
{
    if s.len() > 0 {
        lemma_be_value_bound(s.drop_last());
    }
}

pub proof fn lemma_le_bytes_len(n: nat, len: nat)
    ensures
        le_bytes(n, len).len() == len,
    decreases len,
{
    if len > 0 {
        lemma_le_bytes_len(n / 256, (len - 1) as nat);
    }
}

pub proof fn lemma_be_bytes_len(n: nat, len: nat)
    ensures
        be_bytes(n, len).len() == len,
    decreases len,
{
    if len > 0 {
        lemma_be_bytes_len(n / 256, (len - 1) as nat);
    }
}

/// Reading back the bytes of a number gives the number, in little-endian order.
pub proof fn lemma_le_round_trip(n: nat, len: nat)
    requires
        n < byte_range(len),
    ensures
        le_value(le_bytes(n, len)) == n,
        le_bytes(n, len).len() == len,
    decreases len,
{
    if len > 0 {
        lemma_le_round_trip(n / 256, (len - 1) as nat);
        let s = le_bytes(n, len);
        assert(s.drop_first() =~= le_bytes(n / 256, (len - 1) as nat));
    }
}

/// Reading back the bytes of a number gives the number, in big-endian order.
pub proof fn lemma_be_round_trip(n: nat, len: nat)
    requires
        n < byte_range(len),
    ensures
        be_value(be_bytes(n, len)) == n,
        be_bytes(n, len).len() == len,
    decreases len,
{
    if len > 0 {
        lemma_be_round_trip(n / 256, (len - 1) as nat);
        let s = be_bytes(n, len);
        assert(s.drop_last() =~= be_bytes(n / 256, (len - 1) as nat));
    }
}

/// Writing the number that some bytes hold gives the bytes back, in big-endian order.
pub proof fn lemma_be_bytes_of_value(s: Seq<u8>)
    ensures
        be_bytes(be_value(s), s.len()) == s,
    decreases s.len(),
{
    if s.len() > 0 {
        lemma_be_bytes_of_value(s.drop_last());
        let n = be_value(s);
        assert(n / 256 == be_value(s.drop_last()) && n % 256 == s.last() as nat);
        assert(s =~= s.drop_last().push(s.last()));
    } else {
        assert(s =~= Seq::<u8>::empty());
    }
}

pub proof fn lemma_byte_ranges()
    ensures
        byte_range(1) == 0x100,
        byte_range(2) == 0x1_0000,
        byte_range(3) == 0x100_0000,
        byte_range(4) == 0x1_0000_0000,
        byte_range(5) == 0x100_0000_0000,
        byte_range(6) == 0x1_0000_0000_0000,
        byte_range(7) == 0x100_0000_0000_0000,
        byte_range(8) == 0x1_0000_0000_0000_0000,
{
    reveal_with_fuel(byte_range, 9);
}

proof fn lemma_byte_range_grows(a: nat, b: nat)
    requires
        a <= b,
    ensures
        byte_range(a) <= byte_range(b),
    decreases b,
{
    if a < b {
        lemma_byte_range_grows(a, (b - 1) as nat);
    }
}

/// Appends the low bytes of a number, least significant first.
pub fn push_le(out: &mut Vec<u8>, n: u64, width: usize)
    ensures
        final(out)@ == old(out)@ + le_bytes(n as nat, width as nat),
{
    let mut rest: u64 = n;
    let mut i: usize = 0;
    assert(out@ + le_bytes(n as nat, width as nat) =~= old(out)@ + le_bytes(
        n as nat,
        width as nat,
    ));
    while i < width
        invariant
            i <= width,
            out@ + le_bytes(rest as nat, (width - i) as nat) == old(out)@ + le_bytes(
                n as nat,
                width as nat,
            ),
        decreases width - i,
    {
        let ghost before = out@;
        out.push((rest % 256) as u8);
        assert(out@ + le_bytes(rest as nat / 256, (width - i - 1) as nat) =~= before + le_bytes(
            rest as nat,
            (width - i) as nat,
        ));
        rest = rest / 256;
        i = i + 1;
    }
    assert(out@ + le_bytes(rest as nat, 0) =~= out@);
}

/// The number that `width` bytes hold from a position on, least significant byte first.
pub fn read_le(bytes: &[u8], at: usize, width: usize) -> (r: u64)
    requires
        width <= 8,
        at + width <= bytes@.len(),
    ensures
        r == le_value(bytes@.subrange(at as int, at + width)),
        r < byte_range(width as nat),
{
    let total: usize = bytes.len();
    let mut value: u64 = 0;
    let mut i: usize = width;
    assert(bytes@.subrange(at + width, at + width) =~= Seq::<u8>::empty());
    proof {
        lemma_byte_ranges();
    }
    while i > 0
        invariant
            i <= width <= 8,
            at + width <= total,
            total == bytes@.len(),
            value == le_value(bytes@.subrange(at + i, at + width)),
            byte_range(8) == 0x1_0000_0000_0000_0000,
        decreases i,
    {
        i = i - 1;
        let ghost s = bytes@.subrange(at + i, at + width);
        proof {
            assert(s.drop_first() =~= bytes@.subrange(at + i + 1, at + width));
            lemma_le_value_bound(s);
            lemma_byte_range_grows(s.len(), 8);
        }
        value = bytes[at + i] as u64 + 256 * value;
    }
    proof {
        lemma_le_value_bound(bytes@.subrange(at as int, at + width));
    }
    value
}

/// The low bytes of a number, most significant first.
pub fn be_vec(n: u64, width: usize) -> (r: Vec<u8>)
    ensures
        r@ == be_bytes(n as nat, width as nat),
    decreases width,
{
    if width == 0 {
        Vec::new()
    } else {
        let mut r = be_vec(n / 256, width - 1);
        r.push((n % 256) as u8);
        r
    }
}

/// Appends the low bytes of a number, most significant first.
pub fn push_be(out: &mut Vec<u8>, n: u64, width: usize)
    ensures
        final(out)@ == old(out)@ + be_bytes(n as nat, width as nat),
{
    let mut bytes = be_vec(n, width);
    out.append(&mut bytes);
}

/// The number that `width` bytes hold from a position on, most significant byte first.
pub fn read_be(bytes: &[u8], at: usize, width: usize) -> (r: u64)
    requires
        width <= 8,
        at + width <= bytes@.len(),
    ensures
        r == be_value(bytes@.subrange(at as int, at + width)),
        r < byte_range(width as nat),
{
    let total: usize = bytes.len();
    let mut value: u64 = 0;
    let mut i: usize = 0;
    assert(bytes@.subrange(at as int, at as int) =~= Seq::<u8>::empty());
    proof {
        lemma_byte_ranges();
    }
    while i < width
        invariant
            i <= width <= 8,
            at + width <= total,
            total == bytes@.len(),
            value == be_value(bytes@.subrange(at as int, at + i)),
            byte_range(8) == 0x1_0000_0000_0000_0000,
        decreases width - i,
    {
        let ghost s = bytes@.subrange(at as int, at + i + 1);
        proof {
            assert(s.drop_last() =~= bytes@.subrange(at as int, at + i));
            lemma_be_value_bound(s);
            lemma_byte_range_grows(s.len(), 8);
        }
        value = 256 * value + bytes[at + i] as u64;
        i = i + 1;
    }
    proof {
        lemma_be_value_bound(bytes@.subrange(at as int, at + width));
    }
    value
}

/// A copy of a run of bytes.
pub fn slice_vec(bytes: &[u8], from: usize, to: usize) -> (r: Vec<u8>)
    requires
        from <= to <= bytes@.len(),
    ensures
        r@ == bytes@.subrange(from as int, to as int),
{
    let mut r: Vec<u8> = Vec::new();
    let mut i: usize = from;
    while i < to
        invariant
            from <= i <= to <= bytes@.len(),
            r@ == bytes@.subrange(from as int, i as int),
        decreases to - i,
    {
        r.push(bytes[i]);
        i = i + 1;
    }
    r
}

/// Overwrites a run of bytes.
pub fn put_bytes(page: &mut Vec<u8>, at: usize, data: &[u8])
    requires
        at + data@.len() <= old(page)@.len(),
    ensures
        final(page)@ == splice(old(page)@, at as int, data@),
{
    let total: usize = page.len();
    let mut i: usize = 0;
    assert(page@ =~= splice(old(page)@, at as int, data@.subrange(0, 0)));
    while i < data.len()
        invariant
            i <= data@.len(),
            at + data@.len() <= total,
            total == page@.len(),
            page@.len() == old(page)@.len(),
            page@ == splice(old(page)@, at as int, data@.subrange(0, i as int)),
        decreases data@.len() - i,
    {
        page.set(at + i, data[i]);
        i = i + 1;
        assert(page@ =~= splice(old(page)@, at as int, data@.subrange(0, i as int)));
    }
    assert(data@.subrange(0, i as int) =~= data@);
}

/// A sequence of bytes with `data` written over it from position `at` on.
pub open spec fn splice(page: Seq<u8>, at: int, data: Seq<u8>) -> Seq<u8> {
    Seq::new(
        page.len(),
        |i: int|
            if at <= i < at + data.len() {
                data[i - at]
            } else {
                page[i]
            },
    )
}

/// A vector of zero bytes.
pub fn zero_vec(len: usize) -> (r: Vec<u8>)
    ensures
        r@ == Seq::new(len as nat, |i: int| 0u8),
{
    let mut r: Vec<u8> = Vec::new();
    while r.len() < len
        invariant
            r@.len() <= len,
            forall|i: int| 0 <= i < r@.len() ==> r@[i] == 0u8,
        decreases len - r@.len(),
    {
        r.push(0);
    }
    assert(r@ =~= Seq::new(len as nat, |i: int| 0u8));
    r
}

/// A copy of a vector of bytes.
pub fn copy_bytes(bytes: &Vec<u8>) -> (r: Vec<u8>)
    ensures
        r@ == bytes@,
{
    let r = slice_vec(bytes.as_slice(), 0, bytes.len());
    assert(bytes@.subrange(0, bytes@.len() as int) =~= bytes@);
    r
}

/// Whether two runs of bytes are the same.
pub fn same_bytes(a: &[u8], b: &[u8]) -> (r: bool)
    ensures
        r == (a@ == b@),
{
    if a.len() != b.len() {
        return false;
    }
    let mut i: usize = 0;
    while i < a.len()
        invariant
            i <= a@.len() == b@.len(),
            forall|j: int| 0 <= j < i ==> a@[j] == b@[j],
        decreases a@.len() - i,
    {
        if a[i] != b[i] {
            return false;
        }
        i = i + 1;
    }
    assert(a@ =~= b@);
    true
}

} // verus!
