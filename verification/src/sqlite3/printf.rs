//! The `PRINTF` function.

use vstd::prelude::*;
use vstd::utf8::encode_utf8;

use crate::common::text::{char_vec, magnitude, nat_text, text_of, u64_text};
use crate::common::value::{DbValue, SqlValue};
use crate::sqlite3::arithmetic::size_of_int;
use crate::sqlite3::quoting::{
    sqlite_unistr_quote, sqlite_unistr_quote_unquoted, unistr_literal, unistr_unquoted,
};
use crate::sqlite3::reals::{
    abs_bits, bits_of_int, int_bits, int_of_real, is_zero, plain_view, real_abs, real_answer,
    real_of_int, stop_view, text_answer, Eval, Facts, RealFacts, RealOp, StopView, INFINITY,
    MINUS_INFINITY,
};
use crate::sqlite3::strings::{
    before_nul, byte_len, char_from, digit_of_hex, double_char, doubled, find_char, hex_digit,
    i64_of, lossy, lossy_text, pad_left, pad_right, padded_left, padded_right, push_repeated,
    quote_text, quoted, repeated, text_before_nul, text_i64, text_usize, trim, trimmed, usize_of,
};
use crate::sqlite3::values::{
    bool_int, bool_real, coerce_text_like_value, digits_end, int_of_bool, parse_or_zero,
    real_of_bool, real_or_zero, skip_digits, value_text,
};

verus! {

/// The flags of a directive.
#[derive(Debug, Clone, Copy, PartialEq, Eq, Structural)]
pub struct PrintfFlags {
    pub left_align: bool,
    pub sign_plus: bool,
    pub sign_space: bool,
    pub zero_pad: bool,
    pub grouping: bool,
    pub alternate: bool,
    pub alternate_form_2: bool,
}

/// No flags.
pub open spec fn no_flags() -> PrintfFlags {
    PrintfFlags {
        left_align: false,
        sign_plus: false,
        sign_space: false,
        zero_pad: false,
        grouping: false,
        alternate: false,
        alternate_form_2: false,
    }
}

/// The flags once one more was read; nothing where the character is no flag.
pub open spec fn with_flag(flags: PrintfFlags, c: char) -> Option<PrintfFlags> {
    if c == '-' {
        Some(PrintfFlags { left_align: true, ..flags })
    } else if c == '+' {
        Some(PrintfFlags { sign_plus: true, ..flags })
    } else if c == ' ' {
        Some(PrintfFlags { sign_space: true, ..flags })
    } else if c == ',' {
        Some(PrintfFlags { grouping: true, ..flags })
    } else if c == '0' {
        Some(PrintfFlags { zero_pad: true, ..flags })
    } else if c == '#' {
        Some(PrintfFlags { alternate: true, ..flags })
    } else if c == '!' {
        Some(PrintfFlags { alternate_form_2: true, ..flags })
    } else {
        None
    }
}

/// The flags from a position on, and where they end.
pub open spec fn flags_from(p: Seq<char>, i: int, flags: PrintfFlags) -> (PrintfFlags, int)
    decreases p.len() - i,
{
    if i < 0 || i >= p.len() {
        (flags, i)
    } else {
        match with_flag(flags, p[i]) {
            Some(more) => flags_from(p, i + 1, more),
            None => (flags, i),
        }
    }
}

fn read_flags(p: &Vec<char>, from: usize) -> (r: (PrintfFlags, usize))
    requires
        from <= p@.len(),
    ensures
        (r.0, r.1 as int) == flags_from(p@, from as int, no_flags()),
        from <= r.1 <= p@.len(),
{
    let mut flags = PrintfFlags {
        left_align: false,
        sign_plus: false,
        sign_space: false,
        zero_pad: false,
        grouping: false,
        alternate: false,
        alternate_form_2: false,
    };
    let mut i: usize = from;
    while i < p.len()
        invariant
            from <= i <= p@.len(),
            flags_from(p@, i as int, flags) == flags_from(p@, from as int, no_flags()),
        decreases p@.len() - i,
    {
        let c = p[i];
        if c == '-' {
            flags.left_align = true;
        } else if c == '+' {
            flags.sign_plus = true;
        } else if c == ' ' {
            flags.sign_space = true;
        } else if c == ',' {
            flags.grouping = true;
        } else if c == '0' {
            flags.zero_pad = true;
        } else if c == '#' {
            flags.alternate = true;
        } else if c == '!' {
            flags.alternate_form_2 = true;
        } else {
            return (flags, i);
        }
        i = i + 1;
    }
    (flags, i)
}

/// The argument with a number, null where there is none.
pub open spec fn argument(args: Seq<SqlValue>, k: int) -> SqlValue {
    if 0 <= k < args.len() {
        args[k]
    } else {
        SqlValue::Null
    }
}

fn argument_at(args: &[DbValue], k: usize) -> (r: DbValue)
    ensures
        r@ == argument(args.deep_view(), k as int),
{
    if k < args.len() {
        args[k].copy()
    } else {
        DbValue::Null
    }
}

/// An argument read as an integer.
pub open spec fn integer_argument(f: Facts, v: SqlValue) -> Result<i64, StopView> {
    match v {
        SqlValue::Null => Ok(0),
        SqlValue::Integer(i) => Ok(i),
        SqlValue::Real(bits) => int_of_real(f, bits),
        SqlValue::Boolean(b) => Ok(bool_int(b)),
        SqlValue::Text(t) => Ok(int_or_zero(trimmed(t))),
        SqlValue::Blob(b) => Ok(int_or_zero(trimmed(lossy_text(b)))),
    }
}

/// The integer that a text spells, or zero.
pub open spec fn int_or_zero(t: Seq<char>) -> i64 {
    match i64_of(t) {
        Some(i) => i,
        None => 0,
    }
}

/// The integer that a text spells between white space, or zero.
pub fn trimmed_int_or_zero(t: &str) -> (r: i64)
    ensures
        r == int_or_zero(trimmed(t@)),
{
    match text_i64(trim(t).as_str()) {
        Some(i) => i,
        None => 0,
    }
}

/// An argument read as an integer.
pub fn sqlite_printf_integer_arg(facts: &RealFacts, v: &DbValue) -> (r: Eval<i64>)
    ensures
        plain_view(r) == integer_argument(facts@, v@),
{
    match v {
        DbValue::Null => Ok(0),
        DbValue::Integer(i) => Ok(*i),
        DbValue::Real(bits) => facts.to_int(*bits),
        DbValue::Boolean(b) => Ok(int_of_bool(*b)),
        DbValue::Text(t) => Ok(trimmed_int_or_zero(t.as_str())),
        DbValue::Blob(b) => Ok(trimmed_int_or_zero(lossy(b.as_slice()).as_str())),
    }
}

/// An argument read as a real.
pub open spec fn real_argument(f: Facts, v: SqlValue) -> Result<u64, StopView> {
    match v {
        SqlValue::Null => Ok(0),
        SqlValue::Integer(i) => real_of_int(f, i),
        SqlValue::Real(bits) => Ok(bits),
        SqlValue::Boolean(b) => Ok(bool_real(b)),
        SqlValue::Text(t) => real_or_zero(f, trimmed(t)),
        SqlValue::Blob(b) => real_or_zero(f, trimmed(lossy_text(b))),
    }
}

/// An argument read as a real.
pub fn sqlite_printf_real_arg(facts: &RealFacts, v: &DbValue) -> (r: Eval<u64>)
    ensures
        plain_view(r) == real_argument(facts@, v@),
{
    match v {
        DbValue::Null => Ok(0),
        DbValue::Integer(i) => facts.of_int(*i),
        DbValue::Real(bits) => Ok(*bits),
        DbValue::Boolean(b) => Ok(real_of_bool(*b)),
        DbValue::Text(t) => parse_or_zero(facts, trim(t.as_str())),
        DbValue::Blob(b) => parse_or_zero(facts, trim(lossy(b.as_slice()).as_str())),
    }
}

// ---------------------------------------------------------------------------
// Numbers

/// Digits in groups of three from the right, with commas between them. The length is that
/// of the bytes.
pub open spec fn group_from(s: Seq<char>, first: int, i: int, out: Seq<char>) -> Seq<char>
    decreases s.len() - i,
{
    if i < 0 || i >= s.len() {
        out
    } else {
        let comma = i > 0 && (i == first || (i > first && (i - first) % 3 == 0));
        group_from(
            s,
            first,
            i + 1,
            if comma {
                out.push(',').push(s[i])
            } else {
                out.push(s[i])
            },
        )
    }
}

/// The length of the first group of some digits.
pub open spec fn first_group(len: int) -> int {
    if len % 3 == 0 {
        3
    } else {
        len % 3
    }
}

/// Digits in groups of three from the right, with commas between them.
pub open spec fn grouped(s: Seq<char>) -> Seq<char> {
    group_from(s, first_group(encode_utf8(s).len() as int), 0, Seq::empty())
}

/// Digits in groups of three from the right, with commas between them.
pub fn sqlite_group_digits(digits: &str) -> (r: String)
    ensures
        r@ == grouped(digits@),
{
    let c = char_vec(digits);
    let len: usize = byte_len(digits);
    let first: usize = if len % 3 == 0 {
        3
    } else {
        len % 3
    };
    let mut out = String::new();
    let mut i: usize = 0;
    assert(out@ =~= Seq::<char>::empty());
    while i < c.len()
        invariant
            c@ == digits@,
            i <= c@.len(),
            first == first_group(encode_utf8(digits@).len() as int),
            group_from(c@, first as int, i as int, out@) == grouped(digits@),
        decreases c@.len() - i,
    {
        if i > 0 && (i == first || (i > first && (i - first) % 3 == 0)) {
            out.push(',');
        }
        out.push(c[i]);
        i = i + 1;
    }
    out
}

/// Digits filled up with zeros to a precision, in groups where that is asked for.
pub open spec fn sized_digits(digits: Seq<char>, flags: PrintfFlags, precision: Option<usize>) -> Seq<
    char,
> {
    let filled = match precision {
        Some(n) => padded_left(digits, n as int, '0'),
        None => digits,
    };
    if flags.grouping {
        grouped(filled)
    } else {
        filled
    }
}

fn size_digits(digits: String, flags: PrintfFlags, precision: Option<usize>) -> (r: String)
    ensures
        r@ == sized_digits(digits@, flags, precision),
{
    let filled = match precision {
        Some(n) => pad_left(digits.as_str(), n, '0'),
        None => digits,
    };
    if flags.grouping {
        sqlite_group_digits(filled.as_str())
    } else {
        filled
    }
}

/// The sign that goes before a number that is not negative.
pub open spec fn plus_sign(flags: PrintfFlags) -> Seq<char> {
    if flags.sign_plus {
        seq!['+']
    } else if flags.sign_space {
        seq![' ']
    } else {
        Seq::empty()
    }
}

/// A signed integer.
pub open spec fn signed_text(i: i64, flags: PrintfFlags, precision: Option<usize>) -> Seq<char> {
    (if i < 0 {
        seq!['-']
    } else {
        plus_sign(flags)
    }) + sized_digits(nat_text(size_of_int(i as int) as nat), flags, precision)
}

/// A signed integer.
pub fn format_sqlite_signed_integer(i: i64, flags: PrintfFlags, precision: Option<usize>) -> (r:
    String)
    ensures
        r@ == signed_text(i, flags, precision),
{
    let digits = size_digits(u64_text(magnitude(i)), flags, precision);
    let mut r = String::new();
    if i < 0 {
        r.push('-');
    } else if flags.sign_plus {
        r.push('+');
    } else if flags.sign_space {
        r.push(' ');
    }
    r.append(digits.as_str());
    assert(r@ =~= signed_text(i, flags, precision));
    r
}

/// The position of the first exponent mark from a position on, or the length.
pub open spec fn mark_from(s: Seq<char>, i: int) -> int
    decreases s.len() - i,
{
    if i < 0 || i >= s.len() {
        s.len() as int
    } else if s[i] == 'e' || s[i] == 'E' {
        i
    } else {
        mark_from(s, i + 1)
    }
}

fn find_mark(s: &Vec<char>) -> (r: usize)
    ensures
        r == mark_from(s@, 0),
        r <= s@.len(),
        r < s@.len() ==> s@[r as int] == 'e' || s@[r as int] == 'E',
{
    let mut i: usize = 0;
    while i < s.len()
        invariant
            i <= s@.len(),
            mark_from(s@, i as int) == mark_from(s@, 0),
        decreases s@.len() - i,
    {
        if s[i] == 'e' || s[i] == 'E' {
            return i;
        }
        i = i + 1;
    }
    i
}

/// Where the whole part of a number ends: at its dot, or at its exponent.
pub open spec fn whole_end(s: Seq<char>) -> int {
    if char_from(s, '.', 0) < s.len() {
        char_from(s, '.', 0)
    } else if char_from(s, 'e', 0) < s.len() {
        char_from(s, 'e', 0)
    } else {
        char_from(s, 'E', 0)
    }
}

/// Digits behind a sign in groups.
pub open spec fn grouped_signed(s: Seq<char>) -> Seq<char> {
    if s.len() > 0 && (s[0] == '-' || s[0] == '+' || s[0] == ' ') {
        seq![s[0]] + grouped(s.drop_first())
    } else {
        grouped(s)
    }
}

/// A number with its whole part in groups.
pub open spec fn grouped_number(s: Seq<char>) -> Seq<char> {
    grouped_signed(s.take(whole_end(s))) + s.skip(whole_end(s))
}

fn group_number(s: &str) -> (r: String)
    ensures
        r@ == grouped_number(s@),
{
    let c = char_vec(s);
    let dot: usize = find_char(&c, '.', 0);
    let end: usize = if dot < c.len() {
        dot
    } else {
        let low: usize = find_char(&c, 'e', 0);
        if low < c.len() {
            low
        } else {
            find_char(&c, 'E', 0)
        }
    };
    let mut r = String::new();
    let ghost whole = c@.take(end as int);
    if end > 0 && (c[0] == '-' || c[0] == '+' || c[0] == ' ') {
        r.push(c[0]);
        let digits = text_of(&c, 1, end);
        assert(digits@ =~= whole.drop_first());
        r.append(sqlite_group_digits(digits.as_str()).as_str());
        assert(r@ =~= grouped_signed(whole));
    } else {
        let digits = text_of(&c, 0, end);
        assert(digits@ =~= whole);
        r.append(sqlite_group_digits(digits.as_str()).as_str());
        assert(r@ =~= grouped_signed(whole));
    }
    let tail = text_of(&c, end, c.len());
    assert(tail@ =~= c@.skip(end as int));
    r.append(tail.as_str());
    r
}

/// A number with its groups and its sign.
pub open spec fn flagged(s: Seq<char>, flags: PrintfFlags) -> Seq<char> {
    let g = if flags.grouping {
        grouped_number(s)
    } else {
        s
    };
    if g.len() > 0 && g[0] == '-' {
        g
    } else {
        plus_sign(flags) + g
    }
}

/// A number with its groups and its sign.
pub fn apply_sqlite_numeric_flags(s: String, flags: PrintfFlags) -> (r: String)
    ensures
        r@ == flagged(s@, flags),
{
    let g = if flags.grouping {
        group_number(s.as_str())
    } else {
        s
    };
    let c = char_vec(g.as_str());
    if c.len() > 0 && c[0] == '-' {
        return g;
    }
    let mut r = String::new();
    if flags.sign_plus {
        r.push('+');
    } else if flags.sign_space {
        r.push(' ');
    }
    r.append(g.as_str());
    assert(r@ =~= flagged(s@, flags));
    r
}

/// A text filled up to a width, on the side that it is not aligned to.
pub open spec fn aligned(s: Seq<char>, width: int, left: bool) -> Seq<char> {
    if left {
        padded_right(s, width, ' ')
    } else {
        padded_left(s, width, ' ')
    }
}

fn push_aligned(out: &mut String, s: &str, width: usize, left: bool)
    ensures
        final(out)@ == old(out)@ + aligned(s@, width as int, left),
{
    if left {
        out.append(pad_right(s, width, ' ').as_str());
    } else {
        out.append(pad_left(s, width, ' ').as_str());
    }
}

/// A number filled up to a width: with zeros behind its sign, or with blanks.
pub open spec fn number_field(s: Seq<char>, width: usize, flags: PrintfFlags) -> Seq<char> {
    if flags.zero_pad && width > encode_utf8(s).len() {
        if s.len() > 0 && (s[0] == '-' || s[0] == '+' || s[0] == ' ') {
            seq![s[0]] + padded_left(s.drop_first(), width - 1, '0')
        } else {
            padded_left(s, width as int, '0')
        }
    } else {
        aligned(s, width as int, flags.left_align)
    }
}

/// Writes a number filled up to a width.
pub fn push_sqlite_printf_numeric(out: &mut String, s: &str, width: usize, flags: PrintfFlags)
    ensures
        final(out)@ == old(out)@ + number_field(s@, width, flags),
{
    let len: usize = byte_len(s);
    if flags.zero_pad && width > len {
        let c = char_vec(s);
        if c.len() > 0 && (c[0] == '-' || c[0] == '+' || c[0] == ' ') {
            let rest = text_of(&c, 1, c.len());
            assert(rest@ =~= s@.drop_first());
            out.push(c[0]);
            out.append(pad_left(rest.as_str(), width - 1, '0').as_str());
            assert(out@ =~= old(out)@ + number_field(s@, width, flags));
        } else {
            out.append(pad_left(s, width, '0').as_str());
        }
    } else {
        push_aligned(out, s, width, flags.left_align);
    }
}

/// The length of the prefix of a number in another base.
pub open spec fn prefix_len(s: Seq<char>) -> int {
    if s.len() >= 2 && s[0] == '0' && (s[1] == 'x' || s[1] == 'X') {
        2
    } else if s.len() > 0 && s[0] == '0' && encode_utf8(s).len() > 1 {
        1
    } else {
        0
    }
}

/// A number in another base filled up to a width with zeros behind its prefix.
pub open spec fn prefixed_field(s: Seq<char>, width: usize, flags: PrintfFlags) -> Seq<char> {
    let n = prefix_len(s);
    if flags.zero_pad && width > encode_utf8(s).len() && n > 0 {
        s.take(n) + padded_left(
            s.skip(n),
            if n == 2 {
                width as int
            } else {
                width - n
            },
            '0',
        )
    } else {
        number_field(s, width, flags)
    }
}

fn push_sqlite_printf_prefixed_numeric(
    out: &mut String,
    s: &str,
    width: usize,
    flags: PrintfFlags,
)
    ensures
        final(out)@ == old(out)@ + prefixed_field(s@, width, flags),
{
    let c = char_vec(s);
    let len: usize = byte_len(s);
    let n: usize = if c.len() >= 2 && c[0] == '0' && (c[1] == 'x' || c[1] == 'X') {
        2
    } else if c.len() > 0 && c[0] == '0' && len > 1 {
        1
    } else {
        0
    };
    if flags.zero_pad && width > len && n > 0 {
        let head = text_of(&c, 0, n);
        let tail = text_of(&c, n, c.len());
        assert(head@ =~= s@.take(n as int));
        assert(tail@ =~= s@.skip(n as int));
        out.append(head.as_str());
        let room: usize = if n == 2 {
            width
        } else {
            width - n
        };
        out.append(pad_left(tail.as_str(), room, '0').as_str());
        assert(out@ =~= old(out)@ + prefixed_field(s@, width, flags));
    } else {
        push_sqlite_printf_numeric(out, s, width, flags);
    }
}

/// The digits of a number in a base.
pub open spec fn base_text(n: nat, base: nat, upper: bool) -> Seq<char>
    decreases n,
{
    if base < 2 || n < base {
        seq![hex_digit(n as int, upper)]
    } else {
        proof {
            assert(n / base < n) by (nonlinear_arith)
                requires
                    n >= base >= 2,
            ;
        }
        base_text(n / base, base, upper).push(hex_digit((n % base) as int, upper))
    }
}

fn push_base(out: &mut String, n: u64, base: u64, upper: bool)
    requires
        2 <= base <= 16,
    ensures
        final(out)@ == old(out)@ + base_text(n as nat, base as nat, upper),
    decreases n,
{
    if n >= base {
        assert(n / base < n) by (nonlinear_arith)
            requires
                n >= 2,
                base >= 2,
        ;
        push_base(out, n / base, base, upper);
    }
    proof {
        vstd::arithmetic::div_mod::lemma_mod_bound(n as int, base as int);
        if n < base {
            vstd::arithmetic::div_mod::lemma_small_mod(n as nat, base as nat);
        }
    }
    let d: u8 = (n % base) as u8;
    assert(d as int == n as int % base as int);
    out.push(digit_of_hex(d, upper));
    assert((n as nat) / (base as nat) == (n / base) as nat);
    assert((n as nat) % (base as nat) == d as nat);
    assert(out@ =~= old(out)@ + base_text(n as nat, base as nat, upper));
}

// ---------------------------------------------------------------------------
// Reals

/// How an infinite real is written.
pub open spec fn infinity_text(bits: u64) -> Option<Seq<char>> {
    if bits == INFINITY {
        Some("Inf"@)
    } else if bits == MINUS_INFINITY {
        Some("-Inf"@)
    } else {
        None
    }
}

fn sqlite_printf_infinity_text(bits: u64) -> (r: Option<String>)
    ensures
        match r {
            Some(t) => infinity_text(bits) == Some(t@),
            None => infinity_text(bits) is None,
        },
{
    if bits == INFINITY {
        Some("Inf".to_owned())
    } else if bits == MINUS_INFINITY {
        Some("-Inf".to_owned())
    } else {
        None
    }
}

/// A number whose exponent has a sign and at least two digits.
pub open spec fn exponent_normal(s: Seq<char>, spec_char: char) -> Seq<char> {
    let m = mark_from(s, 0);
    if m >= s.len() {
        s
    } else {
        let e = s.skip(m + 1);
        let has_sign = e.len() > 0 && (e[0] == '+' || e[0] == '-');
        let sign = if has_sign {
            seq![e[0]]
        } else {
            seq!['+']
        };
        let digits = if has_sign {
            e.drop_first()
        } else {
            e
        };
        let marker = if spec_char == 'E' || spec_char == 'G' {
            'E'
        } else {
            'e'
        };
        s.take(m) + seq![marker] + sign + (if encode_utf8(digits).len() >= 2 {
            digits
        } else {
            padded_left(digits, 2, '0')
        })
    }
}

/// A number whose exponent has a sign and at least two digits.
pub fn normalize_sqlite_exponent(s: String, spec_char: char) -> (r: String)
    ensures
        r@ == exponent_normal(s@, spec_char),
{
    let c = char_vec(s.as_str());
    let m: usize = find_mark(&c);
    if m >= c.len() {
        return s;
    }
    let ghost e = s@.skip(m + 1);
    let mut r = text_of(&c, 0, m);
    assert(r@ =~= s@.take(m as int));
    if spec_char == 'E' || spec_char == 'G' {
        r.push('E');
    } else {
        r.push('e');
    }
    let has_sign = m + 1 < c.len() && (c[m + 1] == '+' || c[m + 1] == '-');
    let from: usize = if has_sign {
        r.push(c[m + 1]);
        m + 2
    } else {
        r.push('+');
        m + 1
    };
    let digits = text_of(&c, from, c.len());
    proof {
        if has_sign {
            assert(digits@ =~= e.drop_first());
        } else {
            assert(digits@ =~= e);
        }
    }
    if byte_len(digits.as_str()) >= 2 {
        r.append(digits.as_str());
    } else {
        r.append(pad_left(digits.as_str(), 2, '0').as_str());
    }
    assert(r@ =~= exponent_normal(s@, spec_char));
    r
}

/// A number with a dot before its exponent.
pub open spec fn exponent_dotted(s: Seq<char>) -> Seq<char> {
    let m = mark_from(s, 0);
    if m < s.len() && !s.take(m).contains('.') {
        s.take(m) + seq!['.'] + s.skip(m)
    } else {
        s
    }
}

fn ensure_sqlite_exponent_decimal_point(s: String) -> (r: String)
    ensures
        r@ == exponent_dotted(s@),
{
    let c = char_vec(s.as_str());
    let m: usize = find_mark(&c);
    if m < c.len() {
        let dot: usize = find_char(&c, '.', 0);
        proof {
            lemma_char_from(c@, '.', 0);
        }
        if dot >= m {
            assert(!s@.take(m as int).contains('.'));
            let mut r = text_of(&c, 0, m);
            r.push('.');
            let tail = text_of(&c, m, c.len());
            r.append(tail.as_str());
            assert(r@ =~= exponent_dotted(s@));
            return r;
        }
        assert(s@.take(m as int)[dot as int] == '.');
    }
    s
}

proof fn lemma_char_from(s: Seq<char>, c: char, i: int)
    requires
        0 <= i <= s.len(),
    ensures
        i <= char_from(s, c, i) <= s.len(),
        forall|j: int| i <= j < char_from(s, c, i) ==> s[j] != c,
        char_from(s, c, i) < s.len() ==> s[char_from(s, c, i)] == c,
    decreases s.len() - i,
{
    if i < s.len() && s[i] != c {
        lemma_char_from(s, c, i + 1);
    }
}

/// A decimal number without the zeros and the dot at its end.
pub open spec fn without_zeros(s: Seq<char>) -> Seq<char>
    decreases s.len(),
{
    if s.contains('.') && s.len() > 0 && s.last() == '0' {
        without_zeros(s.drop_last())
    } else if s.len() > 0 && s.last() == '.' {
        s.drop_last()
    } else {
        s
    }
}

/// A number without the zeros at the end of its mantissa.
pub open spec fn zeros_trimmed(s: Seq<char>) -> Seq<char> {
    let m = mark_from(s, 0);
    if m < s.len() {
        without_zeros(s.take(m)) + s.skip(m)
    } else {
        without_zeros(s)
    }
}

fn drop_zeros(c: &Vec<char>, end: usize) -> (r: usize)
    requires
        end <= c@.len(),
    ensures
        r <= end,
        c@.take(r as int) == without_zeros(c@.take(end as int)),
{
    let dot: usize = find_char(c, '.', 0);
    proof {
        lemma_char_from(c@, '.', 0);
    }
    let mut n: usize = end;
    while n > 0 && dot < n && c[n - 1] == '0'
        invariant
            n <= end <= c@.len(),
            dot == char_from(c@, '.', 0),
            dot <= c@.len(),
            forall|j: int| 0 <= j < dot ==> c@[j] != '.',
            dot < c@.len() ==> c@[dot as int] == '.',
            without_zeros(c@.take(n as int)) == without_zeros(c@.take(end as int)),
        decreases n,
    {
        assert(c@.take(n as int)[dot as int] == '.');
        assert(c@.take(n as int).drop_last() =~= c@.take(n - 1));
        n = n - 1;
    }
    assert(c@.take(n as int).contains('.') == (dot < n)) by {
        if dot < n {
            assert(c@.take(n as int)[dot as int] == '.');
        }
    }
    if n > 0 && c[n - 1] == '.' {
        assert(c@.take(n as int).drop_last() =~= c@.take(n - 1));
        n - 1
    } else {
        n
    }
}

fn trim_printf_general_float(s: &str) -> (r: String)
    ensures
        r@ == zeros_trimmed(s@),
{
    let c = char_vec(s);
    let m: usize = find_mark(&c);
    let n: usize = drop_zeros(&c, m);
    assert(c@.take(c@.len() as int) =~= c@);
    let mut r = text_of(&c, 0, n);
    assert(r@ =~= c@.take(n as int));
    let tail = text_of(&c, m, c.len());
    assert(tail@ =~= c@.skip(m as int));
    r.append(tail.as_str());
    assert(r@ =~= zeros_trimmed(s@));
    r
}

/// The size that a precision stands for as a signed number of 32 bits.
pub open spec fn narrow(n: usize) -> i32 {
    n as i32
}

/// A real with as many digits as asked for, with an exponent where it is very large or very
/// small.
pub open spec fn general_text(f: Facts, bits: u64, precision: usize) -> Result<Seq<char>, StopView> {
    if is_zero(bits) {
        Ok("0"@)
    } else {
        match real_answer(f, RealOp::Log10, real_abs(bits), 0) {
            Err(s) => Err(s),
            Ok(log) => match real_answer(f, RealOp::Floor, log, 0) {
                Err(s) => Err(s),
                Ok(whole) => match int_of_real(f, whole) {
                    Err(s) => Err(s),
                    Ok(exponent) => {
                        let significant: usize = if precision >= 1 {
                            precision
                        } else {
                            1
                        };
                        if exponent < -4 || exponent >= narrow(significant) {
                            match text_answer(
                                f,
                                RealOp::Scientific,
                                bits,
                                (significant - 1) as u64,
                            ) {
                                Err(s) => Err(s),
                                Ok(t) => Ok(zeros_trimmed(exponent_normal(t, 'e'))),
                            }
                        } else {
                            let decimals = narrow(significant) - exponent - 1;
                            match text_answer(
                                f,
                                RealOp::Fixed,
                                bits,
                                (if decimals > 0 {
                                    decimals
                                } else {
                                    0
                                }) as u64,
                            ) {
                                Err(s) => Err(s),
                                Ok(t) => Ok(zeros_trimmed(t)),
                            }
                        }
                    },
                },
            },
        }
    }
}

/// A real with as many digits as asked for.
pub fn sqlite_printf_general_float(facts: &RealFacts, bits: u64, precision: usize) -> (r: Eval<
    String,
>)
    ensures
        stop_view(r) == general_text(facts@, bits, precision),
{
    if abs_bits(bits) == 0 {
        return Ok("0".to_owned());
    }
    let log: u64 = facts.real_result(RealOp::Log10, abs_bits(bits), 0)?;
    let whole: u64 = facts.real_result(RealOp::Floor, log, 0)?;
    let exponent: i64 = facts.to_int(whole)?;
    let significant: usize = if precision >= 1 {
        precision
    } else {
        1
    };
    let limit: i32 = significant as i32;
    if exponent < -4 || exponent >= limit as i64 {
        let t = facts.text_result(RealOp::Scientific, bits, (significant - 1) as u64)?;
        Ok(trim_printf_general_float(normalize_sqlite_exponent(t, 'e').as_str()))
    } else {
        let decimals: i64 = limit as i64 - exponent - 1;
        let decimals: u64 = if decimals > 0 {
            decimals as u64
        } else {
            0
        };
        let t = facts.text_result(RealOp::Fixed, bits, decimals)?;
        Ok(trim_printf_general_float(t.as_str()))
    }
}

/// A real as one of the directives for reals writes it.
pub open spec fn real_field(
    f: Facts,
    spec_char: char,
    bits: u64,
    flags: PrintfFlags,
    precision: Option<usize>,
) -> Result<Seq<char>, StopView> {
    let digits: usize = match precision {
        Some(n) => n,
        None => 6,
    };
    let shown = match infinity_text(bits) {
        Some(t) => Ok(t),
        None => if spec_char == 'f' {
            text_answer(f, RealOp::Fixed, bits, digits as u64)
        } else if spec_char == 'e' || spec_char == 'E' {
            match text_answer(f, RealOp::Scientific, bits, digits as u64) {
                Ok(t) => Ok(exponent_normal(t, spec_char)),
                Err(s) => Err(s),
            }
        } else {
            general_text(f, bits, digits)
        },
    };
    match shown {
        Err(s) => Err(s),
        Ok(t) => Ok(
            flagged(
                if spec_char == 'f' {
                    if flags.alternate && !t.contains('.') {
                        t.push('.')
                    } else {
                        t
                    }
                } else if spec_char == 'e' || spec_char == 'E' {
                    if flags.alternate {
                        exponent_dotted(t)
                    } else {
                        t
                    }
                } else {
                    let u = if spec_char == 'G' {
                        t.map_values(
                            |c: char|
                                if c == 'e' {
                                    'E'
                                } else {
                                    c
                                },
                        )
                    } else {
                        t
                    };
                    if flags.alternate && !u.contains('.') {
                        if mark_from(u, 0) < u.len() {
                            u.take(mark_from(u, 0)) + seq!['.'] + u.skip(mark_from(u, 0))
                        } else {
                            u.push('.')
                        }
                    } else {
                        u
                    }
                },
                flags,
            ),
        ),
    }
}

fn large_marks(s: &str) -> (r: String)
    ensures
        r@ == s@.map_values(
            |c: char|
                if c == 'e' {
                    'E'
                } else {
                    c
                },
        ),
{
    let c = char_vec(s);
    let ghost f = |c: char|
        if c == 'e' {
            'E'
        } else {
            c
        };
    let mut r = String::new();
    let mut i: usize = 0;
    while i < c.len()
        invariant
            c@ == s@,
            i <= c@.len(),
            r@ == s@.take(i as int).map_values(f),
            forall|x: char|
                #[trigger] f(x) == if x == 'e' {
                    'E'
                } else {
                    x
                },
        decreases c@.len() - i,
    {
        if c[i] == 'e' {
            r.push('E');
        } else {
            r.push(c[i]);
        }
        i = i + 1;
        assert(r@ =~= s@.take(i as int).map_values(f));
    }
    assert(s@.take(i as int) =~= s@);
    assert(r@ =~= s@.map_values(
        |c: char|
            if c == 'e' {
                'E'
            } else {
                c
            },
    ));
    r
}

fn dotted_general(s: String) -> (r: String)
    requires
        !s@.contains('.'),
    ensures
        r@ == if mark_from(s@, 0) < s@.len() {
            s@.take(mark_from(s@, 0)) + seq!['.'] + s@.skip(mark_from(s@, 0))
        } else {
            s@.push('.')
        },
{
    let c = char_vec(s.as_str());
    let m: usize = find_mark(&c);
    if m < c.len() {
        let mut r = text_of(&c, 0, m);
        r.push('.');
        let tail = text_of(&c, m, c.len());
        r.append(tail.as_str());
        assert(r@ =~= s@.take(m as int) + seq!['.'] + s@.skip(m as int));
        r
    } else {
        let mut s = s;
        s.push('.');
        s
    }
}

fn real_directive(
    facts: &RealFacts,
    spec_char: char,
    bits: u64,
    flags: PrintfFlags,
    precision: Option<usize>,
) -> (r: Eval<String>)
    ensures
        stop_view(r) == real_field(facts@, spec_char, bits, flags, precision),
{
    let digits: usize = match precision {
        Some(n) => n,
        None => 6,
    };
    let mut t = match sqlite_printf_infinity_text(bits) {
        Some(t) => t,
        None => {
            if spec_char == 'f' {
                facts.text_result(RealOp::Fixed, bits, digits as u64)?
            } else if spec_char == 'e' || spec_char == 'E' {
                let t = facts.text_result(RealOp::Scientific, bits, digits as u64)?;
                normalize_sqlite_exponent(t, spec_char)
            } else {
                sqlite_printf_general_float(facts, bits, digits)?
            }
        },
    };
    if spec_char == 'f' {
        let c = char_vec(t.as_str());
        if flags.alternate && !crate::sqlite3::strings::has_char(&c, '.') {
            t.push('.');
        }
    } else if spec_char == 'e' || spec_char == 'E' {
        if flags.alternate {
            t = ensure_sqlite_exponent_decimal_point(t);
        }
    } else {
        if spec_char == 'G' {
            t = large_marks(t.as_str());
        }
        let c = char_vec(t.as_str());
        if flags.alternate && !crate::sqlite3::strings::has_char(&c, '.') {
            t = dotted_general(t);
        }
    }
    Ok(apply_sqlite_numeric_flags(t, flags))
}

// ---------------------------------------------------------------------------
// Texts

/// The ending of an ordinal number.
pub open spec fn ordinal(i: i64) -> Seq<char> {
    let n = size_of_int(i as int);
    if 11 <= n % 100 <= 13 {
        "th"@
    } else if n % 10 == 1 {
        "st"@
    } else if n % 10 == 2 {
        "nd"@
    } else if n % 10 == 3 {
        "rd"@
    } else {
        "th"@
    }
}

/// The ending of an ordinal number.
pub fn sqlite_ordinal_suffix(i: i64) -> (r: &'static str)
    ensures
        r@ == ordinal(i),
{
    let n: u64 = magnitude(i);
    if 11 <= n % 100 && n % 100 <= 13 {
        "th"
    } else if n % 10 == 1 {
        "st"
    } else if n % 10 == 2 {
        "nd"
    } else if n % 10 == 3 {
        "rd"
    } else {
        "th"
    }
}

/// The number of bytes that a character takes.
pub open spec fn char_width(c: char) -> int {
    if (c as int) < 0x80 {
        1
    } else if (c as int) < 0x800 {
        2
    } else if (c as int) < 0x10000 {
        3
    } else {
        4
    }
}

/// The number of bytes that a character takes.
pub fn width_of(c: char) -> (r: usize)
    ensures
        r == char_width(c),
{
    if '\u{7f}' >= c {
        1
    } else if '\u{7ff}' >= c {
        2
    } else if '\u{ffff}' >= c {
        3
    } else {
        4
    }
}

/// How many characters from a position on still fit into a number of bytes.
pub open spec fn fitting_from(s: Seq<char>, i: int, room: int) -> int
    decreases s.len() - i,
{
    if 0 <= i < s.len() && char_width(s[i]) <= room {
        fitting_from(s, i + 1, room - char_width(s[i]))
    } else {
        i
    }
}

/// A text cut to a precision: to a number of characters, or to those that fit into a number
/// of bytes.
pub open spec fn truncated(s: Seq<char>, precision: usize, flags: PrintfFlags) -> Seq<char> {
    if flags.alternate_form_2 {
        if s.len() <= precision {
            s
        } else {
            s.take(precision as int)
        }
    } else {
        s.take(fitting_from(s, 0, precision as int))
    }
}

/// A text cut to a precision.
pub fn truncate_sqlite_printf_text(s: &str, precision: usize, flags: PrintfFlags) -> (r: String)
    ensures
        r@ == truncated(s@, precision, flags),
{
    let c = char_vec(s);
    let n: usize = if flags.alternate_form_2 {
        if c.len() <= precision {
            c.len()
        } else {
            precision
        }
    } else {
        let mut i: usize = 0;
        let mut room: usize = precision;
        while i < c.len() && width_of(c[i]) <= room
            invariant
                i <= c@.len(),
                fitting_from(c@, i as int, room as int) == fitting_from(c@, 0, precision as int),
            decreases c@.len() - i,
        {
            room = room - width_of(c[i]);
            i = i + 1;
        }
        i
    };
    assert(c@.subrange(0, n as int) =~= c@.take(n as int));
    assert(c@.take(c@.len() as int) =~= c@);
    text_of(&c, 0, n)
}

/// The text of an argument for the directives for texts.
pub open spec fn text_field(
    f: Facts,
    spec_char: char,
    v: SqlValue,
    flags: PrintfFlags,
    precision: Option<usize>,
) -> Result<Seq<char>, StopView> {
    if v is Null {
        Ok(
            if spec_char == 'q' || spec_char == 'w' {
                "(NULL)"@
            } else if spec_char == 'Q' {
                "NULL"@
            } else {
                match precision {
                    Some(n) => if spec_char == 'c' {
                        Seq::empty()
                    } else {
                        truncated(Seq::empty(), n, flags)
                    },
                    None => Seq::empty(),
                }
            },
        )
    } else if spec_char == 'q' && flags.alternate {
        unistr_unquoted(f, v)
    } else if spec_char == 'Q' && flags.alternate {
        unistr_literal(f, v)
    } else {
        match value_text(f, v) {
            Err(s) => Err(s),
            Ok(t) => Ok(
                if spec_char == 'c' {
                    let times: usize = match precision {
                        Some(n) => if n >= 1 {
                            n
                        } else {
                            1
                        },
                        None => 1,
                    };
                    if t.len() > 0 {
                        repeated(t[0], times as nat)
                    } else {
                        Seq::empty()
                    }
                } else if spec_char == 'q' {
                    doubled(before_nul(t), '\'')
                } else if spec_char == 'Q' {
                    quoted(before_nul(t))
                } else if spec_char == 'w' {
                    doubled(before_nul(t), '"')
                } else {
                    match precision {
                        Some(n) => truncated(before_nul(t), n, flags),
                        None => before_nul(t),
                    }
                },
            ),
        }
    }
}

fn text_directive(
    facts: &RealFacts,
    spec_char: char,
    v: &DbValue,
    flags: PrintfFlags,
    precision: Option<usize>,
) -> (r: Eval<String>)
    ensures
        stop_view(r) == text_field(facts@, spec_char, v@, flags, precision),
{
    if let DbValue::Null = v {
        if spec_char == 'q' || spec_char == 'w' {
            return Ok("(NULL)".to_owned());
        }
        if spec_char == 'Q' {
            return Ok("NULL".to_owned());
        }
        let empty = String::new();
        assert(empty@ =~= Seq::<char>::empty());
        return match precision {
            Some(n) => {
                if spec_char == 'c' {
                    Ok(empty)
                } else {
                    Ok(truncate_sqlite_printf_text(empty.as_str(), n, flags))
                }
            },
            None => Ok(empty),
        };
    }
    if spec_char == 'q' && flags.alternate {
        return sqlite_unistr_quote_unquoted(facts, v);
    }
    if spec_char == 'Q' && flags.alternate {
        return sqlite_unistr_quote(facts, v);
    }
    let t = coerce_text_like_value(facts, v)?;
    if spec_char == 'c' {
        let times: usize = match precision {
            Some(n) => if n >= 1 {
                n
            } else {
                1
            },
            None => 1,
        };
        let c = char_vec(t.as_str());
        let mut r = String::new();
        if c.len() > 0 {
            push_repeated(&mut r, c[0], times);
            assert(r@ =~= repeated(t@[0], times as nat));
        } else {
            assert(r@ =~= Seq::<char>::empty());
        }
        return Ok(r);
    }
    let s = text_before_nul(t.as_str());
    if spec_char == 'q' {
        return Ok(double_char(s.as_str(), '\''));
    }
    if spec_char == 'Q' {
        return Ok(quote_text(s.as_str()));
    }
    if spec_char == 'w' {
        return Ok(double_char(s.as_str(), '"'));
    }
    match precision {
        Some(n) => Ok(truncate_sqlite_printf_text(s.as_str(), n, flags)),
        None => Ok(s),
    }
}

// ---------------------------------------------------------------------------
// Directives

/// A number in another base, with its prefix.
pub open spec fn based(n: u64, spec_char: char, flags: PrintfFlags, precision: Option<usize>) -> Seq<
    char,
> {
    let raw = base_text(
        n as nat,
        if spec_char == 'o' {
            8
        } else {
            16
        },
        spec_char == 'X',
    );
    let filled = match precision {
        Some(p) => padded_left(raw, p as int, '0'),
        None => raw,
    };
    if flags.alternate && n != 0 {
        let mark = if spec_char == 'x' {
            "0x"@
        } else if spec_char == 'X' {
            "0X"@
        } else {
            "0"@
        };
        mark + filled
    } else {
        filled
    }
}

fn based_text(n: u64, spec_char: char, flags: PrintfFlags, precision: Option<usize>) -> (r: String)
    ensures
        r@ == based(n, spec_char, flags, precision),
{
    let mut raw = String::new();
    let base: u64 = if spec_char == 'o' {
        8
    } else {
        16
    };
    push_base(&mut raw, n, base, spec_char == 'X');
    assert(raw@ =~= base_text(n as nat, base as nat, spec_char == 'X'));
    let filled = match precision {
        Some(p) => pad_left(raw.as_str(), p, '0'),
        None => raw,
    };
    if flags.alternate && n != 0 {
        let mut r = if spec_char == 'x' {
            "0x".to_owned()
        } else if spec_char == 'X' {
            "0X".to_owned()
        } else {
            "0".to_owned()
        };
        r.append(filled.as_str());
        r
    } else {
        filled
    }
}

/// What a directive writes for its argument; nothing where there is no such directive.
pub open spec fn directive(
    f: Facts,
    spec_char: char,
    v: SqlValue,
    width: usize,
    flags: PrintfFlags,
    precision: Option<usize>,
) -> Option<Result<Seq<char>, StopView>> {
    if spec_char == 'd' || spec_char == 'i' || spec_char == 'r' {
        Some(
            match integer_argument(f, v) {
                Err(s) => Err(s),
                Ok(i) => Ok(
                    number_field(
                        signed_text(i, flags, precision) + (if spec_char == 'r' {
                            ordinal(i)
                        } else {
                            Seq::empty()
                        }),
                        width,
                        flags,
                    ),
                ),
            },
        )
    } else if spec_char == 'u' {
        Some(
            match integer_argument(f, v) {
                Err(s) => Err(s),
                Ok(i) => Ok(
                    number_field(
                        sized_digits(nat_text(int_bits(i) as nat), flags, precision),
                        width,
                        flags,
                    ),
                ),
            },
        )
    } else if spec_char == 'f' || spec_char == 'e' || spec_char == 'E' || spec_char == 'g'
        || spec_char == 'G' {
        Some(
            match real_argument(f, v) {
                Err(s) => Err(s),
                Ok(bits) => match real_field(f, spec_char, bits, flags, precision) {
                    Err(s) => Err(s),
                    Ok(t) => Ok(number_field(t, width, flags)),
                },
            },
        )
    } else if spec_char == 'x' || spec_char == 'X' || spec_char == 'o' {
        Some(
            match integer_argument(f, v) {
                Err(s) => Err(s),
                Ok(i) => {
                    let t = based(int_bits(i), spec_char, flags, precision);
                    Ok(
                        if flags.zero_pad && width > 0 {
                            prefixed_field(t, width, flags)
                        } else {
                            aligned(t, width as int, flags.left_align)
                        },
                    )
                },
            },
        )
    } else if spec_char == 'p' {
        Some(
            match integer_argument(f, v) {
                Err(s) => Err(s),
                Ok(i) => {
                    let t = base_text(int_bits(i) as nat, 16, true);
                    Ok(
                        if flags.zero_pad && width > 0 {
                            padded_left(t, width as int, '0')
                        } else {
                            aligned(t, width as int, flags.left_align)
                        },
                    )
                },
            },
        )
    } else if spec_char == 'n' {
        Some(Ok(Seq::empty()))
    } else if spec_char == 'c' || spec_char == 's' || spec_char == 'z' || spec_char == 'q'
        || spec_char == 'Q' || spec_char == 'w' {
        Some(
            match text_field(f, spec_char, v, flags, precision) {
                Err(s) => Err(s),
                Ok(t) => Ok(aligned(t, width as int, flags.left_align && !flags.zero_pad)),
            },
        )
    } else {
        None
    }
}

/// Writes what a directive writes; false where there is no such directive.
fn push_directive(
    facts: &RealFacts,
    out: &mut String,
    spec_char: char,
    v: &DbValue,
    width: usize,
    flags: PrintfFlags,
    precision: Option<usize>,
) -> (r: Eval<bool>)
    ensures
        match r {
            Ok(true) => directive(facts@, spec_char, v@, width, flags, precision) matches Some(
                Ok(t),
            ) && final(out)@ == old(out)@ + t,
            Ok(false) => directive(facts@, spec_char, v@, width, flags, precision) is None
                && final(out)@ == old(out)@,
            Err(s) => directive(facts@, spec_char, v@, width, flags, precision) == Some(
                Err::<Seq<char>, _>(s@),
            ),
        },
{
    if spec_char == 'd' || spec_char == 'i' || spec_char == 'r' {
        let i: i64 = sqlite_printf_integer_arg(facts, v)?;
        let mut t = format_sqlite_signed_integer(i, flags, precision);
        if spec_char == 'r' {
            t.append(sqlite_ordinal_suffix(i));
        } else {
            assert(t@ =~= t@ + Seq::<char>::empty());
        }
        push_sqlite_printf_numeric(out, t.as_str(), width, flags);
        return Ok(true);
    }
    if spec_char == 'u' {
        let i: i64 = sqlite_printf_integer_arg(facts, v)?;
        let t = size_digits(u64_text(bits_of_int(i)), flags, precision);
        push_sqlite_printf_numeric(out, t.as_str(), width, flags);
        return Ok(true);
    }
    if spec_char == 'f' || spec_char == 'e' || spec_char == 'E' || spec_char == 'g' || spec_char
        == 'G' {
        let bits: u64 = sqlite_printf_real_arg(facts, v)?;
        let t = real_directive(facts, spec_char, bits, flags, precision)?;
        push_sqlite_printf_numeric(out, t.as_str(), width, flags);
        return Ok(true);
    }
    if spec_char == 'x' || spec_char == 'X' || spec_char == 'o' {
        let i: i64 = sqlite_printf_integer_arg(facts, v)?;
        let t = based_text(bits_of_int(i), spec_char, flags, precision);
        if flags.zero_pad && width > 0 {
            push_sqlite_printf_prefixed_numeric(out, t.as_str(), width, flags);
        } else {
            push_aligned(out, t.as_str(), width, flags.left_align);
        }
        return Ok(true);
    }
    if spec_char == 'p' {
        let i: i64 = sqlite_printf_integer_arg(facts, v)?;
        let mut t = String::new();
        push_base(&mut t, bits_of_int(i), 16, true);
        assert(t@ =~= base_text(int_bits(i) as nat, 16, true));
        if flags.zero_pad && width > 0 {
            out.append(pad_left(t.as_str(), width, '0').as_str());
        } else {
            push_aligned(out, t.as_str(), width, flags.left_align);
        }
        return Ok(true);
    }
    if spec_char == 'n' {
        assert(out@ =~= old(out)@ + Seq::<char>::empty());
        return Ok(true);
    }
    if spec_char == 'c' || spec_char == 's' || spec_char == 'z' || spec_char == 'q' || spec_char
        == 'Q' || spec_char == 'w' {
        let t = text_directive(facts, spec_char, v, flags, precision)?;
        push_aligned(out, t.as_str(), width, flags.left_align && !flags.zero_pad);
        return Ok(true);
    }
    Ok(false)
}

/// A size that was read from digits, zero where there are none or too many.
pub open spec fn size_or_zero(t: Seq<char>) -> usize {
    match usize_of(t) {
        Some(n) => n,
        None => 0,
    }
}

fn read_size(p: &Vec<char>, from: usize, to: usize) -> (r: usize)
    requires
        from <= to <= p@.len(),
    ensures
        r == size_or_zero(p@.subrange(from as int, to as int)),
{
    match text_usize(text_of(p, from, to).as_str()) {
        Some(n) => n,
        None => 0,
    }
}

/// The size that an integer argument gives: its distance from zero.
pub open spec fn size_of_argument(i: i64) -> usize {
    if i < 0 {
        (size_of_int(i as int) as u64) as usize
    } else if i <= usize::MAX {
        i as usize
    } else {
        0
    }
}

fn argument_size(i: i64) -> (r: usize)
    ensures
        r == size_of_argument(i),
{
    if i < 0 {
        magnitude(i) as usize
    } else if i as u64 <= usize::MAX as u64 {
        i as usize
    } else {
        0
    }
}

/// A directive without its letter: flags, width, precision, where the letter stands and how
/// many arguments have been used.
#[verifier::ext_equal]
pub struct DirectiveHead {
    pub flags: PrintfFlags,
    pub width: usize,
    pub precision: Option<usize>,
    pub at: int,
    pub used: int,
}

/// The position behind the letters `l` from a position on.
pub open spec fn skip_l(p: Seq<char>, i: int) -> int
    decreases p.len() - i,
{
    if 0 <= i < p.len() && p[i] == 'l' {
        skip_l(p, i + 1)
    } else {
        i
    }
}

/// The width of a directive, whether it asks for alignment to the left, where it ends and how
/// many arguments have been used.
pub open spec fn width_at(f: Facts, p: Seq<char>, args: Seq<SqlValue>, i: int, k: int) -> Result<
    (usize, bool, int, int),
    StopView,
> {
    let e = digits_end(p, i);
    if e == i && 0 <= i < p.len() && p[i] == '*' {
        match integer_argument(f, argument(args, k)) {
            Err(s) => Err(s),
            Ok(n) => Ok((size_of_argument(n), n < 0, i + 1, k + 1)),
        }
    } else {
        Ok((size_or_zero(p.subrange(i, e)), false, e, k))
    }
}

/// The precision of a directive, where it ends and how many arguments have been used.
pub open spec fn precision_at(f: Facts, p: Seq<char>, args: Seq<SqlValue>, i: int, k: int) -> Result<
    (Option<usize>, int, int),
    StopView,
> {
    if 0 <= i < p.len() && p[i] == '.' {
        if i + 1 < p.len() && p[i + 1] == '*' {
            match integer_argument(f, argument(args, k)) {
                Err(s) => Err(s),
                Ok(n) => Ok((Some(size_of_argument(n)), i + 2, k + 1)),
            }
        } else {
            let e = digits_end(p, i + 1);
            Ok((Some(size_or_zero(p.subrange(i + 1, e))), e, k))
        }
    } else {
        Ok((None, i, k))
    }
}

/// The head of the directive that starts behind a percent sign.
pub open spec fn head_at(f: Facts, p: Seq<char>, args: Seq<SqlValue>, i: int, k: int) -> Result<
    DirectiveHead,
    StopView,
> {
    let (flags, a) = flags_from(p, i, no_flags());
    match width_at(f, p, args, a, k) {
        Err(s) => Err(s),
        Ok((width, left, b, k1)) => match precision_at(f, p, args, b, k1) {
            Err(s) => Err(s),
            Ok((precision, c, k2)) => Ok(
                DirectiveHead {
                    flags: PrintfFlags { left_align: flags.left_align || left, ..flags },
                    width,
                    precision,
                    at: skip_l(p, c),
                    used: k2,
                },
            ),
        },
    }
}

/// What a directive is given before its letter.
struct Head {
    flags: PrintfFlags,
    width: usize,
    precision: Option<usize>,
    at: usize,
    used: usize,
}

fn read_width(facts: &RealFacts, p: &Vec<char>, args: &[DbValue], from: usize, k: usize) -> (r: Eval<
    (usize, bool, usize, usize),
>)
    requires
        k < from <= p@.len(),
    ensures
        match r {
            Ok((w, left, at, used)) => width_at(
                facts@,
                p@,
                args.deep_view(),
                from as int,
                k as int,
            ) == Ok::<_, StopView>((w, left, at as int, used as int)) && from <= at <= p@.len()
                && used < at,
            Err(s) => width_at(facts@, p@, args.deep_view(), from as int, k as int) == Err::<
                (usize, bool, int, int),
                _,
            >(s@),
        },
{
    let total: usize = p.len();
    let e: usize = skip_digits(p, from);
    if e == from && from < total && p[from] == '*' {
        let v = argument_at(args, k);
        let n: i64 = sqlite_printf_integer_arg(facts, &v)?;
        Ok((argument_size(n), n < 0, from + 1, k + 1))
    } else {
        Ok((read_size(p, from, e), false, e, k))
    }
}

fn read_precision(facts: &RealFacts, p: &Vec<char>, args: &[DbValue], from: usize, k: usize) -> (r:
    Eval<(Option<usize>, usize, usize)>)
    requires
        k < from <= p@.len(),
    ensures
        match r {
            Ok((n, at, used)) => precision_at(facts@, p@, args.deep_view(), from as int, k as int)
                == Ok::<_, StopView>((n, at as int, used as int)) && from <= at <= p@.len() && used
                < at,
            Err(s) => precision_at(facts@, p@, args.deep_view(), from as int, k as int) == Err::<
                (Option<usize>, int, int),
                _,
            >(s@),
        },
{
    let total: usize = p.len();
    if from < total && p[from] == '.' {
        if from + 1 < total && p[from + 1] == '*' {
            let v = argument_at(args, k);
            let n: i64 = sqlite_printf_integer_arg(facts, &v)?;
            Ok((Some(argument_size(n)), from + 2, k + 1))
        } else {
            let e: usize = skip_digits(p, from + 1);
            Ok((Some(read_size(p, from + 1, e)), e, k))
        }
    } else {
        Ok((None, from, k))
    }
}

fn read_head(facts: &RealFacts, p: &Vec<char>, args: &[DbValue], from: usize, k: usize) -> (r: Eval<
    Head,
>)
    requires
        k < from <= p@.len(),
    ensures
        match r {
            Ok(h) => head_at(facts@, p@, args.deep_view(), from as int, k as int) == Ok::<
                _,
                StopView,
            >(
                (DirectiveHead {
                    flags: h.flags,
                    width: h.width,
                    precision: h.precision,
                    at: h.at as int,
                    used: h.used as int,
                }),
            ) && from <= h.at <= p@.len() && h.used < h.at,
            Err(s) => head_at(facts@, p@, args.deep_view(), from as int, k as int) == Err::<
                DirectiveHead,
                _,
            >(s@),
        },
{
    let (mut flags, a) = read_flags(p, from);
    let (width, left, b, k1) = read_width(facts, p, args, a, k)?;
    let (precision, c, k2) = read_precision(facts, p, args, b, k1)?;
    if left {
        flags.left_align = true;
    }
    let total: usize = p.len();
    let mut i: usize = c;
    while i < total && p[i] == 'l'
        invariant
            total == p@.len(),
            c <= i <= total,
            skip_l(p@, i as int) == skip_l(p@, c as int),
        decreases total - i,
    {
        i = i + 1;
    }
    Ok(Head { flags, width, precision, at: i, used: k2 })
}

/// What a format writes from a position on, behind what is written. A directive that is not
/// known ends it, and leaves nothing where nothing has been written.
pub open spec fn printf_from(
    f: Facts,
    p: Seq<char>,
    args: Seq<SqlValue>,
    i: int,
    k: int,
    out: Seq<char>,
) -> Result<Option<Seq<char>>, StopView>
    decreases p.len() - i,
{
    if i < 0 || i >= p.len() {
        Ok(Some(out))
    } else if p[i] != '%' {
        printf_from(f, p, args, i + 1, k, out.push(p[i]))
    } else if i + 1 < p.len() && p[i + 1] == '%' {
        printf_from(f, p, args, i + 2, k, out.push('%'))
    } else {
        match head_at(f, p, args, i + 1, k) {
            Err(s) => Err(s),
            Ok(h) => if h.at <= i || h.at >= p.len() {
                Ok(Some(out.push('%')))
            } else {
                let spec_char = p[h.at];
                let (v, used) = if spec_char == 'n' {
                    (SqlValue::Null, h.used)
                } else {
                    (argument(args, h.used), h.used + 1)
                };
                match directive(f, spec_char, v, h.width, h.flags, h.precision) {
                    None => Ok(
                        if out.len() > 0 {
                            Some(out)
                        } else {
                            None
                        },
                    ),
                    Some(Err(s)) => Err(s),
                    Some(Ok(t)) => printf_from(f, p, args, h.at + 1, used, out + t),
                }
            },
        }
    }
}

/// What a format writes for some arguments.
pub open spec fn formatted(f: Facts, p: Seq<char>, args: Seq<SqlValue>) -> Result<
    Option<Seq<char>>,
    StopView,
> {
    printf_from(f, p, args, 0, 0, Seq::empty())
}

/// What an optional text is.
pub open spec fn optional_view(r: Eval<Option<String>>) -> Result<Option<Seq<char>>, StopView> {
    match r {
        Ok(Some(t)) => Ok(Some(t@)),
        Ok(None) => Ok(None),
        Err(s) => Err(s@),
    }
}

/// Writes arguments as a format asks for.
pub fn sqlite_printf(facts: &RealFacts, format: &str, args: &[DbValue]) -> (r: Eval<Option<String>>)
    ensures
        optional_view(r) == formatted(facts@, format@, args.deep_view()),
{
    let p = char_vec(format);
    let total: usize = p.len();
    let mut out = String::new();
    let mut i: usize = 0;
    let mut k: usize = 0;
    assert(out@ =~= Seq::<char>::empty());
    while i < total
        invariant
            p@ == format@,
            total == p@.len(),
            k <= i <= total,
            printf_from(facts@, p@, args.deep_view(), i as int, k as int, out@) == formatted(
                facts@,
                format@,
                args.deep_view(),
            ),
        decreases total - i,
    {
        if p[i] != '%' {
            out.push(p[i]);
            i = i + 1;
        } else if i + 1 < total && p[i + 1] == '%' {
            out.push('%');
            i = i + 2;
        } else {
            let head = read_head(facts, &p, args, i + 1, k)?;
            if head.at >= total {
                out.push('%');
                return Ok(Some(out));
            }
            let spec_char = p[head.at];
            let v = if spec_char == 'n' {
                k = head.used;
                DbValue::Null
            } else {
                k = head.used + 1;
                argument_at(args, head.used)
            };
            let known = push_directive(
                facts,
                &mut out,
                spec_char,
                &v,
                head.width,
                head.flags,
                head.precision,
            )?;
            if !known {
                let c = char_vec(out.as_str());
                if c.len() > 0 {
                    return Ok(Some(out));
                } else {
                    return Ok(None);
                }
            }
            i = head.at + 1;
        }
    }
    Ok(Some(out))
}

} // verus!
