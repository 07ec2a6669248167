//! Values written as literals, and escapes in texts.

use vstd::prelude::*;

use crate::common::text::{char_vec, i64_text, int_text};
use crate::common::value::{DbValue, SqlValue};
use crate::sqlite3::reals::{
    fail, stop_view, storage_stop, Eval, Facts, RealFacts, StopView, INFINITY, MINUS_INFINITY,
};
use crate::sqlite3::strings::{
    before_nul, digit_of_hex, hex_digit, hex_nibble, hex_of, hex_text, hex_value, occurs_at,
    quote_text, quoted, stands_at, text_before_nul,
};
use crate::sqlite3::values::{real_text, sqlite_real_to_text};

verus! {

/// How a real is written as a literal.
pub open spec fn real_literal(f: Facts, bits: u64) -> Result<Seq<char>, StopView> {
    if bits == INFINITY {
        Ok("9.0e+999"@)
    } else if bits == MINUS_INFINITY {
        Ok("-9.0e+999"@)
    } else {
        real_text(f, bits)
    }
}

/// How a real is written as a literal.
pub fn sqlite_real_to_text_for_quote(facts: &RealFacts, bits: u64) -> (r: Eval<String>)
    ensures
        stop_view(r) == real_literal(facts@, bits),
{
    if bits == INFINITY {
        return Ok("9.0e+999".to_owned());
    }
    if bits == MINUS_INFINITY {
        return Ok("-9.0e+999".to_owned());
    }
    sqlite_real_to_text(facts, bits)
}

/// How a value is written as a literal.
pub open spec fn literal(f: Facts, v: SqlValue) -> Result<Seq<char>, StopView> {
    match v {
        SqlValue::Null => Ok("NULL"@),
        SqlValue::Boolean(b) => Ok(
            if b {
                "1"@
            } else {
                "0"@
            },
        ),
        SqlValue::Integer(i) => Ok(int_text(i as int)),
        SqlValue::Real(bits) => real_literal(f, bits),
        SqlValue::Blob(b) => Ok("X'"@ + hex_text(b) + "'"@),
        SqlValue::Text(t) => Ok(quoted(t)),
    }
}

/// How a value is written as a literal.
pub fn sqlite_quote_value(facts: &RealFacts, v: &DbValue) -> (r: Eval<String>)
    ensures
        stop_view(r) == literal(facts@, v@),
{
    match v {
        DbValue::Null => Ok("NULL".to_owned()),
        DbValue::Boolean(b) => {
            if *b {
                Ok("1".to_owned())
            } else {
                Ok("0".to_owned())
            }
        },
        DbValue::Integer(i) => Ok(i64_text(*i)),
        DbValue::Real(bits) => sqlite_real_to_text_for_quote(facts, *bits),
        DbValue::Blob(b) => {
            let mut r = "X'".to_owned();
            r.append(hex_of(b.as_slice()).as_str());
            r.append("'");
            Ok(r)
        },
        DbValue::Text(t) => Ok(quote_text(t.as_str())),
    }
}

/// Whether a character is a control character other than zero.
pub open spec fn is_control(c: char) -> bool {
    1 <= (c as int) <= 31
}

/// Whether a control character stands in a text from a position on.
pub open spec fn control_from(s: Seq<char>, i: int) -> bool
    decreases s.len() - i,
{
    if i < 0 || i >= s.len() {
        false
    } else {
        is_control(s[i]) || control_from(s, i + 1)
    }
}

/// What one character of a text is written as between the quotes of `unistr`.
pub open spec fn unistr_char(c: char) -> Seq<char> {
    if c == '\'' {
        seq!['\'', '\'']
    } else if c == '\\' {
        seq!['\\', '\\']
    } else if is_control(c) {
        seq![
            '\\',
            'u',
            '0',
            '0',
            hex_digit(c as int / 16, false),
            hex_digit(c as int % 16, false),
        ]
    } else {
        seq![c]
    }
}

/// What the characters of a text from a position on are written as, behind what is written.
pub open spec fn unistr_from(s: Seq<char>, i: int, out: Seq<char>) -> Seq<char>
    decreases s.len() - i,
{
    if i < 0 || i >= s.len() {
        out
    } else {
        unistr_from(s, i + 1, out + unistr_char(s[i]))
    }
}

/// How a value is written so that control characters are escaped.
pub open spec fn unistr_literal(f: Facts, v: SqlValue) -> Result<Seq<char>, StopView> {
    match v {
        SqlValue::Text(t) => {
            let s = before_nul(t);
            if control_from(s, 0) {
                Ok(unistr_from(s, 0, "unistr('"@) + "')"@)
            } else {
                Ok(quoted(s))
            }
        },
        _ => literal(f, v),
    }
}

/// How a value is written so that control characters are escaped.
pub fn sqlite_unistr_quote(facts: &RealFacts, v: &DbValue) -> (r: Eval<String>)
    ensures
        stop_view(r) == unistr_literal(facts@, v@),
{
    let t = match v {
        DbValue::Text(t) => t,
        _ => {
            return sqlite_quote_value(facts, v);
        },
    };
    let s = text_before_nul(t.as_str());
    let c = char_vec(s.as_str());
    let mut found = false;
    let mut i: usize = 0;
    while i < c.len() && !found
        invariant
            i <= c@.len(),
            found || control_from(c@, i as int) == control_from(c@, 0),
            found ==> control_from(c@, 0),
        decreases c@.len() - i,
    {
        if '\u{1}' <= c[i] && c[i] <= '\u{1f}' {
            found = true;
        }
        i = i + 1;
    }
    if !found {
        return Ok(quote_text(s.as_str()));
    }
    let mut out = "unistr('".to_owned();
    let mut k: usize = 0;
    while k < c.len()
        invariant
            k <= c@.len(),
            unistr_from(c@, k as int, out@) == unistr_from(c@, 0, "unistr('"@),
        decreases c@.len() - k,
    {
        let ghost before = out@;
        let ch = c[k];
        if ch == '\'' {
            out.push('\'');
            out.push('\'');
        } else if ch == '\\' {
            out.push('\\');
            out.push('\\');
        } else if '\u{1}' <= ch && ch <= '\u{1f}' {
            let n: u8 = ch as u8;
            out.push('\\');
            out.push('u');
            out.push('0');
            out.push('0');
            out.push(digit_of_hex(n / 16, false));
            out.push(digit_of_hex(n % 16, false));
        } else {
            out.push(ch);
        }
        assert(out@ =~= before + unistr_char(ch));
        k = k + 1;
    }
    out.append("')");
    Ok(out)
}

/// What stands between a start and an end, where a text has both.
pub open spec fn between(s: Seq<char>, start: Seq<char>, end: Seq<char>) -> Option<Seq<char>> {
    if occurs_at(s, start, 0) && start.len() + end.len() <= s.len() && occurs_at(
        s,
        end,
        s.len() - end.len(),
    ) {
        Some(s.subrange(start.len() as int, s.len() - end.len()))
    } else {
        None
    }
}

fn inside(s: &Vec<char>, start: &str, end: &str) -> (r: Option<String>)
    ensures
        match r {
            Some(t) => between(s@, start@, end@) == Some(t@),
            None => between(s@, start@, end@) is None,
        },
{
    let a = char_vec(start);
    let b = char_vec(end);
    let total: usize = s.len();
    if !stands_at(s, &a, 0) {
        return None;
    }
    if b.len() > total - a.len() {
        return None;
    }
    if !stands_at(s, &b, total - b.len()) {
        return None;
    }
    Some(crate::common::text::text_of(s, a.len(), total - b.len()))
}

/// How a value is written so that control characters are escaped, without the quotes.
pub open spec fn unistr_unquoted(f: Facts, v: SqlValue) -> Result<Seq<char>, StopView> {
    match unistr_literal(f, v) {
        Err(s) => Err(s),
        Ok(q) => match between(q, "unistr('"@, "')"@) {
            Some(t) => Ok(t),
            None => match between(q, "'"@, "'"@) {
                Some(t) => Ok(t),
                None => Ok(q),
            },
        },
    }
}

/// How a value is written so that control characters are escaped, without the quotes.
pub fn sqlite_unistr_quote_unquoted(facts: &RealFacts, v: &DbValue) -> (r: Eval<String>)
    ensures
        stop_view(r) == unistr_unquoted(facts@, v@),
{
    let q = sqlite_unistr_quote(facts, v)?;
    let c = char_vec(q.as_str());
    if let Some(t) = inside(&c, "unistr('", "')") {
        return Ok(t);
    }
    if let Some(t) = inside(&c, "'", "'") {
        return Ok(t);
    }
    Ok(q)
}

// ---------------------------------------------------------------------------
// UNISTR

/// The error about an escape that is none.
pub open spec fn bad_escape() -> StopView {
    storage_stop("invalid Unicode escape"@)
}

/// The number that hexadecimal digits spell, as many as asked for.
pub open spec fn hex_number(s: Seq<char>, i: int, len: nat) -> Option<nat>
    decreases len,
{
    if len == 0 {
        Some(0)
    } else {
        let last = i + len - 1;
        match hex_number(s, i, (len - 1) as nat) {
            None => None,
            Some(n) => if 0 <= last < s.len() && hex_value(s[last]) is Some {
                Some((16 * n + hex_value(s[last])->Some_0) as nat)
            } else {
                None
            },
        }
    }
}

/// The character that an escape of some digits stands for.
pub open spec fn escaped_char(s: Seq<char>, i: int, len: nat) -> Result<char, StopView> {
    match hex_number(s, i, len) {
        Some(n) => if n < 0xD800 || 0xE000 <= n <= 0x10FFFF {
            Ok(n as char)
        } else {
            Err(bad_escape())
        },
        None => Err(bad_escape()),
    }
}

proof fn lemma_hex_number_prefix(s: Seq<char>, i: int, a: nat, b: nat)
    requires
        a <= b,
        hex_number(s, i, a) is None,
    ensures
        hex_number(s, i, b) is None,
    decreases b,
{
    if a < b {
        lemma_hex_number_prefix(s, i, a, (b - 1) as nat);
    }
}

spec fn hex_limit(digits: int) -> int {
    if digits <= 0 {
        1
    } else if digits == 1 {
        0x10
    } else if digits == 2 {
        0x100
    } else if digits == 3 {
        0x1000
    } else if digits == 4 {
        0x1_0000
    } else if digits == 5 {
        0x10_0000
    } else if digits == 6 {
        0x100_0000
    } else if digits == 7 {
        0x1000_0000
    } else {
        0x1_0000_0000
    }
}

fn parse_unistr_escape(s: &Vec<char>, from: usize, len: usize) -> (r: Eval<char>)
    requires
        len <= 8,
        from <= s@.len(),
    ensures
        crate::sqlite3::reals::plain_view(r) == escaped_char(s@, from as int, len as nat),
        r is Ok ==> from + len <= s@.len(),
{
    let total: usize = s.len();
    let mut value: u64 = 0;
    let mut k: usize = 0;
    while k < len
        invariant
            len <= 8,
            total == s@.len(),
            k <= len,
            from + k <= total,
            hex_number(s@, from as int, k as nat) == Some(value as nat),
            value < hex_limit(k as int),
        decreases len - k,
    {
        if k >= total - from {
            proof {
                assert(hex_number(s@, from as int, (k + 1) as nat) is None);
                lemma_hex_number_prefix(s@, from as int, (k + 1) as nat, len as nat);
            }
            return Err(fail("invalid Unicode escape"));
        }
        match hex_nibble(s[from + k]) {
            Some(d) => {
                value = 16 * value + d as u64;
            },
            None => {
                proof {
                    assert(hex_number(s@, from as int, (k + 1) as nat) is None);
                    lemma_hex_number_prefix(s@, from as int, (k + 1) as nat, len as nat);
                }
                return Err(fail("invalid Unicode escape"));
            },
        }
        k = k + 1;
    }
    match char::from_u32(value as u32) {
        Some(c) => Ok(c),
        None => Err(fail("invalid Unicode escape")),
    }
}

/// A text with its escapes resolved from a position on, behind what is written.
pub open spec fn unescaped_from(s: Seq<char>, i: int, out: Seq<char>) -> Result<Seq<char>, StopView>
    decreases s.len() - i,
{
    if i < 0 || i >= s.len() {
        Ok(out)
    } else if s[i] != '\\' {
        unescaped_from(s, i + 1, out.push(s[i]))
    } else if i + 1 >= s.len() {
        Err(bad_escape())
    } else if s[i + 1] == '\\' {
        unescaped_from(s, i + 2, out.push('\\'))
    } else {
        let len: nat = if s[i + 1] == 'U' {
            8
        } else if s[i + 1] == '+' {
            6
        } else {
            4
        };
        let from = if s[i + 1] == 'u' || s[i + 1] == 'U' || s[i + 1] == '+' {
            i + 2
        } else {
            i + 1
        };
        match escaped_char(s, from, len) {
            Ok(c) => unescaped_from(s, from + len, out.push(c)),
            Err(e) => Err(e),
        }
    }
}

/// A text with its escapes resolved.
pub open spec fn unescaped(s: Seq<char>) -> Result<Seq<char>, StopView> {
    unescaped_from(s, 0, Seq::empty())
}

/// A text with its escapes resolved.
pub fn sqlite_unistr(value: &str) -> (r: Eval<String>)
    ensures
        stop_view(r) == unescaped(value@),
{
    let s = char_vec(value);
    let total: usize = s.len();
    let mut out = String::new();
    let mut i: usize = 0;
    assert(out@ =~= Seq::<char>::empty());
    while i < total
        invariant
            s@ == value@,
            total == s@.len(),
            i <= total,
            unescaped_from(s@, i as int, out@) == unescaped(value@),
        decreases total - i,
    {
        if s[i] != '\\' {
            out.push(s[i]);
            i = i + 1;
        } else if i + 1 >= total {
            return Err(fail("invalid Unicode escape"));
        } else if s[i + 1] == '\\' {
            out.push('\\');
            i = i + 2;
        } else {
            let len: usize = if s[i + 1] == 'U' {
                8
            } else if s[i + 1] == '+' {
                6
            } else {
                4
            };
            let from: usize = if s[i + 1] == 'u' || s[i + 1] == 'U' || s[i + 1] == '+' {
                i + 2
            } else {
                i + 1
            };
            let c = parse_unistr_escape(&s, from, len)?;
            out.push(c);
            i = from + len;
        }
    }
    Ok(out)
}

} // verus!
