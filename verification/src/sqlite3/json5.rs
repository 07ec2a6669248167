//! Relaxed JSON rewritten as strict JSON: unquoted names, single quotes, comments, trailing
//! commas and other ways to write numbers.

use vstd::prelude::*;
use vstd::utf8::encode_utf8;

use crate::common::bytes::slice_vec;
use crate::common::text::{i128_text, int_text};
use crate::sqlite3::strings::{lossy, lossy_text, text_bytes};

verus! {

/// The characters with the numbers of some bytes.
pub open spec fn byte_chars(b: Seq<u8>) -> Seq<char> {
    b.map_values(|x: u8| x as char)
}

fn push_byte(out: &mut String, b: u8)
    ensures
        final(out)@ == old(out)@.push(b as char),
{
    out.push(b as char);
}

/// Whether a byte is ASCII white space.
pub open spec fn is_space(b: u8) -> bool {
    b == 32 || b == 9 || b == 10 || b == 12 || b == 13
}

fn space(b: u8) -> (r: bool)
    ensures
        r == is_space(b),
{
    b == 32 || b == 9 || b == 10 || b == 12 || b == 13
}

/// Whether a byte stands at a position.
pub open spec fn byte_at(b: Seq<u8>, i: int, x: u8) -> bool {
    0 <= i < b.len() && b[i] == x
}

fn is_at(b: &Vec<u8>, i: usize, x: u8) -> (r: bool)
    ensures
        r == byte_at(b@, i as int, x),
{
    i < b.len() && b[i] == x
}

// ---------------------------------------------------------------------------
// Comments

/// The position of the end of a block comment from a position on.
pub open spec fn comment_end(b: Seq<u8>, i: int) -> Option<int>
    decreases b.len() - i,
{
    if i < 0 || i + 1 >= b.len() {
        None
    } else if b[i] == 42 && b[i + 1] == 47 {
        Some(i)
    } else {
        comment_end(b, i + 1)
    }
}

fn find_block_comment_end(b: &Vec<u8>, from: usize) -> (r: Option<usize>)
    requires
        from <= b@.len(),
    ensures
        match r {
            Some(e) => comment_end(b@, from as int) == Some(e as int) && from <= e && e + 2
                <= b@.len(),
            None => comment_end(b@, from as int) is None,
        },
{
    let total: usize = b.len();
    let mut i: usize = from;
    while i < total && i + 1 < total
        invariant
            total == b@.len(),
            from <= i <= total,
            comment_end(b@, i as int) == comment_end(b@, from as int),
        decreases total - i,
    {
        if b[i] == 42 && b[i + 1] == 47 {
            return Some(i);
        }
        i = i + 1;
    }
    None
}

/// The end of the line from a position on.
pub open spec fn line_end(b: Seq<u8>, i: int) -> int
    decreases b.len() - i,
{
    if 0 <= i < b.len() && b[i] != 10 && b[i] != 13 {
        line_end(b, i + 1)
    } else {
        i
    }
}

fn find_line_end(b: &Vec<u8>, from: usize) -> (r: usize)
    requires
        from <= b@.len(),
    ensures
        r == line_end(b@, from as int),
        from <= r <= b@.len(),
{
    let mut i: usize = from;
    while i < b.len() && b[i] != 10 && b[i] != 13
        invariant
            from <= i <= b@.len(),
            line_end(b@, i as int) == line_end(b@, from as int),
        decreases b@.len() - i,
    {
        i = i + 1;
    }
    i
}

/// White space and comments passed over from a position on: where they end, what is written
/// and whether a comment was among them. White space is written, and a blank for a comment.
pub open spec fn gap_from(b: Seq<u8>, i: int, out: Seq<char>, comment: bool) -> (int, Seq<char>, bool)
    decreases b.len() - i,
{
    if i < 0 || i >= b.len() {
        (i, out, comment)
    } else if is_space(b[i]) {
        gap_from(b, i + 1, out.push(b[i] as char), comment)
    } else if b[i] == 47 && byte_at(b, i + 1, 42) {
        match comment_end(b, i + 2) {
            None => (i, out, comment),
            Some(e) => if i < e && e + 2 <= b.len() {
                gap_from(b, e + 2, out.push(' '), true)
            } else {
                (i, out, comment)
            },
        }
    } else if b[i] == 47 && byte_at(b, i + 1, 47) {
        if i < line_end(b, i + 2) <= b.len() {
            gap_from(b, line_end(b, i + 2), out.push(' '), true)
        } else {
            (i, out, comment)
        }
    } else {
        (i, out, comment)
    }
}

fn skip_json5_whitespace_and_comments(b: &Vec<u8>, from: usize, out: &mut String) -> (r: (
    usize,
    bool,
))
    requires
        from <= b@.len(),
    ensures
        (r.0 as int, final(out)@, r.1) == gap_from(b@, from as int, old(out)@, false),
        from <= r.0 <= b@.len(),
{
    let total: usize = b.len();
    let mut i: usize = from;
    let mut comment = false;
    while i < total
        invariant
            total == b@.len(),
            from <= i <= total,
            gap_from(b@, i as int, out@, comment) == gap_from(b@, from as int, old(out)@, false),
        decreases total - i,
    {
        if space(b[i]) {
            push_byte(out, b[i]);
            i = i + 1;
        } else if b[i] == 47 && is_at(b, i + 1, 42) {
            match find_block_comment_end(b, i + 2) {
                None => {
                    return (i, comment);
                },
                Some(e) => {
                    out.push(' ');
                    i = e + 2;
                    comment = true;
                },
            }
        } else if b[i] == 47 && is_at(b, i + 1, 47) {
            out.push(' ');
            i = find_line_end(b, i + 2);
            comment = true;
        } else {
            return (i, comment);
        }
    }
    (i, comment)
}

// ---------------------------------------------------------------------------
// Names

/// Whether a byte can start a name without quotes.
pub open spec fn starts_name(b: u8) -> bool {
    b == 95 || b == 36 || 65 <= b <= 90 || 97 <= b <= 122 || b >= 0x80
}

/// Whether a byte can stand in a name without quotes.
pub open spec fn in_name(b: u8) -> bool {
    starts_name(b) || 48 <= b <= 57
}

/// The end of a name from a position in it on.
pub open spec fn name_end(b: Seq<u8>, i: int) -> int
    decreases b.len() - i,
{
    if 0 <= i < b.len() && in_name(b[i]) {
        name_end(b, i + 1)
    } else {
        i
    }
}

/// The end of a name without quotes that starts at a position.
pub open spec fn name_at(b: Seq<u8>, i: int) -> Option<int> {
    if 0 <= i < b.len() && starts_name(b[i]) {
        Some(name_end(b, i + 1))
    } else {
        None
    }
}

fn name_byte(b: u8) -> (r: bool)
    ensures
        r == starts_name(b),
{
    b == 95 || b == 36 || (65 <= b && b <= 90) || (97 <= b && b <= 122) || b >= 0x80
}

fn json5_unquoted_key_end(b: &Vec<u8>, from: usize) -> (r: Option<usize>)
    ensures
        match r {
            Some(e) => name_at(b@, from as int) == Some(e as int) && from < e <= b@.len(),
            None => name_at(b@, from as int) is None,
        },
{
    let total: usize = b.len();
    if from >= total || !name_byte(b[from]) {
        return None;
    }
    let mut i: usize = from + 1;
    while i < total && (name_byte(b[i]) || (48 <= b[i] && b[i] <= 57))
        invariant
            total == b@.len(),
            from < i <= total,
            name_end(b@, i as int) == name_end(b@, from + 1),
        decreases total - i,
    {
        i = i + 1;
    }
    Some(i)
}

/// The end of white space from a position on.
pub open spec fn space_end(b: Seq<u8>, i: int) -> int
    decreases b.len() - i,
{
    if 0 <= i < b.len() && is_space(b[i]) {
        space_end(b, i + 1)
    } else {
        i
    }
}

fn skip_spaces(b: &Vec<u8>, from: usize) -> (r: usize)
    requires
        from <= b@.len(),
    ensures
        r == space_end(b@, from as int),
{
    let mut i: usize = from;
    while i < b.len() && space(b[i])
        invariant
            from <= i <= b@.len(),
            space_end(b@, i as int) == space_end(b@, from as int),
        decreases b@.len() - i,
    {
        i = i + 1;
    }
    i
}

// ---------------------------------------------------------------------------
// Numbers

/// Whether a number may end at a position.
pub open spec fn boundary(b: Seq<u8>, i: int) -> bool {
    i >= b.len() || i < 0 || b[i] == 44 || b[i] == 125 || b[i] == 93 || b[i] == 58 || b[i] == 32
        || b[i] == 10 || b[i] == 13 || b[i] == 9
}

fn json5_number_boundary(b: &Vec<u8>, i: usize) -> (r: bool)
    ensures
        r == boundary(b@, i as int),
{
    i >= b.len() || b[i] == 44 || b[i] == 125 || b[i] == 93 || b[i] == 58 || b[i] == 32 || b[i] == 10
        || b[i] == 13 || b[i] == 9
}

/// A letter of ASCII in lower case; other bytes stay.
pub open spec fn lower_byte(b: u8) -> u8 {
    if 65 <= b <= 90 {
        (b + 32) as u8
    } else {
        b
    }
}

fn lower(b: u8) -> (r: u8)
    ensures
        r == lower_byte(b),
{
    if 65 <= b && b <= 90 {
        b + 32
    } else {
        b
    }
}

/// Whether the word for no number stands at a position, in any case of its letters.
pub open spec fn nan_at(b: Seq<u8>, i: int) -> bool {
    0 <= i && i + 3 <= b.len() && lower_byte(b[i]) == 110 && lower_byte(b[i + 1]) == 97
        && lower_byte(b[i + 2]) == 110
}

fn is_nan_at(b: &Vec<u8>, i: usize) -> (r: bool)
    requires
        i <= b@.len(),
    ensures
        r == nan_at(b@, i as int),
{
    b.len() - i >= 3 && lower(b[i]) == 110 && lower(b[i + 1]) == 97 && lower(b[i + 2]) == 110
}

/// The end of a word for no number that starts at a position.
pub open spec fn special_at(b: Seq<u8>, i: int) -> Option<int> {
    let e = if 0 <= i < b.len() && (lower_byte(b[i]) == 113 || lower_byte(b[i]) == 115) && nan_at(
        b,
        i + 1,
    ) {
        i + 4
    } else if nan_at(b, i) {
        i + 3
    } else {
        -1
    };
    if e >= 0 && boundary(b, e) {
        Some(e)
    } else {
        None
    }
}

fn normalize_json5_special_value_token(b: &Vec<u8>, i: usize) -> (r: Option<usize>)
    requires
        i < b@.len(),
    ensures
        match r {
            Some(e) => special_at(b@, i as int) == Some(e as int) && i < e <= b@.len(),
            None => special_at(b@, i as int) is None,
        },
{
    let total: usize = b.len();
    let e: usize = if (lower(b[i]) == 113 || lower(b[i]) == 115) && is_nan_at(b, i + 1) {
        i + 4
    } else if is_nan_at(b, i) {
        i + 3
    } else {
        return None;
    };
    if json5_number_boundary(b, e) {
        Some(e)
    } else {
        None
    }
}

/// Whether a byte is a decimal digit.
pub open spec fn digit_byte(b: u8) -> bool {
    48 <= b <= 57
}

/// The end of decimal digits from a position on.
pub open spec fn number_end(b: Seq<u8>, i: int) -> int
    decreases b.len() - i,
{
    if 0 <= i < b.len() && digit_byte(b[i]) {
        number_end(b, i + 1)
    } else {
        i
    }
}

fn skip_number(b: &Vec<u8>, from: usize) -> (r: usize)
    requires
        from <= b@.len(),
    ensures
        r == number_end(b@, from as int),
        from <= r <= b@.len(),
{
    let mut i: usize = from;
    while i < b.len() && 48 <= b[i] && b[i] <= 57
        invariant
            from <= i <= b@.len(),
            number_end(b@, i as int) == number_end(b@, from as int),
        decreases b@.len() - i,
    {
        i = i + 1;
    }
    i
}

/// The value of a hexadecimal digit.
pub open spec fn nibble(b: u8) -> Option<int> {
    if 48 <= b <= 57 {
        Some(b - 48)
    } else if 97 <= b <= 102 {
        Some(b - 87)
    } else if 65 <= b <= 70 {
        Some(b - 55)
    } else {
        None
    }
}

fn nibble_of(b: u8) -> (r: Option<u8>)
    ensures
        match r {
            Some(n) => nibble(b) == Some(n as int) && n < 16,
            None => nibble(b) is None,
        },
{
    if 48 <= b && b <= 57 {
        Some(b - 48)
    } else if 97 <= b && b <= 102 {
        Some(b - 87)
    } else if 65 <= b && b <= 70 {
        Some(b - 55)
    } else {
        None
    }
}

/// The hexadecimal number from a position on behind digits with a value: where it ends and
/// its value.
pub open spec fn hex_from(b: Seq<u8>, i: int, value: int) -> (int, int)
    decreases b.len() - i,
{
    if 0 <= i < b.len() && nibble(b[i]) is Some {
        hex_from(b, i + 1, 16 * value + nibble(b[i])->Some_0)
    } else {
        (i, value)
    }
}

fn read_hex(b: &Vec<u8>, from: usize) -> (r: (usize, Option<i128>))
    requires
        from <= b@.len(),
    ensures
        r.0 == hex_from(b@, from as int, 0).0,
        from <= r.0 <= b@.len(),
        match r.1 {
            Some(n) => n == hex_from(b@, from as int, 0).1 && n >= 0,
            None => hex_from(b@, from as int, 0).1 > i128::MAX,
        },
{
    let mut i: usize = from;
    let mut value: i128 = 0;
    let mut big = false;
    let ghost mut exact: int = 0;
    while i < b.len()
        invariant
            from <= i <= b@.len(),
            hex_from(b@, i as int, exact) == hex_from(b@, from as int, 0),
            exact >= 0,
            !big ==> exact == value,
            big ==> exact > i128::MAX,
            0 <= value,
        decreases b@.len() - i,
    {
        match nibble_of(b[i]) {
            None => {
                return (
                    i,
                    if big {
                        None
                    } else {
                        Some(value)
                    },
                );
            },
            Some(n) => {
                proof {
                    exact = 16 * exact + n as int;
                }
                if !big {
                    if value > 0x7FF_FFFF_FFFF_FFFF_FFFF_FFFF_FFFF_FFFF {
                        big = true;
                    } else {
                        value = 16 * value + n as i128;
                    }
                }
                i = i + 1;
            },
        }
    }
    (
        i,
        if big {
            None
        } else {
            Some(value)
        },
    )
}

/// Whether a sign stands at a position.
pub open spec fn sign_byte_at(b: Seq<u8>, i: int) -> bool {
    byte_at(b, i, 43) || byte_at(b, i, 45)
}

/// The end of an exponent that starts at a position, or the position where there is none.
pub open spec fn exponent_after(b: Seq<u8>, i: int) -> int {
    if byte_at(b, i, 101) || byte_at(b, i, 69) {
        let j = if sign_byte_at(b, i + 1) {
            i + 2
        } else {
            i + 1
        };
        if number_end(b, j) > j {
            number_end(b, j)
        } else {
            i
        }
    } else {
        i
    }
}

fn skip_exponent_bytes(b: &Vec<u8>, i: usize) -> (r: usize)
    requires
        i <= b@.len(),
    ensures
        r == exponent_after(b@, i as int),
        i <= r <= b@.len(),
{
    let total: usize = b.len();
    if i < total && (b[i] == 101 || b[i] == 69) {
        let j: usize = if is_at(b, i + 1, 43) || is_at(b, i + 1, 45) {
            i + 2
        } else {
            i + 1
        };
        let e: usize = skip_number(b, j);
        if e > j {
            e
        } else {
            i
        }
    } else {
        i
    }
}

/// A decimal number in the form that strict JSON has for it.
pub open spec fn strict_number(token: Seq<char>, dot: bool) -> Seq<char> {
    let t = if token.len() > 0 && token[0] == '+' {
        token.drop_first()
    } else {
        token
    };
    let u = if t.len() > 0 && t[0] == '.' {
        seq!['0'] + t
    } else if t.len() > 1 && t[0] == '-' && t[1] == '.' {
        seq!['-', '0'] + t.drop_first()
    } else {
        t
    };
    if dot && u.len() > 0 && u.last() == '.' {
        u.push('0')
    } else {
        u
    }
}

/// A number at a position that strict JSON writes in another way: how, and where it ends.
pub open spec fn number_at(b: Seq<u8>, start: int) -> Option<(Seq<char>, int)> {
    let i = if sign_byte_at(b, start) {
        start + 1
    } else {
        start
    };
    if i >= b.len() {
        None
    } else if b[i] == 48 && (byte_at(b, i + 1, 120) || byte_at(b, i + 1, 88)) {
        let (e, value) = hex_from(b, i + 2, 0);
        if e == i + 2 || !boundary(b, e) || value > i128::MAX {
            None
        } else {
            Some(
                (
                    int_text(
                        if byte_at(b, start, 45) {
                            -value
                        } else {
                            value
                        },
                    ),
                    e,
                ),
            )
        }
    } else {
        let whole = number_end(b, i);
        let dot = byte_at(b, whole, 46);
        let fraction = if dot {
            number_end(b, whole + 1)
        } else {
            whole
        };
        let end = exponent_after(b, fraction);
        let token = byte_chars(b.subrange(start, end));
        if (whole == i && !(dot && fraction > whole + 1)) || !boundary(b, end) || !(b[start] == 43
            || b[start] == 46 || b[end - 1] == 46) {
            None
        } else {
            Some((strict_number(token, dot), end))
        }
    }
}

fn push_chars(out: &mut String, b: &Vec<u8>, from: usize, to: usize)
    requires
        from <= to <= b@.len(),
    ensures
        final(out)@ == old(out)@ + byte_chars(b@.subrange(from as int, to as int)),
{
    let mut i: usize = from;
    assert(out@ =~= old(out)@ + byte_chars(b@.subrange(from as int, from as int)));
    while i < to
        invariant
            from <= i <= to <= b@.len(),
            out@ == old(out)@ + byte_chars(b@.subrange(from as int, i as int)),
        decreases to - i,
    {
        push_byte(out, b[i]);
        i = i + 1;
        assert(out@ =~= old(out)@ + byte_chars(b@.subrange(from as int, i as int)));
    }
}

fn strict(b: &Vec<u8>, start: usize, end: usize, dot: bool) -> (r: String)
    requires
        start < end <= b@.len(),
    ensures
        r@ == strict_number(byte_chars(b@.subrange(start as int, end as int)), dot),
{
    let ghost token = byte_chars(b@.subrange(start as int, end as int));
    let from: usize = if b[start] == 43 {
        start + 1
    } else {
        start
    };
    assert(token[0] == b@[start as int] as char);
    let ghost t = if token[0] == '+' {
        token.drop_first()
    } else {
        token
    };
    assert(byte_chars(b@.subrange(from as int, end as int)) =~= t);
    let mut r = String::new();
    let ghost mut u = t;
    if from < end && b[from] == 46 {
        assert(t[0] == b@[from as int] as char);
        r.push('0');
        push_chars(&mut r, b, from, end);
        assert(r@ =~= seq!['0'] + t);
        proof {
            u = seq!['0'] + t;
        }
    } else if end - from > 1 && b[from] == 45 && b[from + 1] == 46 {
        assert(t[0] == b@[from as int] as char && t[1] == b@[from + 1] as char);
        r.push('-');
        r.push('0');
        push_chars(&mut r, b, from + 1, end);
        assert(byte_chars(b@.subrange(from + 1, end as int)) =~= t.drop_first());
        assert(r@ =~= seq!['-', '0'] + t.drop_first());
        proof {
            u = seq!['-', '0'] + t.drop_first();
        }
    } else {
        push_chars(&mut r, b, from, end);
        assert(r@ =~= t);
        assert(from < end ==> t[0] == b@[from as int] as char);
        assert(end - from > 1 ==> t[1] == b@[from + 1] as char);
    }
    assert(r@ == u);
    if from < end {
        assert(u.last() == b@[end - 1] as char);
    }
    if dot && from < end && b[end - 1] == 46 {
        r.push('0');
    }
    r
}

fn normalize_json5_number_token(b: &Vec<u8>, start: usize) -> (r: Option<(String, usize)>)
    requires
        start < b@.len(),
    ensures
        match r {
            Some((t, e)) => number_at(b@, start as int) == Some((t@, e as int)) && start < e
                <= b@.len(),
            None => number_at(b@, start as int) is None,
        },
{
    let total: usize = b.len();
    let i: usize = if b[start] == 43 || b[start] == 45 {
        start + 1
    } else {
        start
    };
    if i >= total {
        return None;
    }
    if b[i] == 48 && (is_at(b, i + 1, 120) || is_at(b, i + 1, 88)) {
        let (e, value) = read_hex(b, i + 2);
        if e == i + 2 || !json5_number_boundary(b, e) {
            return None;
        }
        return match value {
            None => None,
            Some(n) => {
                if b[start] == 45 {
                    Some((i128_text(-n), e))
                } else {
                    Some((i128_text(n), e))
                }
            },
        };
    }
    let whole: usize = skip_number(b, i);
    let dot = is_at(b, whole, 46);
    let fraction: usize = if dot {
        skip_number(b, whole + 1)
    } else {
        whole
    };
    if whole == i && !(dot && fraction > whole + 1) {
        return None;
    }
    let end: usize = skip_exponent_bytes(b, fraction);
    if !json5_number_boundary(b, end) {
        return None;
    }
    if !(b[start] == 43 || b[start] == 46 || b[end - 1] == 46) {
        return None;
    }
    Some((strict(b, start, end, dot), end))
}

// ---------------------------------------------------------------------------
// Documents

/// What a character behind a backslash in single quotes is written as.
pub open spec fn escape_chars(b: u8) -> Seq<char> {
    if b == 39 {
        seq!['\'']
    } else if b == 34 {
        seq!['\\', '"']
    } else if b == 92 {
        seq!['\\', '\\']
    } else if b == 47 {
        seq!['/']
    } else {
        seq!['\\', b as char]
    }
}

/// What a character in single quotes is written as.
pub open spec fn plain_chars(b: u8) -> Seq<char> {
    if b == 34 {
        seq!['\\', '"']
    } else if b == 10 {
        seq!['\\', 'n']
    } else if b == 13 {
        seq!['\\', 'r']
    } else if b == 9 {
        seq!['\\', 't']
    } else {
        seq![b as char]
    }
}

/// A text in single quotes from a position in it on: where it ends and what is written.
pub open spec fn single_from(b: Seq<u8>, i: int, out: Seq<char>) -> (int, Seq<char>)
    decreases b.len() - i,
{
    if i < 0 || i >= b.len() {
        (i, out)
    } else if b[i] == 39 {
        (i + 1, out.push('"'))
    } else if b[i] == 92 {
        if i + 1 >= b.len() {
            single_from(b, i + 1, out.push('\\'))
        } else {
            single_from(b, i + 2, out + escape_chars(b[i + 1]))
        }
    } else {
        single_from(b, i + 1, out + plain_chars(b[i]))
    }
}

fn push_single(b: &Vec<u8>, from: usize, out: &mut String) -> (r: usize)
    requires
        from <= b@.len(),
    ensures
        (r as int, final(out)@) == single_from(b@, from as int, old(out)@),
        from <= r <= b@.len(),
{
    let total: usize = b.len();
    let mut i: usize = from;
    while i < total
        invariant
            total == b@.len(),
            from <= i <= total,
            single_from(b@, i as int, out@) == single_from(b@, from as int, old(out)@),
        decreases total - i,
    {
        let ghost before = out@;
        let x: u8 = b[i];
        if x == 39 {
            out.push('"');
            return i + 1;
        }
        if x == 92 {
            if i + 1 >= total {
                out.push('\\');
                i = i + 1;
            } else {
                let y: u8 = b[i + 1];
                if y == 39 {
                    out.push('\'');
                } else if y == 34 {
                    out.push('\\');
                    out.push('"');
                } else if y == 92 {
                    out.push('\\');
                    out.push('\\');
                } else if y == 47 {
                    out.push('/');
                } else {
                    out.push('\\');
                    push_byte(out, y);
                }
                assert(out@ =~= before + escape_chars(y));
                i = i + 2;
            }
        } else {
            if x == 34 {
                out.push('\\');
                out.push('"');
            } else if x == 10 {
                out.push('\\');
                out.push('n');
            } else if x == 13 {
                out.push('\\');
                out.push('r');
            } else if x == 9 {
                out.push('\\');
                out.push('t');
            } else {
                push_byte(out, x);
            }
            assert(out@ =~= before + plain_chars(x));
            i = i + 1;
        }
    }
    i
}

/// What follows an opening brace or a comma: where it goes on, what is written and whether
/// that differs. A comma before a closing bracket is left out, and a name gets its quotes.
pub open spec fn after_delimiter(b: Seq<u8>, i: int, out: Seq<char>, changed: bool) -> (
    int,
    Seq<char>,
    bool,
) {
    let (k, written, comment) = gap_from(b, i + 1, out.push(b[i] as char), false);
    if b[i] == 44 && (byte_at(b, k, 125) || byte_at(b, k, 93)) {
        (k, out, true)
    } else {
        match name_at(b, k) {
            None => (k, written, changed || comment),
            Some(e) => {
                let name = lossy_text(b.subrange(k, e));
                if byte_at(b, space_end(b, e), 58) {
                    (e, written.push('"') + name + seq!['"'], true)
                } else {
                    (e, written + name, changed || comment)
                }
            },
        }
    }
}

fn push_after_delimiter(b: &Vec<u8>, i: usize, out: &mut String, changed: &mut bool) -> (r: usize)
    requires
        i < b@.len(),
    ensures
        (r as int, final(out)@, *final(changed)) == after_delimiter(
            b@,
            i as int,
            old(out)@,
            *old(changed),
        ),
        i < r <= b@.len(),
{
    let total: usize = b.len();
    let x: u8 = b[i];
    let mut written = out.clone();
    push_byte(&mut written, x);
    let (k, comment) = skip_json5_whitespace_and_comments(b, i + 1, &mut written);
    if x == 44 && (is_at(b, k, 125) || is_at(b, k, 93)) {
        *changed = true;
        return k;
    }
    match json5_unquoted_key_end(b, k) {
        None => {
            *out = written;
            if comment {
                *changed = true;
            }
            k
        },
        Some(e) => {
            let name = lossy(slice_vec(b.as_slice(), k, e).as_slice());
            let colon: usize = skip_spaces(b, e);
            if is_at(b, colon, 58) {
                written.push('"');
                written.append(name.as_str());
                written.push('"');
                assert(written@ =~= after_delimiter(b@, i as int, old(out)@, *old(changed)).1);
                *changed = true;
            } else {
                written.append(name.as_str());
                if comment {
                    *changed = true;
                }
            }
            *out = written;
            e
        },
    }
}

/// Relaxed JSON rewritten from a position on: what is written, and whether it differs.
pub open spec fn strict_from(
    b: Seq<u8>,
    i: int,
    in_string: bool,
    escaped: bool,
    changed: bool,
    out: Seq<char>,
) -> (Seq<char>, bool)
    decreases b.len() - i,
{
    if i < 0 || i >= b.len() {
        (out, changed)
    } else if in_string {
        strict_from(
            b,
            i + 1,
            escaped || b[i] != 34,
            !escaped && b[i] == 92,
            changed,
            out.push(b[i] as char),
        )
    } else if b[i] == 34 {
        strict_from(b, i + 1, true, escaped, changed, out.push('"'))
    } else if b[i] == 39 {
        let (k, written) = single_from(b, i + 1, out.push('"'));
        if i < k <= b.len() {
            strict_from(b, k, false, escaped, true, written)
        } else {
            (written, true)
        }
    } else if b[i] == 47 && byte_at(b, i + 1, 42) {
        match comment_end(b, i + 2) {
            None => strict_from(b, i + 1, false, escaped, changed, out.push('/')),
            Some(e) => if i < e && e + 2 <= b.len() {
                strict_from(b, e + 2, false, escaped, true, out.push(' '))
            } else {
                (out, changed)
            },
        }
    } else if b[i] == 47 && byte_at(b, i + 1, 47) {
        if i < line_end(b, i + 2) <= b.len() {
            strict_from(b, line_end(b, i + 2), false, escaped, true, out.push(' '))
        } else {
            (out, changed)
        }
    } else if b[i] == 123 || b[i] == 44 {
        let (k, written, differs) = after_delimiter(b, i, out, changed);
        if i < k <= b.len() {
            strict_from(b, k, false, escaped, differs, written)
        } else {
            (written, differs)
        }
    } else if special_at(b, i) is Some {
        let e = special_at(b, i)->Some_0;
        if i < e <= b.len() {
            strict_from(b, e, false, escaped, true, out + "null"@)
        } else {
            (out, changed)
        }
    } else if number_at(b, i) is Some {
        let (t, e) = number_at(b, i)->Some_0;
        if i < e <= b.len() {
            strict_from(b, e, false, escaped, true, out + t)
        } else {
            (out, changed)
        }
    } else {
        strict_from(b, i + 1, false, escaped, changed, out.push(b[i] as char))
    }
}

/// Relaxed JSON rewritten as strict JSON; nothing where that changes nothing.
pub open spec fn strict_json(s: Seq<char>) -> Option<Seq<char>> {
    let (out, changed) = strict_from(encode_utf8(s), 0, false, false, false, Seq::empty());
    if changed {
        Some(out)
    } else {
        None
    }
}

/// Rewrites relaxed JSON as strict JSON.
#[verifier::rlimit(60)]
pub fn quote_json5_object_keys(json: &str) -> (r: Option<String>)
    ensures
        match r {
            Some(t) => strict_json(json@) == Some(t@),
            None => strict_json(json@) is None,
        },
{
    let b = text_bytes(json);
    let total: usize = b.len();
    let mut out = String::new();
    let mut i: usize = 0;
    let mut changed = false;
    let mut in_string = false;
    let mut escaped = false;
    assert(out@ =~= Seq::<char>::empty());
    while i < total
        invariant
            b@ == encode_utf8(json@),
            total == b@.len(),
            i <= total,
            strict_from(b@, i as int, in_string, escaped, changed, out@) == strict_from(
                b@,
                0,
                false,
                false,
                false,
                Seq::empty(),
            ),
        decreases total - i,
    {
        let x: u8 = b[i];
        if in_string {
            push_byte(&mut out, x);
            if escaped {
                escaped = false;
            } else if x == 92 {
                escaped = true;
            } else if x == 34 {
                in_string = false;
            }
            i = i + 1;
        } else if x == 34 {
            in_string = true;
            out.push('"');
            i = i + 1;
        } else if x == 39 {
            out.push('"');
            changed = true;
            i = push_single(&b, i + 1, &mut out);
        } else if x == 47 && is_at(&b, i + 1, 42) {
            match find_block_comment_end(&b, i + 2) {
                None => {
                    out.push('/');
                    i = i + 1;
                },
                Some(e) => {
                    out.push(' ');
                    i = e + 2;
                    changed = true;
                },
            }
        } else if x == 47 && is_at(&b, i + 1, 47) {
            out.push(' ');
            i = find_line_end(&b, i + 2);
            changed = true;
        } else if x == 123 || x == 44 {
            i = push_after_delimiter(&b, i, &mut out, &mut changed);
        } else if let Some(e) = normalize_json5_special_value_token(&b, i) {
            out.append("null");
            i = e;
            changed = true;
        } else if let Some((t, e)) = normalize_json5_number_token(&b, i) {
            out.append(t.as_str());
            i = e;
            changed = true;
        } else {
            push_byte(&mut out, x);
            i = i + 1;
        }
    }
    if changed {
        Some(out)
    } else {
        None
    }
}

} // verus!
