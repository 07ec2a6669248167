//! What the functions of SQL do with texts.

use vstd::prelude::*;
use vstd::utf8::encode_utf8;

use crate::common::text::{char_vec, text_of};

verus! {

// ---------------------------------------------------------------------------
// Blanks

/// Whether `char::is_whitespace` counts a character as white space.
pub uninterp spec fn is_blank(c: char) -> bool;

/// `char::is_whitespace` tells white space from other characters.
pub assume_specification[ char::is_whitespace ](c: char) -> (r: bool)
    ensures
        r == is_blank(c),
;

/// What `String::from_utf8_lossy` reads from bytes.
pub uninterp spec fn lossy_text(bytes: Seq<u8>) -> Seq<char>;

/// `String::from_utf8_lossy` reads bytes as UTF-8 and puts a replacement character where they
/// are not; bytes that are UTF-8 are read as what they encode.
#[verifier::external_body]
pub(crate) fn lossy(bytes: &[u8]) -> (r: String)
    ensures
        r@ == lossy_text(bytes@),
        vstd::utf8::valid_utf8(bytes@) ==> r@ == vstd::utf8::decode_utf8(bytes@),
{
    String::from_utf8_lossy(bytes).into_owned()
}

/// `str::from_utf8` reads bytes that are UTF-8 as what they encode, and refuses others.
#[verifier::external_body]
pub(crate) fn read_utf8(bytes: &[u8]) -> (r: Option<String>)
    ensures
        match r {
            Some(t) => vstd::utf8::valid_utf8(bytes@) && t@ == vstd::utf8::decode_utf8(bytes@),
            None => !vstd::utf8::valid_utf8(bytes@),
        },
{
    match std::str::from_utf8(bytes) {
        Ok(t) => Some(t.to_owned()),
        Err(_) => None,
    }
}

/// `char::from_u32` gives the character with a number, where there is one.
pub assume_specification[ char::from_u32 ](i: u32) -> (r: Option<char>)
    ensures
        r == if i < 0xD800 || 0xE000 <= i <= 0x10FFFF {
            Some(i as char)
        } else {
            None
        },
;

/// A text without the white space at its start.
pub open spec fn trimmed_start(s: Seq<char>) -> Seq<char>
    decreases s.len(),
{
    if s.len() > 0 && is_blank(s[0]) {
        trimmed_start(s.drop_first())
    } else {
        s
    }
}

/// A text without the white space at its end.
pub open spec fn trimmed_end(s: Seq<char>) -> Seq<char>
    decreases s.len(),
{
    if s.len() > 0 && is_blank(s.last()) {
        trimmed_end(s.drop_last())
    } else {
        s
    }
}

/// A text without the white space at both ends.
pub open spec fn trimmed(s: Seq<char>) -> Seq<char> {
    trimmed_end(trimmed_start(s))
}

/// A text without the given characters at its start.
pub open spec fn stripped_start(s: Seq<char>, set: Seq<char>) -> Seq<char>
    decreases s.len(),
{
    if s.len() > 0 && set.contains(s[0]) {
        stripped_start(s.drop_first(), set)
    } else {
        s
    }
}

/// A text without the given characters at its end.
pub open spec fn stripped_end(s: Seq<char>, set: Seq<char>) -> Seq<char>
    decreases s.len(),
{
    if s.len() > 0 && set.contains(s.last()) {
        stripped_end(s.drop_last(), set)
    } else {
        s
    }
}

fn blank_front(c: &Vec<char>) -> (i: usize)
    ensures
        i <= c@.len(),
        trimmed_start(c@) == c@.skip(i as int),
{
    let mut i: usize = 0;
    assert(c@.skip(0) =~= c@);
    while i < c.len() && c[i].is_whitespace()
        invariant
            i <= c@.len(),
            trimmed_start(c@.skip(i as int)) == trimmed_start(c@),
        decreases c@.len() - i,
    {
        assert(c@.skip(i as int).drop_first() =~= c@.skip(i + 1));
        i = i + 1;
    }
    i
}

fn blank_back(c: &Vec<char>, from: usize) -> (j: usize)
    requires
        from <= c@.len(),
    ensures
        from <= j <= c@.len(),
        trimmed_end(c@.skip(from as int)) == c@.subrange(from as int, j as int),
{
    let mut j: usize = c.len();
    assert(c@.skip(from as int) =~= c@.subrange(from as int, j as int));
    while j > from && c[j - 1].is_whitespace()
        invariant
            from <= j <= c@.len(),
            trimmed_end(c@.subrange(from as int, j as int)) == trimmed_end(c@.skip(from as int)),
        decreases j,
    {
        assert(c@.subrange(from as int, j as int).drop_last() =~= c@.subrange(
            from as int,
            j - 1,
        ));
        j = j - 1;
    }
    j
}

/// A text without the white space at its start.
pub fn trim_start(s: &str) -> (r: String)
    ensures
        r@ == trimmed_start(s@),
{
    let c = char_vec(s);
    let i: usize = blank_front(&c);
    assert(c@.skip(i as int) =~= c@.subrange(i as int, c@.len() as int));
    text_of(&c, i, c.len())
}

/// A text without the white space at its end.
pub fn trim_end(s: &str) -> (r: String)
    ensures
        r@ == trimmed_end(s@),
{
    let c = char_vec(s);
    let j: usize = blank_back(&c, 0);
    assert(c@.skip(0) =~= c@);
    text_of(&c, 0, j)
}

/// A text without the white space at both ends.
pub fn trim(s: &str) -> (r: String)
    ensures
        r@ == trimmed(s@),
{
    let c = char_vec(s);
    let i: usize = blank_front(&c);
    let j: usize = blank_back(&c, i);
    text_of(&c, i, j)
}

/// Whether a character stands in a text.
pub fn has_char(set: &Vec<char>, c: char) -> (r: bool)
    ensures
        r == set@.contains(c),
{
    let mut i: usize = 0;
    while i < set.len()
        invariant
            i <= set@.len(),
            forall|j: int| 0 <= j < i ==> set@[j] != c,
        decreases set@.len() - i,
    {
        if set[i] == c {
            return true;
        }
        i = i + 1;
    }
    false
}

/// A text without the given characters at its start.
pub fn strip_start(s: &str, set: &str) -> (r: String)
    ensures
        r@ == stripped_start(s@, set@),
{
    let c = char_vec(s);
    let set = char_vec(set);
    let mut i: usize = 0;
    assert(c@.skip(0) =~= c@);
    while i < c.len() && has_char(&set, c[i])
        invariant
            i <= c@.len(),
            stripped_start(c@.skip(i as int), set@) == stripped_start(c@, set@),
        decreases c@.len() - i,
    {
        assert(c@.skip(i as int).drop_first() =~= c@.skip(i + 1));
        i = i + 1;
    }
    assert(c@.skip(i as int) =~= c@.subrange(i as int, c@.len() as int));
    text_of(&c, i, c.len())
}

/// A text without the given characters at its end.
pub fn strip_end(s: &str, set: &str) -> (r: String)
    ensures
        r@ == stripped_end(s@, set@),
{
    let c = char_vec(s);
    let set = char_vec(set);
    let mut j: usize = c.len();
    assert(c@.take(j as int) =~= c@);
    while j > 0 && has_char(&set, c[j - 1])
        invariant
            j <= c@.len(),
            stripped_end(c@.take(j as int), set@) == stripped_end(c@, set@),
        decreases j,
    {
        assert(c@.take(j as int).drop_last() =~= c@.take(j - 1));
        j = j - 1;
    }
    assert(c@.take(j as int) =~= c@.subrange(0, j as int));
    text_of(&c, 0, j)
}

// ---------------------------------------------------------------------------
// Characters

/// The position of a character from a position on, or the length.
pub open spec fn char_from(s: Seq<char>, c: char, i: int) -> int
    decreases s.len() - i,
{
    if i < 0 || i >= s.len() {
        s.len() as int
    } else if s[i] == c {
        i
    } else {
        char_from(s, c, i + 1)
    }
}

/// The position of a character from a position on, or the length.
pub fn find_char(s: &Vec<char>, c: char, from: usize) -> (r: usize)
    requires
        from <= s@.len(),
    ensures
        r == char_from(s@, c, from as int),
        from <= r <= s@.len(),
        r < s@.len() ==> s@[r as int] == c,
{
    let mut i: usize = from;
    while i < s.len()
        invariant
            from <= i <= s@.len(),
            char_from(s@, c, i as int) == char_from(s@, c, from as int),
        decreases s@.len() - i,
    {
        if s[i] == c {
            return i;
        }
        i = i + 1;
    }
    i
}

/// The text before the first zero character.
pub open spec fn before_nul(s: Seq<char>) -> Seq<char> {
    s.take(char_from(s, '\0', 0))
}

/// The text before the first zero character.
pub fn text_before_nul(s: &str) -> (r: String)
    ensures
        r@ == before_nul(s@),
{
    let c = char_vec(s);
    let i: usize = find_char(&c, '\0', 0);
    assert(c@.take(i as int) =~= c@.subrange(0, i as int));
    text_of(&c, 0, i)
}

/// A letter of ASCII in lower case; other characters stay.
pub open spec fn lower_char(c: char) -> char {
    if 'A' <= c <= 'Z' {
        (c as int + 32) as char
    } else {
        c
    }
}

/// A letter of ASCII in upper case; other characters stay.
pub open spec fn upper_char(c: char) -> char {
    if 'a' <= c <= 'z' {
        (c as int - 32) as char
    } else {
        c
    }
}

/// A text with its ASCII letters in lower case.
pub open spec fn lowered(s: Seq<char>) -> Seq<char> {
    s.map_values(|c: char| lower_char(c))
}

/// A text with its ASCII letters in upper case.
pub open spec fn uppered(s: Seq<char>) -> Seq<char> {
    s.map_values(|c: char| upper_char(c))
}

/// A letter of ASCII in lower case; other characters stay.
pub fn to_lower(c: char) -> (r: char)
    ensures
        r == lower_char(c),
{
    if 'A' <= c && c <= 'Z' {
        (c as u8 + 32) as char
    } else {
        c
    }
}

/// A letter of ASCII in upper case; other characters stay.
pub fn to_upper(c: char) -> (r: char)
    ensures
        r == upper_char(c),
{
    if 'a' <= c && c <= 'z' {
        (c as u8 - 32) as char
    } else {
        c
    }
}

/// A text with its ASCII letters in lower case.
pub fn ascii_lower(s: &str) -> (r: String)
    ensures
        r@ == lowered(s@),
{
    let c = char_vec(s);
    let mut r = String::new();
    let mut i: usize = 0;
    while i < c.len()
        invariant
            c@ == s@,
            i <= c@.len(),
            r@ == lowered(s@.take(i as int)),
        decreases c@.len() - i,
    {
        r.push(to_lower(c[i]));
        i = i + 1;
        assert(r@ =~= lowered(s@.take(i as int)));
    }
    assert(s@.take(i as int) =~= s@);
    r
}

/// A text with its ASCII letters in upper case.
pub fn ascii_upper(s: &str) -> (r: String)
    ensures
        r@ == uppered(s@),
{
    let c = char_vec(s);
    let mut r = String::new();
    let mut i: usize = 0;
    while i < c.len()
        invariant
            c@ == s@,
            i <= c@.len(),
            r@ == uppered(s@.take(i as int)),
        decreases c@.len() - i,
    {
        r.push(to_upper(c[i]));
        i = i + 1;
        assert(r@ =~= uppered(s@.take(i as int)));
    }
    assert(s@.take(i as int) =~= s@);
    r
}

/// Whether two texts are the same but for the case of ASCII letters.
pub open spec fn same_letters(a: Seq<char>, b: Seq<char>) -> bool {
    lowered(a) == lowered(b)
}

/// Whether two texts are the same but for the case of ASCII letters.
pub fn same_but_case(a: &str, b: &str) -> (r: bool)
    ensures
        r == same_letters(a@, b@),
{
    ascii_lower(a) == ascii_lower(b)
}

/// Whether a character is a decimal digit.
pub open spec fn is_digit(c: char) -> bool {
    '0' <= c <= '9'
}

/// Whether a character is a decimal digit.
pub fn digit(c: char) -> (r: bool)
    ensures
        r == is_digit(c),
{
    '0' <= c && c <= '9'
}

/// The value of a hexadecimal digit.
pub open spec fn hex_value(c: char) -> Option<int> {
    if '0' <= c <= '9' {
        Some(c as int - '0' as int)
    } else if 'a' <= c <= 'f' {
        Some(c as int - 'a' as int + 10)
    } else if 'A' <= c <= 'F' {
        Some(c as int - 'A' as int + 10)
    } else {
        None
    }
}

/// The value of a hexadecimal digit.
pub fn hex_nibble(c: char) -> (r: Option<u8>)
    ensures
        match r {
            Some(v) => hex_value(c) == Some(v as int) && v < 16,
            None => hex_value(c) is None,
        },
{
    if '0' <= c && c <= '9' {
        Some(c as u8 - 48)
    } else if 'a' <= c && c <= 'f' {
        Some(c as u8 - 97 + 10)
    } else if 'A' <= c && c <= 'F' {
        Some(c as u8 - 65 + 10)
    } else {
        None
    }
}

/// The hexadecimal digit of a number below sixteen.
pub open spec fn hex_digit(n: int, upper: bool) -> char {
    if n < 10 {
        (48 + n) as char
    } else if upper {
        (55 + n) as char
    } else {
        (87 + n) as char
    }
}

/// The hexadecimal digit of a number below sixteen.
pub fn digit_of_hex(n: u8, upper: bool) -> (r: char)
    requires
        n < 16,
    ensures
        r == hex_digit(n as int, upper),
{
    if n < 10 {
        (48 + n) as char
    } else if upper {
        (55 + n) as char
    } else {
        (87 + n) as char
    }
}

/// The hexadecimal digits of bytes, two for each.
pub open spec fn hex_text(bytes: Seq<u8>) -> Seq<char> {
    Seq::new(
        2 * bytes.len(),
        |i: int|
            hex_digit(
                if i % 2 == 0 {
                    bytes[i / 2] as int / 16
                } else {
                    bytes[i / 2] as int % 16
                },
                true,
            ),
    )
}

/// The hexadecimal digits of bytes, two for each.
pub fn hex_of(bytes: &[u8]) -> (r: String)
    ensures
        r@ == hex_text(bytes@),
{
    let mut r = String::new();
    let mut i: usize = 0;
    while i < bytes.len()
        invariant
            i <= bytes@.len(),
            r@ == hex_text(bytes@.take(i as int)),
        decreases bytes@.len() - i,
    {
        r.push(digit_of_hex(bytes[i] / 16, true));
        r.push(digit_of_hex(bytes[i] % 16, true));
        i = i + 1;
        assert(r@ =~= hex_text(bytes@.take(i as int)));
    }
    assert(bytes@.take(i as int) =~= bytes@);
    r
}

// ---------------------------------------------------------------------------
// Numbers

/// The number that decimal digits spell.
pub open spec fn digits_value(s: Seq<char>) -> nat
    decreases s.len(),
{
    if s.len() == 0 {
        0
    } else {
        10 * digits_value(s.drop_last()) + (s.last() as nat - '0' as nat) as nat
    }
}

/// Whether all characters of a text are digits.
pub open spec fn all_digits(s: Seq<char>) -> bool {
    forall|i: int| 0 <= i < s.len() ==> is_digit(#[trigger] s[i])
}

/// The natural number that a text spells.
pub open spec fn nat_of(s: Seq<char>) -> Option<nat> {
    if s.len() > 0 && all_digits(s) {
        Some(digits_value(s))
    } else {
        None
    }
}

/// The integer that a text spells, with or without a sign.
pub open spec fn int_of(s: Seq<char>) -> Option<int> {
    if s.len() > 0 && s[0] == '-' {
        match nat_of(s.drop_first()) {
            Some(n) => Some(-(n as int)),
            None => None,
        }
    } else if s.len() > 0 && s[0] == '+' {
        match nat_of(s.drop_first()) {
            Some(n) => Some(n as int),
            None => None,
        }
    } else {
        match nat_of(s) {
            Some(n) => Some(n as int),
            None => None,
        }
    }
}

/// The 64-bit integer that a text spells.
pub open spec fn i64_of(s: Seq<char>) -> Option<i64> {
    match int_of(s) {
        Some(i) => if i64::MIN <= i <= i64::MAX {
            Some(i as i64)
        } else {
            None
        },
        None => None,
    }
}

/// The size that a text spells.
pub open spec fn usize_of(s: Seq<char>) -> Option<usize> {
    if s.len() > 0 && s[0] == '-' {
        None
    } else {
        match int_of(s) {
            Some(i) => if 0 <= i <= usize::MAX {
                Some(i as usize)
            } else {
                None
            },
            None => None,
        }
    }
}

proof fn lemma_digits_grow(s: Seq<char>, n: int)
    requires
        0 <= n <= s.len(),
    ensures
        digits_value(s.take(n)) <= digits_value(s),
    decreases s.len(),
{
    if n < s.len() {
        lemma_digits_grow(s.drop_last(), n);
        assert(s.drop_last().take(n) =~= s.take(n));
    } else {
        assert(s.take(n) =~= s);
    }
}

/// The number that digits from a position on spell, up to a limit: beyond it the limit plus
/// one.
fn digits_from(c: &Vec<char>, from: usize) -> (r: Option<u128>)
    requires
        from <= c@.len(),
    ensures
        match r {
            Some(n) => {
                &&& nat_of(c@.skip(from as int)) is Some
                &&& n <= 0x1_0000_0000_0000_0000
                &&& n < 0x1_0000_0000_0000_0000 ==> n == nat_of(c@.skip(from as int))->Some_0
                &&& n == 0x1_0000_0000_0000_0000 ==> nat_of(c@.skip(from as int))->Some_0
                    >= 0x1_0000_0000_0000_0000
            },
            None => nat_of(c@.skip(from as int)) is None,
        },
{
    let ghost s = c@.skip(from as int);
    if from == c.len() {
        return None;
    }
    let mut n: u128 = 0;
    let mut i: usize = from;
    while i < c.len()
        invariant
            s == c@.skip(from as int),
            from <= i <= c@.len(),
            forall|j: int| 0 <= j < i - from ==> is_digit(#[trigger] s[j]),
            n <= 0x1_0000_0000_0000_0000,
            n < 0x1_0000_0000_0000_0000 ==> n == digits_value(s.take(i - from)),
            n == 0x1_0000_0000_0000_0000 ==> digits_value(s.take(i - from))
                >= 0x1_0000_0000_0000_0000,
        decreases c@.len() - i,
    {
        if !digit(c[i]) {
            assert(!is_digit(s[i - from]));
            return None;
        }
        assert(s.take(i + 1 - from).drop_last() =~= s.take(i - from));
        assert(s.take(i + 1 - from).last() == c@[i as int]);
        if n < 0x1_0000_0000_0000_0000 {
            n = 10 * n + (c[i] as u128 - 48);
            if n > 0x1_0000_0000_0000_0000 {
                n = 0x1_0000_0000_0000_0000;
            }
        }
        i = i + 1;
    }
    assert(s.take(i - from) =~= s);
    Some(n)
}

/// The 64-bit integer that characters spell.
pub fn chars_i64(c: &Vec<char>) -> (r: Option<i64>)
    ensures
        r == i64_of(c@),
{
    if c.len() == 0 {
        return None;
    }
    assert(c@.skip(1) =~= c@.drop_first());
    assert(c@.skip(0) =~= c@);
    let negative = c[0] == '-';
    let from: usize = if negative || c[0] == '+' {
        1
    } else {
        0
    };
    match digits_from(c, from) {
        None => None,
        Some(n) => {
            if negative {
                if n == 0x8000_0000_0000_0000 {
                    Some(i64::MIN)
                } else if n < 0x8000_0000_0000_0000 {
                    Some(-(n as i64))
                } else {
                    None
                }
            } else if n < 0x8000_0000_0000_0000 {
                Some(n as i64)
            } else {
                None
            }
        },
    }
}

/// The 64-bit integer that a text spells.
pub fn text_i64(s: &str) -> (r: Option<i64>)
    ensures
        r == i64_of(s@),
{
    chars_i64(&char_vec(s))
}

/// The size that a text spells.
pub fn text_usize(s: &str) -> (r: Option<usize>)
    ensures
        r == usize_of(s@),
{
    let c = char_vec(s);
    if c.len() == 0 {
        return None;
    }
    assert(c@.skip(1) =~= c@.drop_first());
    assert(c@.skip(0) =~= c@);
    if c[0] == '-' {
        return None;
    }
    let from: usize = if c[0] == '+' {
        1
    } else {
        0
    };
    match digits_from(&c, from) {
        None => None,
        Some(n) => {
            if n <= usize::MAX as u128 {
                Some(n as usize)
            } else {
                None
            }
        },
    }
}

// ---------------------------------------------------------------------------
// Searching

/// Whether a text stands in another at a position.
pub open spec fn occurs_at<T>(hay: Seq<T>, needle: Seq<T>, i: int) -> bool {
    0 <= i && i + needle.len() <= hay.len() && hay.subrange(i, i + needle.len()) == needle
}

/// The first position from one on at which a text stands in another.
pub open spec fn found_from<T>(hay: Seq<T>, needle: Seq<T>, i: int) -> Option<int>
    decreases hay.len() + 1 - i,
{
    if i < 0 || i + needle.len() > hay.len() {
        None
    } else if occurs_at(hay, needle, i) {
        Some(i)
    } else {
        found_from(hay, needle, i + 1)
    }
}

/// Whether characters stand at a position.
pub fn stands_at(hay: &Vec<char>, needle: &Vec<char>, i: usize) -> (r: bool)
    ensures
        r == occurs_at(hay@, needle@, i as int),
{
    let total: usize = hay.len();
    if i > total || needle.len() > total - i {
        return false;
    }
    let mut k: usize = 0;
    while k < needle.len()
        invariant
            k <= needle@.len(),
            i + needle@.len() <= hay@.len() <= usize::MAX,
            forall|j: int| 0 <= j < k ==> hay@[i + j] == needle@[j],
        decreases needle@.len() - k,
    {
        if hay[i + k] != needle[k] {
            assert(hay@.subrange(i as int, i + needle@.len())[k as int] != needle@[k as int]);
            return false;
        }
        k = k + 1;
    }
    assert(hay@.subrange(i as int, i + needle@.len()) =~= needle@);
    true
}

/// The first position from one on at which characters stand.
pub fn find_from(hay: &Vec<char>, needle: &Vec<char>, from: usize) -> (r: Option<usize>)
    ensures
        match r {
            Some(i) => found_from(hay@, needle@, from as int) == Some(i as int) && occurs_at(
                hay@,
                needle@,
                i as int,
            ) && from <= i,
            None => found_from(hay@, needle@, from as int) is None,
        },
{
    let total: usize = hay.len();
    if from > total || needle.len() > total - from {
        return None;
    }
    let last: usize = total - needle.len();
    let mut i: usize = from;
    while i <= last
        invariant
            hay@.len() == total,
            last == total - needle@.len(),
            from <= i <= last + 1,
            found_from(hay@, needle@, i as int) == found_from(hay@, needle@, from as int),
        decreases last + 1 - i,
    {
        if stands_at(hay, needle, i) {
            return Some(i);
        }
        if i == last {
            assert(found_from(hay@, needle@, i + 1) is None);
            return None;
        }
        i = i + 1;
    }
    None
}

/// The position of some bytes in others, counted from one; zero where they do not occur.
pub open spec fn blob_position(hay: Seq<u8>, needle: Seq<u8>) -> int {
    match found_from(hay, needle, 0) {
        Some(i) => i + 1,
        None => 0,
    }
}

/// The position of some bytes in others, counted from one; zero where they do not occur.
pub fn instr_blob(hay: &[u8], needle: &[u8]) -> (r: u128)
    ensures
        r == blob_position(hay@, needle@),
{
    let total: usize = hay.len();
    if needle.len() == 0 {
        assert(hay@.subrange(0, 0) =~= needle@);
        return 1;
    }
    if needle.len() > total {
        return 0;
    }
    let last: usize = total - needle.len();
    let mut i: usize = 0;
    while i <= last
        invariant
            hay@.len() == total,
            needle@.len() > 0,
            last == total - needle@.len(),
            i <= last + 1,
            found_from(hay@, needle@, i as int) == found_from(hay@, needle@, 0),
        decreases last + 1 - i,
    {
        let mut k: usize = 0;
        while k < needle.len() && hay[i + k] == needle[k]
            invariant
                k <= needle@.len(),
                i + needle@.len() <= hay@.len() <= usize::MAX,
                forall|j: int| 0 <= j < k ==> hay@[i + j] == needle@[j],
            decreases needle@.len() - k,
        {
            k = k + 1;
        }
        if k == needle.len() {
            assert(hay@.subrange(i as int, i + needle@.len()) =~= needle@);
            return i as u128 + 1;
        }
        assert(hay@.subrange(i as int, i + needle@.len())[k as int] != needle@[k as int]);
        i = i + 1;
    }
    0
}

/// A text with every occurrence of a pattern replaced, from the left, from a position on and
/// behind what is already written.
pub open spec fn replaced_from(
    s: Seq<char>,
    pattern: Seq<char>,
    by: Seq<char>,
    i: int,
    out: Seq<char>,
) -> Seq<char>
    decreases s.len() - i,
{
    if i < 0 || i >= s.len() || pattern.len() == 0 {
        out
    } else if occurs_at(s, pattern, i) {
        replaced_from(s, pattern, by, i + pattern.len(), out + by)
    } else {
        replaced_from(s, pattern, by, i + 1, out.push(s[i]))
    }
}

/// A text with every occurrence of a pattern replaced, from the left.
pub open spec fn replaced(s: Seq<char>, pattern: Seq<char>, by: Seq<char>) -> Seq<char> {
    replaced_from(s, pattern, by, 0, Seq::empty())
}

/// A text with every occurrence of a pattern replaced, from the left.
pub fn replace(s: &str, pattern: &str, by: &str) -> (r: String)
    requires
        pattern@.len() > 0,
    ensures
        r@ == replaced(s@, pattern@, by@),
{
    let c = char_vec(s);
    let p = char_vec(pattern);
    let mut out = String::new();
    let mut i: usize = 0;
    while i < c.len()
        invariant
            c@ == s@,
            p@ == pattern@,
            p@.len() > 0,
            i <= c@.len(),
            replaced_from(c@, p@, by@, i as int, out@) == replaced(s@, pattern@, by@),
        decreases c@.len() - i,
    {
        if stands_at(&c, &p, i) {
            out.append(by);
            i = i + p.len();
        } else {
            out.push(c[i]);
            i = i + 1;
        }
    }
    out
}

/// A text with one character written twice wherever it occurs.
pub open spec fn doubled(s: Seq<char>, q: char) -> Seq<char>
    decreases s.len(),
{
    if s.len() == 0 {
        Seq::empty()
    } else if s.last() == q {
        doubled(s.drop_last(), q).push(q).push(q)
    } else {
        doubled(s.drop_last(), q).push(s.last())
    }
}

/// A text with one character written twice wherever it occurs.
pub fn double_char(s: &str, q: char) -> (r: String)
    ensures
        r@ == doubled(s@, q),
{
    let c = char_vec(s);
    let mut r = String::new();
    let mut i: usize = 0;
    while i < c.len()
        invariant
            c@ == s@,
            i <= c@.len(),
            r@ == doubled(s@.take(i as int), q),
        decreases c@.len() - i,
    {
        assert(s@.take(i + 1).drop_last() =~= s@.take(i as int));
        if c[i] == q {
            r.push(q);
        }
        r.push(c[i]);
        i = i + 1;
    }
    assert(s@.take(i as int) =~= s@);
    r
}

/// A text in single quotes, with the quotes in it doubled.
pub open spec fn quoted(s: Seq<char>) -> Seq<char> {
    seq!['\''] + doubled(s, '\'') + seq!['\'']
}

/// A text in single quotes, with the quotes in it doubled.
pub fn quote_text(s: &str) -> (r: String)
    ensures
        r@ == quoted(s@),
{
    let mut r = String::new();
    r.push('\'');
    r.append(double_char(s, '\'').as_str());
    r.push('\'');
    assert(r@ =~= quoted(s@));
    r
}

/// The bytes of a text.
pub fn text_bytes(s: &str) -> (r: Vec<u8>)
    ensures
        r@ == encode_utf8(s@),
{
    let b = s.as_bytes();
    let r = crate::common::bytes::slice_vec(b, 0, b.len());
    assert(b@.subrange(0, b@.len() as int) =~= b@);
    r
}

/// The number of bytes of a text.
pub fn byte_len(s: &str) -> (r: usize)
    ensures
        r == encode_utf8(s@).len(),
{
    s.as_bytes().len()
}

// ---------------------------------------------------------------------------
// Parts

/// The part that `SUBSTR` takes of a run of items: where it begins and where it ends.
pub open spec fn substr_range(count: int, start: int, length: Option<int>) -> (int, int) {
    let first = if start > 0 {
        start - 1
    } else if start < 0 {
        count + start
    } else {
        0
    };
    let (begin, end) = match length {
        None => (clamped(first, count), count),
        Some(n) => if n >= 0 {
            (
                clamped(first, count),
                clamped(
                    first + if start == 0 {
                        n - 1
                    } else {
                        n
                    },
                    count,
                ),
            )
        } else {
            (clamped(first + n, count), clamped(first, count))
        },
    };
    if begin >= end {
        (0, 0)
    } else {
        (begin, end)
    }
}

/// A number moved into a range from zero on.
pub open spec fn clamped(n: int, high: int) -> int {
    if n < 0 {
        0
    } else if n > high {
        high
    } else {
        n
    }
}

/// The part that `SUBSTR` takes of a run of items.
pub fn substr_bounds(count: usize, start: i64, length: Option<i64>) -> (r: (usize, usize))
    ensures
        r.0 <= r.1 <= count,
        (r.0 as int, r.1 as int) == substr_range(
            count as int,
            start as int,
            match length {
                Some(n) => Some(n as int),
                None => None,
            },
        ),
{
    let len: i128 = count as i128;
    let start_index: i128 = if start > 0 {
        start as i128 - 1
    } else if start < 0 {
        len + start as i128
    } else {
        0
    };
    let begin: i128;
    let end: i128;
    match length {
        None => {
            begin = clamp(start_index, len);
            end = len;
        },
        Some(n) => {
            if n >= 0 {
                begin = clamp(start_index, len);
                end = clamp(
                    start_index + if start == 0 {
                        n as i128 - 1
                    } else {
                        n as i128
                    },
                    len,
                );
            } else {
                begin = clamp(start_index + n as i128, len);
                end = clamp(start_index, len);
            }
        },
    }
    if begin >= end {
        (0, 0)
    } else {
        (begin as usize, end as usize)
    }
}

fn clamp(n: i128, high: i128) -> (r: i128)
    ensures
        r == clamped(n as int, high as int),
{
    if n < 0 {
        0
    } else if n > high {
        high
    } else {
        n
    }
}

/// A text repeated.
pub open spec fn repeated(c: char, n: nat) -> Seq<char> {
    Seq::new(n, |i: int| c)
}

/// A text filled up from the left to a width.
pub open spec fn padded_left(s: Seq<char>, width: int, fill: char) -> Seq<char> {
    if s.len() >= width {
        s
    } else {
        repeated(fill, (width - s.len()) as nat) + s
    }
}

/// A text filled up from the right to a width.
pub open spec fn padded_right(s: Seq<char>, width: int, fill: char) -> Seq<char> {
    if s.len() >= width {
        s
    } else {
        s + repeated(fill, (width - s.len()) as nat)
    }
}

/// Writes a character some number of times.
pub fn push_repeated(out: &mut String, c: char, n: usize)
    ensures
        final(out)@ == old(out)@ + repeated(c, n as nat),
{
    let mut i: usize = 0;
    assert(out@ =~= old(out)@ + repeated(c, 0));
    while i < n
        invariant
            i <= n,
            out@ == old(out)@ + repeated(c, i as nat),
        decreases n - i,
    {
        out.push(c);
        i = i + 1;
        assert(out@ =~= old(out)@ + repeated(c, i as nat));
    }
}

/// A text filled up from the left to a width.
pub fn pad_left(s: &str, width: usize, fill: char) -> (r: String)
    ensures
        r@ == padded_left(s@, width as int, fill),
{
    let c = char_vec(s);
    let mut r = String::new();
    if c.len() < width {
        push_repeated(&mut r, fill, width - c.len());
    }
    r.append(s);
    assert(r@ =~= padded_left(s@, width as int, fill));
    r
}

/// A text filled up from the right to a width.
pub fn pad_right(s: &str, width: usize, fill: char) -> (r: String)
    ensures
        r@ == padded_right(s@, width as int, fill),
{
    let c = char_vec(s);
    let mut r = String::new();
    r.append(s);
    if c.len() < width {
        push_repeated(&mut r, fill, width - c.len());
    }
    assert(r@ =~= padded_right(s@, width as int, fill));
    r
}

} // verus!
