//! What the functions on texts, bytes and numbers give, in terms of what is in them.

use vstd::prelude::*;

use crate::common::schema::{ColumnType, Schema};
use crate::common::text::{digit_char, int_text, nat_text};
use crate::common::value::SqlValue;
use crate::sqlite3::expr::ScalarExpr;
use crate::sqlite3::expression_laws::answers;
use crate::sqlite3::functions::{applied, ScalarFunc};
use crate::sqlite3::operator_laws::gives;
use crate::sqlite3::quoting::{hex_number, unescaped, unescaped_from};
use crate::sqlite3::reals::{is_signed, magnitude_bits, Facts, StopView};
use crate::sqlite3::strings::{
    all_digits, before_nul, char_from, digits_value, doubled, found_from, hex_text, hex_value,
    i64_of, is_blank, is_digit, occurs_at, quoted, replaced, replaced_from, stripped_end,
    stripped_start,
};
use crate::sqlite3::text_functions::{
    char_of_code, chars_from, concat_from, part_of, part_of_value, parted_from, unhexed_from,
};
use crate::sqlite3::values::{digits_end, integer_prefix};

verus! {

/// Whether a text has no character with the number zero.
pub open spec fn nul_free(t: Seq<char>) -> bool {
    forall|k: int| 0 <= k < t.len() ==> #[trigger] t[k] != '\0'
}

proof fn lemma_char_from(s: Seq<char>, c: char, i: int, n: int)
    requires
        0 <= i <= n <= s.len(),
        forall|k: int| 0 <= k < n ==> #[trigger] s[k] != c,
        n < s.len() ==> s[n] == c,
    ensures
        char_from(s, c, i) == n,
    decreases n - i,
{
    if i < n {
        lemma_char_from(s, c, i + 1, n);
    }
}

pub proof fn lemma_nul_free(t: Seq<char>)
    requires
        nul_free(t),
    ensures
        before_nul(t) == t,
{
    lemma_char_from(t, '\0', 0, t.len() as int);
    assert(t.take(t.len() as int) =~= t);
}

// ---------------------------------------------------------------------------
// Lengths and letters

/// A text is as long as it has characters before the first with the number zero; bytes are as
/// long as there are of them; what is nothing has no length.
pub proof fn law_lengths_are_counted(
    f: Facts,
    t: Seq<char>,
    n: int,
    b: Seq<u8>,
    cased: bool,
)
    requires
        0 <= n <= t.len(),
        forall|k: int| 0 <= k < n ==> #[trigger] t[k] != '\0',
        n < t.len() ==> t[n] == '\0',
        n <= i64::MAX,
        b.len() <= i64::MAX,
    ensures
        answers(f, ScalarFunc::Length, seq![SqlValue::Text(t)], cased, SqlValue::Integer(n as i64)),
        answers(
            f,
            ScalarFunc::Length,
            seq![SqlValue::Blob(b)],
            cased,
            SqlValue::Integer(b.len() as i64),
        ),
        answers(
            f,
            ScalarFunc::OctetLength,
            seq![SqlValue::Blob(b)],
            cased,
            SqlValue::Integer(b.len() as i64),
        ),
        answers(f, ScalarFunc::Length, seq![SqlValue::Null], cased, SqlValue::Null),
        answers(f, ScalarFunc::OctetLength, seq![SqlValue::Null], cased, SqlValue::Null),
{
    lemma_char_from(t, '\0', 0, n);
}

/// Whether a text has the letters of another, turned from the letters of one alphabet into those
/// of another, and otherwise its characters.
pub open spec fn letters_turned(t: Seq<char>, r: Seq<char>, from: char, to: char) -> bool {
    &&& r.len() == t.len()
    &&& forall|k: int|
        0 <= k < t.len() ==> #[trigger] r[k] as int == t[k] as int + if from as int <= t[k] as int
            && (t[k] as int) < from as int + 26 {
            to as int - from as int
        } else {
            0
        }
}

/// A text in capitals has a capital for each small letter of the alphabet, a text in small letters
/// the reverse, and both have all other characters as they were.
pub proof fn law_letters_are_turned(f: Facts, t: Seq<char>, r: Seq<char>, cased: bool)
    ensures
        answers(f, ScalarFunc::Upper, seq![SqlValue::Text(t)], cased, SqlValue::Text(r))
            <==> letters_turned(t, r, 'a', 'A'),
        answers(f, ScalarFunc::Lower, seq![SqlValue::Text(t)], cased, SqlValue::Text(r))
            <==> letters_turned(t, r, 'A', 'a'),
        answers(f, ScalarFunc::Upper, seq![SqlValue::Null], cased, SqlValue::Null),
        answers(f, ScalarFunc::Lower, seq![SqlValue::Null], cased, SqlValue::Null),
{
    let up = crate::sqlite3::strings::uppered(t);
    let down = crate::sqlite3::strings::lowered(t);
    assert(seq![SqlValue::Text(t)][0] == SqlValue::Text(t));
    assert(letters_turned(t, up, 'a', 'A'));
    assert(letters_turned(t, down, 'A', 'a'));
    if letters_turned(t, r, 'a', 'A') {
        assert(r =~= up) by {
            assert forall|k: int| 0 <= k < t.len() implies r[k] == up[k] by {
                assert(r[k] as int == up[k] as int);
            }
        }
    }
    if letters_turned(t, r, 'A', 'a') {
        assert(r =~= down) by {
            assert forall|k: int| 0 <= k < t.len() implies r[k] == down[k] by {
                assert(r[k] as int == down[k] as int);
            }
        }
    }
}

// ---------------------------------------------------------------------------
// Parts of a text

proof fn lemma_substr(f: Facts, v: SqlValue, start: i64, n: i64, cased: bool)
    requires
        !(v is Null),
    ensures
        applied(
            f,
            ScalarFunc::Substr,
            seq![v, SqlValue::Integer(start), SqlValue::Integer(n)],
            cased,
        ) == part_of_value(f, v, start, Some(n)),
        applied(f, ScalarFunc::Substr, seq![v, SqlValue::Integer(start)], cased) == part_of_value(
            f,
            v,
            start,
            None,
        ),
{
    let args = seq![v, SqlValue::Integer(start), SqlValue::Integer(n)];
    assert(args.len() == 3 && args[0] == v && args[1] == SqlValue::Integer(start) && args[2]
        == SqlValue::Integer(n));
    let two = seq![v, SqlValue::Integer(start)];
    assert(two.len() == 2 && two[0] == v && two[1] == SqlValue::Integer(start));
}

/// A part of a text is where it is said to be: counted from the start or from the end, for as many
/// characters as are asked for, and for a negative number of them before the place. A part of
/// bytes is found in the same way.
pub proof fn law_parts_are_where_they_are_said_to_be(
    f: Facts,
    t: Seq<char>,
    b: Seq<u8>,
    i: int,
    j: int,
    cased: bool,
)
    requires
        nul_free(t),
        0 <= i <= j <= t.len(),
        b.len() == t.len(),
        t.len() < i64::MAX,
    ensures
        ({
            let v = SqlValue::Text(t);
            let w = SqlValue::Blob(b);
            let part = SqlValue::Text(t.subrange(i, j));
            let bytes = SqlValue::Blob(b.subrange(i, j));
            let n = SqlValue::Integer((j - i) as i64);
            let back = SqlValue::Integer((i - j) as i64);
            &&& answers(
                f,
                ScalarFunc::Substr,
                seq![v, SqlValue::Integer((i + 1) as i64), n],
                cased,
                part,
            )
            &&& answers(
                f,
                ScalarFunc::Substr,
                seq![w, SqlValue::Integer((i + 1) as i64), n],
                cased,
                bytes,
            )
            &&& answers(
                f,
                ScalarFunc::Substr,
                seq![v, SqlValue::Integer((i + 1) as i64)],
                cased,
                SqlValue::Text(t.skip(i)),
            )
            &&& i < t.len() ==> answers(
                f,
                ScalarFunc::Substr,
                seq![v, SqlValue::Integer((i - t.len()) as i64), n],
                cased,
                part,
            )
            &&& i < t.len() ==> answers(
                f,
                ScalarFunc::Substr,
                seq![v, SqlValue::Integer((i - t.len()) as i64)],
                cased,
                SqlValue::Text(t.skip(i)),
            )
            &&& i < j ==> answers(
                f,
                ScalarFunc::Substr,
                seq![v, SqlValue::Integer((j + 1) as i64), back],
                cased,
                part,
            )
            &&& answers(
                f,
                ScalarFunc::Substr,
                seq![SqlValue::Null, SqlValue::Integer(1)],
                cased,
                SqlValue::Null,
            )
        }),
{
    lemma_nul_free(t);
    let v = SqlValue::Text(t);
    let w = SqlValue::Blob(b);
    let n = (j - i) as i64;
    lemma_substr(f, v, (i + 1) as i64, n, cased);
    lemma_substr(f, w, (i + 1) as i64, n, cased);
    lemma_substr(f, v, (i - t.len()) as i64, n, cased);
    lemma_substr(f, v, (j + 1) as i64, (i - j) as i64, cased);
    if i == j {
        assert(t.subrange(i, j) =~= t.subrange(0, 0));
        assert(b.subrange(i, j) =~= b.subrange(0, 0));
    }
    assert(t.skip(i) =~= t.subrange(i, t.len() as int));
    if i == t.len() {
        assert(t.skip(i) =~= t.subrange(0, 0));
    }
    assert(part_of(t, (i + 1) as i64, Some(n)) == t.subrange(i, j));
    assert(part_of(b, (i + 1) as i64, Some(n)) == b.subrange(i, j));
    assert(part_of(t, (i + 1) as i64, None) == t.skip(i));
    if i < t.len() {
        assert(part_of(t, (i - t.len()) as i64, Some(n)) == t.subrange(i, j));
        assert(part_of(t, (i - t.len()) as i64, None) == t.skip(i));
    }
    if i < j {
        assert(part_of(t, (j + 1) as i64, Some((i - j) as i64)) == t.subrange(i, j));
    }
    lemma_substr_of_nothing(f, cased);
}

proof fn lemma_substr_of_nothing(f: Facts, cased: bool)
    ensures
        answers(
            f,
            ScalarFunc::Substr,
            seq![SqlValue::Null, SqlValue::Integer(1)],
            cased,
            SqlValue::Null,
        ),
{
}

proof fn lemma_found_from<T>(hay: Seq<T>, needle: Seq<T>, i: int)
    requires
        0 <= i,
    ensures
        match found_from(hay, needle, i) {
            Some(k) => i <= k && occurs_at(hay, needle, k) && forall|j: int|
                i <= j < k ==> !#[trigger] occurs_at(hay, needle, j),
            None => forall|j: int| i <= j ==> !#[trigger] occurs_at(hay, needle, j),
        },
    decreases hay.len() + 1 - i,
{
    if i + needle.len() <= hay.len() && !occurs_at(hay, needle, i) {
        lemma_found_from(hay, needle, i + 1);
    }
}

/// Whether a text stands in another at a place, and before it in none.
pub open spec fn first_at<T>(hay: Seq<T>, needle: Seq<T>, k: int) -> bool {
    &&& 0 <= k <= hay.len() - needle.len()
    &&& hay.subrange(k, k + needle.len()) == needle
    &&& forall|j: int| 0 <= j < k ==> #[trigger] hay.subrange(j, j + needle.len()) != needle
}

/// Looking for a text in another finds the first place where it stands, counted from one, and
/// zero where it stands in none. Bytes are looked for in the same way.
pub proof fn law_the_first_place_is_found(
    f: Facts,
    hay: Seq<char>,
    needle: Seq<char>,
    bytes: Seq<u8>,
    few: Seq<u8>,
    k: int,
    cased: bool,
)
    requires
        hay.len() < i64::MAX,
        bytes.len() < i64::MAX,
    ensures
        first_at(hay, needle, k) ==> answers(
            f,
            ScalarFunc::Instr,
            seq![SqlValue::Text(hay), SqlValue::Text(needle)],
            cased,
            SqlValue::Integer((k + 1) as i64),
        ),
        (forall|j: int| !#[trigger] first_at(hay, needle, j)) ==> answers(
            f,
            ScalarFunc::Instr,
            seq![SqlValue::Text(hay), SqlValue::Text(needle)],
            cased,
            SqlValue::Integer(0),
        ),
        first_at(bytes, few, k) ==> answers(
            f,
            ScalarFunc::Instr,
            seq![SqlValue::Blob(bytes), SqlValue::Blob(few)],
            cased,
            SqlValue::Integer((k + 1) as i64),
        ),
        (forall|j: int| !#[trigger] first_at(bytes, few, j)) ==> answers(
            f,
            ScalarFunc::Instr,
            seq![SqlValue::Blob(bytes), SqlValue::Blob(few)],
            cased,
            SqlValue::Integer(0),
        ),
{
    lemma_first_at(hay, needle, k);
    lemma_first_at(bytes, few, k);
    match found_from(hay, needle, 0) {
        Some(n) => {
            lemma_first_at(hay, needle, n);
        },
        None => {},
    }
    match found_from(bytes, few, 0) {
        Some(n) => {
            lemma_first_at(bytes, few, n);
        },
        None => {},
    }
}

proof fn lemma_first_at<T>(hay: Seq<T>, needle: Seq<T>, k: int)
    ensures
        first_at(hay, needle, k) <==> found_from(hay, needle, 0) == Some(k),
{
    lemma_found_from(hay, needle, 0);
    match found_from(hay, needle, 0) {
        Some(n) => {
            assert forall|j: int| 0 <= j < n implies #[trigger] hay.subrange(j, j + needle.len())
                != needle by {
                assert(!occurs_at(hay, needle, j));
            }
            assert(first_at(hay, needle, n));
            if first_at(hay, needle, k) {
                if k < n {
                    assert(!occurs_at(hay, needle, k));
                }
                if n < k {
                    assert(hay.subrange(n, n + needle.len()) == needle);
                }
            }
        },
        None => {
            if first_at(hay, needle, k) {
                assert(!occurs_at(hay, needle, k));
            }
        },
    }
}

proof fn lemma_replaced_from(
    s: Seq<char>,
    pattern: Seq<char>,
    by: Seq<char>,
    i: int,
    out: Seq<char>,
)
    requires
        0 <= i <= s.len(),
        pattern.len() > 0,
    ensures
        replaced_from(s, pattern, by, i, out) == out + replaced(s.skip(i), pattern, by),
    decreases s.len() - i,
{
    let rest = s.skip(i);
    if i < s.len() {
        assert(occurs_at(s, pattern, i) == occurs_at(rest, pattern, 0)) by {
            if i + pattern.len() <= s.len() {
                assert(s.subrange(i, i + pattern.len()) =~= rest.subrange(
                    0,
                    pattern.len() as int,
                ));
            }
        }
        if occurs_at(s, pattern, i) {
            let n = pattern.len() as int;
            lemma_replaced_from(s, pattern, by, i + n, out + by);
            assert(rest.skip(n) =~= s.skip(i + n));
            if i > 0 {
                lemma_replaced_from(rest, pattern, by, n, by);
            } else {
                assert(rest =~= s);
                lemma_replaced_from(s, pattern, by, i + n, by);
            }
            assert(Seq::<char>::empty() + by =~= by);
            assert(out + (by + replaced(s.skip(i + n), pattern, by)) =~= (out + by) + replaced(
                s.skip(i + n),
                pattern,
                by,
            ));
        } else {
            lemma_replaced_from(s, pattern, by, i + 1, out.push(s[i]));
            assert(rest.skip(1) =~= s.skip(i + 1));
            let one = Seq::<char>::empty().push(s[i]);
            if i > 0 {
                lemma_replaced_from(rest, pattern, by, 1, one);
            } else {
                assert(rest =~= s);
                lemma_replaced_from(s, pattern, by, 1, one);
            }
            assert(out + (one + replaced(s.skip(i + 1), pattern, by)) =~= out.push(s[i]) + replaced(
                s.skip(i + 1),
                pattern,
                by,
            ));
        }
    } else {
        assert(rest.len() == 0);
        assert(out + Seq::<char>::empty() =~= out);
    }
}

proof fn lemma_replaced_up_to(s: Seq<char>, pattern: Seq<char>, by: Seq<char>, k: int)
    requires
        0 <= k <= s.len(),
        pattern.len() > 0,
        forall|j: int| 0 <= j < k ==> !#[trigger] occurs_at(s, pattern, j),
    ensures
        replaced(s, pattern, by) == replaced_from(s, pattern, by, k, s.take(k)),
    decreases k,
{
    if k > 0 {
        lemma_replaced_up_to(s, pattern, by, k - 1);
        assert(!occurs_at(s, pattern, k - 1));
        assert(s.take(k - 1).push(s[k - 1]) =~= s.take(k));
    } else {
        assert(s.take(0) =~= Seq::<char>::empty());
    }
}

/// Replacing a text in another leaves what stands before the first place of it, puts the other
/// text there, and goes on behind it. A text that does not stand in the other is not replaced,
/// and neither is the empty text.
pub proof fn law_texts_are_replaced_where_they_stand(
    f: Facts,
    t: Seq<char>,
    pattern: Seq<char>,
    by: Seq<char>,
    k: int,
    r: Seq<char>,
    cased: bool,
)
    requires
        nul_free(t),
    ensures
        ({
            let (p, q) = (SqlValue::Text(pattern), SqlValue::Text(by));
            let args = seq![SqlValue::Text(t), p, q];
            &&& pattern.len() > 0 && first_at(t, pattern, k) && answers(
                f,
                ScalarFunc::Replace,
                seq![SqlValue::Text(t.skip(k + pattern.len())), p, q],
                cased,
                SqlValue::Text(r),
            ) ==> answers(
                f,
                ScalarFunc::Replace,
                args,
                cased,
                SqlValue::Text(t.take(k) + by + r),
            )
            &&& pattern.len() == 0 || (forall|j: int| !#[trigger] first_at(t, pattern, j))
                ==> answers(f, ScalarFunc::Replace, args, cased, SqlValue::Text(t))
        }),
{
    lemma_nul_free(t);
    if pattern.len() > 0 {
        lemma_first_at(t, pattern, k);
        lemma_found_from(t, pattern, 0);
        if first_at(t, pattern, k) {
            let n = pattern.len() as int;
            let rest = t.skip(k + n);
            lemma_nul_free(rest);
            lemma_replaced_up_to(t, pattern, by, k);
            lemma_replaced_from(t, pattern, by, k + n, t.take(k) + by);
            assert(seq![
                SqlValue::Text(rest),
                SqlValue::Text(pattern),
                SqlValue::Text(by),
            ][0] == SqlValue::Text(rest));
        }
        if forall|j: int| !#[trigger] first_at(t, pattern, j) {
            match found_from(t, pattern, 0) {
                Some(n) => {
                    lemma_first_at(t, pattern, n);
                },
                None => {},
            }
            lemma_replaced_up_to(t, pattern, by, t.len() as int);
            assert(t.take(t.len() as int) =~= t);
        }
    }
}

proof fn lemma_stripped_start(s: Seq<char>, set: Seq<char>) -> (i: int)
    ensures
        0 <= i <= s.len(),
        stripped_start(s, set) == s.skip(i),
        forall|k: int| 0 <= k < i ==> set.contains(#[trigger] s[k]),
        i < s.len() ==> !set.contains(s[i]),
    decreases s.len(),
{
    if s.len() > 0 && set.contains(s[0]) {
        let i = lemma_stripped_start(s.drop_first(), set);
        assert(s.drop_first().skip(i) =~= s.skip(i + 1));
        assert forall|k: int| 0 <= k < i + 1 implies set.contains(#[trigger] s[k]) by {
            if k > 0 {
                assert(s.drop_first()[k - 1] == s[k]);
            }
        }
        i + 1
    } else {
        assert(s.skip(0) =~= s);
        0
    }
}

proof fn lemma_stripped_end(s: Seq<char>, set: Seq<char>) -> (j: int)
    ensures
        0 <= j <= s.len(),
        stripped_end(s, set) == s.take(j),
        forall|k: int| j <= k < s.len() ==> set.contains(#[trigger] s[k]),
        j > 0 ==> !set.contains(s[j - 1]),
    decreases s.len(),
{
    if s.len() > 0 && set.contains(s.last()) {
        let j = lemma_stripped_end(s.drop_last(), set);
        assert(s.drop_last().take(j) =~= s.take(j));
        assert forall|k: int| j <= k < s.len() implies set.contains(#[trigger] s[k]) by {
            if k < s.len() - 1 {
                assert(s.drop_last()[k] == s[k]);
            }
        }
        j
    } else {
        assert(s.take(s.len() as int) =~= s);
        s.len() as int
    }
}

/// Whether a part of a text is what is left of it without the characters of a set at its start or
/// its end: nothing but such characters is left out, and none of them is left there.
pub open spec fn left_of(
    t: Seq<char>,
    set: Seq<char>,
    r: Seq<char>,
    i: int,
    at_start: bool,
    at_end: bool,
) -> bool {
    let j = i + r.len();
    &&& 0 <= i <= j <= t.len()
    &&& r == t.subrange(i, j)
    &&& if at_start {
        &&& forall|k: int| 0 <= k < i ==> set.contains(#[trigger] t[k])
        &&& r.len() > 0 ==> !set.contains(t[i])
    } else {
        i == 0
    }
    &&& if at_end {
        &&& forall|k: int| j <= k < t.len() ==> set.contains(#[trigger] t[k])
        &&& r.len() > 0 ==> !set.contains(t[j - 1])
    } else {
        j == t.len()
    }
}

proof fn lemma_trim(f: Facts, t: Seq<char>, set: Seq<char>, cased: bool)
    ensures
        ({
            let args = seq![SqlValue::Text(t), SqlValue::Text(set)];
            let both = SqlValue::Text(stripped_end(stripped_start(t, set), set));
            &&& answers(f, ScalarFunc::Trim, args, cased, both)
            &&& answers(
                f,
                ScalarFunc::LTrim,
                args,
                cased,
                SqlValue::Text(stripped_start(t, set)),
            )
            &&& answers(f, ScalarFunc::RTrim, args, cased, SqlValue::Text(stripped_end(t, set)))
        }),
        set == seq![' '] ==> {
            let args = seq![SqlValue::Text(t)];
            let both = SqlValue::Text(stripped_end(stripped_start(t, set), set));
            &&& answers(f, ScalarFunc::Trim, args, cased, both)
            &&& answers(
                f,
                ScalarFunc::LTrim,
                args,
                cased,
                SqlValue::Text(stripped_start(t, set)),
            )
            &&& answers(f, ScalarFunc::RTrim, args, cased, SqlValue::Text(stripped_end(t, set)))
        },
{
    reveal_strlit(" ");
    assert(" "@ =~= seq![' ']);
    let args = seq![SqlValue::Text(t), SqlValue::Text(set)];
    assert(args.len() == 2 && args[0] == SqlValue::Text(t) && args[1] == SqlValue::Text(set));
    let one = seq![SqlValue::Text(t)];
    assert(one.len() == 1 && one[0] == SqlValue::Text(t));
}

/// Trimming a text leaves out the characters of a set at its start, at its end or at both, and no
/// others; where no set is given, it is that of the space.
pub proof fn law_only_outer_characters_are_trimmed(
    f: Facts,
    t: Seq<char>,
    set: Seq<char>,
    cased: bool,
) -> (r: (Seq<char>, Seq<char>, Seq<char>))
    ensures
        ({
            let args = seq![SqlValue::Text(t), SqlValue::Text(set)];
            &&& answers(f, ScalarFunc::Trim, args, cased, SqlValue::Text(r.0))
            &&& exists|i: int| #[trigger] left_of(t, set, r.0, i, true, true)
            &&& answers(f, ScalarFunc::LTrim, args, cased, SqlValue::Text(r.1))
            &&& exists|i: int| #[trigger] left_of(t, set, r.1, i, true, false)
            &&& answers(f, ScalarFunc::RTrim, args, cased, SqlValue::Text(r.2))
            &&& exists|i: int| #[trigger] left_of(t, set, r.2, i, false, true)
        }),
        set == seq![' '] ==> {
            &&& answers(f, ScalarFunc::Trim, seq![SqlValue::Text(t)], cased, SqlValue::Text(r.0))
            &&& answers(f, ScalarFunc::LTrim, seq![SqlValue::Text(t)], cased, SqlValue::Text(r.1))
            &&& answers(f, ScalarFunc::RTrim, seq![SqlValue::Text(t)], cased, SqlValue::Text(r.2))
        },
{
    lemma_trim(f, t, set, cased);
    let i = lemma_stripped_start(t, set);
    let rest = t.skip(i);
    let j = lemma_stripped_end(rest, set);
    let n = lemma_stripped_end(t, set);
    let both = rest.take(j);
    assert(both =~= t.subrange(i, i + j));
    assert forall|k: int| i + j <= k < t.len() implies set.contains(#[trigger] t[k]) by {
        assert(rest[k - i] == t[k]);
    }
    if j > 0 {
        assert(rest[j - 1] == t[i + j - 1]);
        assert(!set.contains(t[i]));
    }
    assert(left_of(t, set, both, i, true, true));
    assert(rest =~= t.subrange(i, t.len() as int));
    assert(left_of(t, set, rest, i, true, false));
    assert(t.take(n) =~= t.subrange(0, n));
    assert(left_of(t, set, t.take(n), 0, false, true));
    (both, rest, t.take(n))
}

// ---------------------------------------------------------------------------
// Texts put together

proof fn lemma_concat_more(f: Facts, args: Seq<SqlValue>, v: SqlValue, i: int, out: Seq<char>)
    requires
        0 <= i <= args.len(),
        v is Null || v is Text,
    ensures
        concat_from(f, args, i, out) matches Ok(SqlValue::Text(r)) ==> concat_from(
            f,
            args.push(v),
            i,
            out,
        ) == Ok::<_, StopView>(
            SqlValue::Text(
                if v is Text {
                    r + v->Text_0
                } else {
                    r
                },
            ),
        ),
    decreases args.len() - i,
{
    let more = args.push(v);
    if i < args.len() {
        assert(more[i] == args[i]);
        if args[i] is Null {
            lemma_concat_more(f, args, v, i + 1, out);
        } else {
            match crate::sqlite3::values::value_text(f, args[i]) {
                Ok(t) => {
                    lemma_concat_more(f, args, v, i + 1, out + t);
                },
                Err(_) => {},
            }
        }
    } else {
        assert(more[i] == v);
        if v is Text {
            assert(concat_from(f, more, i + 1, out + v->Text_0) == Ok::<_, StopView>(
                SqlValue::Text(out + v->Text_0),
            ));
        } else {
            assert(concat_from(f, more, i + 1, out) == Ok::<_, StopView>(SqlValue::Text(out)));
        }
    }
}

/// Texts are put together in their order, and what is nothing is left out: one more text stands
/// behind the others.
pub proof fn law_one_more_text_stands_behind_the_others(
    f: Facts,
    args: Seq<SqlValue>,
    t: Seq<char>,
    r: Seq<char>,
    cased: bool,
)
    requires
        args.len() >= 1,
        answers(f, ScalarFunc::Concat, args, cased, SqlValue::Text(r)),
    ensures
        answers(
            f,
            ScalarFunc::Concat,
            args.push(SqlValue::Text(t)),
            cased,
            SqlValue::Text(r + t),
        ),
        answers(f, ScalarFunc::Concat, args.push(SqlValue::Null), cased, SqlValue::Text(r)),
        answers(f, ScalarFunc::Concat, seq![SqlValue::Text(t)], cased, SqlValue::Text(t)),
{
    lemma_concat_more(f, args, SqlValue::Text(t), 0, Seq::empty());
    lemma_concat_more(f, args, SqlValue::Null, 0, Seq::empty());
    let one = seq![SqlValue::Text(t)];
    assert(Seq::<char>::empty() + t =~= t);
    assert(concat_from(f, one, 1, t) == Ok::<_, StopView>(SqlValue::Text(t)));
}

/// Texts are parted by a separator: three of them by two, and what is nothing by none.
pub proof fn law_texts_are_parted_by_separators(
    f: Facts,
    separator: Seq<char>,
    a: Seq<char>,
    b: Seq<char>,
    c: Seq<char>,
    cased: bool,
)
    ensures
        answers(
            f,
            ScalarFunc::ConcatWs,
            seq![
                SqlValue::Text(separator),
                SqlValue::Text(a),
                SqlValue::Text(b),
                SqlValue::Text(c),
            ],
            cased,
            SqlValue::Text(a + separator + b + separator + c),
        ),
        answers(
            f,
            ScalarFunc::ConcatWs,
            seq![SqlValue::Text(separator), SqlValue::Null, SqlValue::Text(b), SqlValue::Null],
            cased,
            SqlValue::Text(b),
        ),
        answers(
            f,
            ScalarFunc::ConcatWs,
            seq![SqlValue::Null, SqlValue::Text(b)],
            cased,
            SqlValue::Null,
        ),
{
    reveal_with_fuel(parted_from, 5);
    assert(Seq::<char>::empty() + a =~= a);
    assert(Seq::<char>::empty() + b =~= b);
}

// ---------------------------------------------------------------------------
// Characters and bytes as numbers

/// The number of a character gives the character back, and the other way round.
pub proof fn law_characters_have_their_numbers(f: Facts, c: char, rest: Seq<char>, cased: bool)
    requires
        c != '\0',
    ensures
        answers(
            f,
            ScalarFunc::Unicode,
            seq![SqlValue::Text(seq![c] + rest)],
            cased,
            SqlValue::Integer((c as u32) as i64),
        ),
        answers(
            f,
            ScalarFunc::Char,
            seq![SqlValue::Integer((c as u32) as i64)],
            cased,
            SqlValue::Text(seq![c]),
        ),
{
    let t = seq![c] + rest;
    assert(t[0] == c);
    lemma_char_from_grows(t, '\0', 1);
    assert(char_from(t, '\0', 0) == char_from(t, '\0', 1));
    assert(before_nul(t)[0] == c);
    assert(seq![SqlValue::Text(t)][0] == SqlValue::Text(t));
    lemma_char_given(f, c, cased);
}

proof fn lemma_char_given(f: Facts, c: char, cased: bool)
    ensures
        answers(
            f,
            ScalarFunc::Char,
            seq![SqlValue::Integer((c as u32) as i64)],
            cased,
            SqlValue::Text(seq![c]),
        ),
{
    let code = (c as u32) as i64;
    let one = seq![SqlValue::Integer(code)];
    let none = Seq::<char>::empty();
    assert(one.len() == 1 && one[0] == SqlValue::Integer(code));
    assert(char_of_code(code) == c);
    assert(none.push(c) =~= seq![c]);
    assert(chars_from(f, one, 1, seq![c]) == Ok::<_, StopView>(SqlValue::Text(seq![c])));
    assert(chars_from(f, one, 0, none) == Ok::<_, StopView>(SqlValue::Text(seq![c])));
}

proof fn lemma_char_from_grows(s: Seq<char>, c: char, i: int)
    requires
        0 <= i <= s.len(),
    ensures
        i <= char_from(s, c, i) <= s.len(),
    decreases s.len() - i,
{
    if i < s.len() && s[i] != c {
        lemma_char_from_grows(s, c, i + 1);
    }
}

/// The digits of bytes: two for each byte, in capitals, the one of the sixteens first.
pub proof fn law_bytes_are_shown_by_two_digits_each(f: Facts, b: Seq<u8>, cased: bool, k: int)
    requires
        0 <= k < b.len(),
    ensures
        answers(f, ScalarFunc::Hex, seq![SqlValue::Blob(b)], cased, SqlValue::Text(hex_text(b))),
        hex_text(b).len() == 2 * b.len(),
        hex_value(hex_text(b)[2 * k]) is Some,
        hex_value(hex_text(b)[2 * k + 1]) is Some,
        16 * hex_value(hex_text(b)[2 * k])->Some_0 + hex_value(hex_text(b)[2 * k + 1])->Some_0
            == b[k],
        !('a' <= hex_text(b)[2 * k] <= 'z'),
        !('a' <= hex_text(b)[2 * k + 1] <= 'z'),
{
    lemma_two_digits(b, k);
}

proof fn lemma_two_digits(b: Seq<u8>, k: int)
    requires
        0 <= k < b.len(),
    ensures
        hex_text(b).len() == 2 * b.len(),
        hex_value(hex_text(b)[2 * k]) is Some,
        hex_value(hex_text(b)[2 * k + 1]) is Some,
        16 * hex_value(hex_text(b)[2 * k])->Some_0 + hex_value(hex_text(b)[2 * k + 1])->Some_0
            == b[k],
        !('a' <= hex_text(b)[2 * k] <= 'z'),
        !('a' <= hex_text(b)[2 * k + 1] <= 'z'),
{
    assert((2 * k) / 2 == k && (2 * k) % 2 == 0);
    assert((2 * k + 1) / 2 == k && (2 * k + 1) % 2 == 1);
}

proof fn lemma_unhexed_from(b: Seq<u8>, k: int)
    requires
        0 <= k <= b.len(),
    ensures
        unhexed_from(hex_text(b), 2 * k, b.take(k)) == Some(b),
    decreases b.len() - k,
{
    if k < b.len() {
        lemma_two_digits(b, k);
        lemma_unhexed_from(b, k + 1);
        assert(b.take(k).push(b[k]) =~= b.take(k + 1));
        assert(2 * k + 2 == 2 * (k + 1));
    } else {
        assert(b.take(k) =~= b);
    }
}

/// The digits of bytes give the bytes back.
pub proof fn law_digits_give_the_bytes_back(f: Facts, b: Seq<u8>, t: SqlValue, cased: bool)
    requires
        answers(f, ScalarFunc::Hex, seq![SqlValue::Blob(b)], cased, t),
    ensures
        answers(f, ScalarFunc::Unhex, seq![t], cased, SqlValue::Blob(b)),
{
    lemma_unhexed_from(b, 0);
    assert(b.take(0) =~= Seq::<u8>::empty());
}

// ---------------------------------------------------------------------------
// Numbers

/// The size of an integer is the integer or its opposite, and not negative; its sign says on which
/// side of zero it is. Rounding an integer leaves it as it is.
pub proof fn law_sizes_and_signs(f: Facts, i: i64, cased: bool)
    ensures
        ({
            let args = seq![SqlValue::Integer(i)];
            &&& i >= 0 ==> answers(f, ScalarFunc::Abs, args, cased, SqlValue::Integer(i))
            &&& i64::MIN < i < 0 ==> answers(
                f,
                ScalarFunc::Abs,
                args,
                cased,
                SqlValue::Integer((0 - i) as i64),
            )
            &&& i > 0 ==> answers(f, ScalarFunc::Sign, args, cased, SqlValue::Integer(1))
            &&& i == 0 ==> answers(f, ScalarFunc::Sign, args, cased, SqlValue::Integer(0))
            &&& i < 0 ==> answers(f, ScalarFunc::Sign, args, cased, SqlValue::Integer((0 - 1) as i64))
            &&& answers(f, ScalarFunc::Floor, args, cased, SqlValue::Integer(i))
            &&& answers(f, ScalarFunc::Ceil, args, cased, SqlValue::Integer(i))
            &&& answers(f, ScalarFunc::Ceiling, args, cased, SqlValue::Integer(i))
            &&& answers(f, ScalarFunc::Trunc, args, cased, SqlValue::Integer(i))
        }),
        answers(f, ScalarFunc::Abs, seq![SqlValue::Null], cased, SqlValue::Null),
        answers(f, ScalarFunc::Sign, seq![SqlValue::Null], cased, SqlValue::Null),
        answers(f, ScalarFunc::Round, seq![SqlValue::Null], cased, SqlValue::Null),
{
}

/// The size of a real has its digits and no sign.
pub proof fn law_sizes_of_reals(f: Facts, bits: u64, cased: bool)
    ensures
        exists|r: u64|
            {
                &&& #[trigger] answers(
                    f,
                    ScalarFunc::Abs,
                    seq![SqlValue::Real(bits)],
                    cased,
                    SqlValue::Real(r),
                )
                &&& !is_signed(r)
                &&& magnitude_bits(r) == magnitude_bits(bits)
            },
{
    let r = crate::sqlite3::reals::real_abs(bits);
    assert(answers(f, ScalarFunc::Abs, seq![SqlValue::Real(bits)], cased, SqlValue::Real(r)));
}

/// As many zeros as are asked for.
pub proof fn law_zeros_are_counted(f: Facts, i: i64, cased: bool, b: Seq<u8>)
    requires
        i <= usize::MAX,
        b.len() == if i < 0 {
            0
        } else {
            i as int
        },
        forall|k: int| 0 <= k < b.len() ==> #[trigger] b[k] == 0,
    ensures
        answers(f, ScalarFunc::ZeroBlob, seq![SqlValue::Integer(i)], cased, SqlValue::Blob(b)),
{
    let size = crate::sqlite3::number_functions::blob_size(i);
    assert(b =~= Seq::new(size, |k: int| 0u8));
}

pub proof fn lemma_nat_text(n: nat)
    ensures
        nat_text(n).len() > 0,
        all_digits(nat_text(n)),
        digits_value(nat_text(n)) == n,
    decreases n,
{
    let t = nat_text(n);
    reveal_with_fuel(digits_value, 2);
    if n < 10 {
        assert(t.drop_last().len() == 0);
        assert(t.last() == digit_char(n as int));
        assert(digits_value(t.drop_last()) == 0);
    } else {
        lemma_nat_text(n / 10);
        let d = digit_char((n % 10) as int);
        assert(t.drop_last() =~= nat_text(n / 10));
        assert(t.last() == d);
        assert forall|i: int| 0 <= i < t.len() implies is_digit(#[trigger] t[i]) by {
            if i < t.len() - 1 {
                assert(t[i] == nat_text(n / 10)[i]);
            }
        }
    }
}

proof fn lemma_digits_end(t: Seq<char>, i: int)
    requires
        0 <= i <= t.len(),
        forall|k: int| i <= k < t.len() ==> is_digit(#[trigger] t[k]),
    ensures
        digits_end(t, i) == t.len(),
    decreases t.len() - i,
{
    if i < t.len() {
        lemma_digits_end(t, i + 1);
    }
}

/// The text of an integer reads as the integer, unless its first character counts as blank.
pub proof fn law_texts_of_integers_read_back(i: i64)
    ensures
        !is_blank(int_text(i as int)[0]) ==> integer_prefix(int_text(i as int)) == i,
        i64_of(int_text(i as int)) == Some(i),
{
    let t = int_text(i as int);
    if i < 0 {
        let n = (-(i as int)) as nat;
        let digits = nat_text(n);
        lemma_nat_text(n);
        assert(t[0] == '-');
        assert(t.drop_first() =~= digits);
        assert forall|k: int| 1 <= k < t.len() implies is_digit(#[trigger] t[k]) by {
            assert(t[k] == digits[k - 1]);
        }
        lemma_digits_end(t, 1);
    } else {
        lemma_nat_text(i as nat);
        assert(is_digit(t[0]));
        lemma_digits_end(t, 0);
    }
    assert(t.take(t.len() as int) =~= t);
}

/// An integer that becomes a text and then an integer again is what it was, unless the first
/// character of the text counts as blank.
pub proof fn law_integers_survive_as_texts(
    f: Facts,
    schema: Schema,
    row: Seq<SqlValue>,
    cased: bool,
    a: ScalarExpr,
    i: i64,
)
    requires
        gives(f, schema, row, a, cased, SqlValue::Integer(i)),
    ensures
        !is_blank(int_text(i as int)[0]) ==> gives(
            f,
            schema,
            row,
            ScalarExpr::Cast {
                expr: Box::new(ScalarExpr::Cast { expr: Box::new(a), ty: ColumnType::Text }),
                ty: ColumnType::Integer,
            },
            cased,
            SqlValue::Integer(i),
        ),
{
    law_texts_of_integers_read_back(i);
    let inner = ScalarExpr::Cast { expr: Box::new(a), ty: ColumnType::Text };
    assert(gives(f, schema, row, inner, cased, SqlValue::Text(int_text(i as int))));
}

// ---------------------------------------------------------------------------
// Quotes

proof fn lemma_quoted(t: Seq<char>, c: char)
    ensures
        quoted(t.push(c)) == quoted(t).drop_last() + (if c == '\'' {
            seq!['\'', '\'']
        } else {
            seq![c]
        }) + seq!['\''],
{
    assert(t.push(c).drop_last() =~= t);
    let before = doubled(t, '\'');
    assert(quoted(t).drop_last() =~= seq!['\''] + before);
    if c == '\'' {
        assert(doubled(t.push(c), '\'') =~= before + seq!['\'', '\'']);
    } else {
        assert(doubled(t.push(c), '\'') =~= before + seq![c]);
    }
    assert(quoted(t.push(c)) =~= quoted(t).drop_last() + (if c == '\'' {
        seq!['\'', '\'']
    } else {
        seq![c]
    }) + seq!['\'']);
}

/// A quoted text stands between two quotes: the empty one has nothing between them, and each
/// further character stands once before the last quote, or twice where it is a quote.
pub proof fn law_texts_are_quoted(f: Facts, t: Seq<char>, c: char, r: Seq<char>, cased: bool)
    requires
        nul_free(t),
        c != '\0',
        answers(f, ScalarFunc::Quote, seq![SqlValue::Text(t)], cased, SqlValue::Text(r)),
    ensures
        r.len() >= 2 && r[0] == '\'' && r.last() == '\'',
        t.len() == 0 ==> r == seq!['\'', '\''],
        answers(
            f,
            ScalarFunc::Quote,
            seq![SqlValue::Text(t.push(c))],
            cased,
            SqlValue::Text(
                r.drop_last() + (if c == '\'' {
                    seq!['\'', '\'']
                } else {
                    seq![c]
                }) + seq!['\''],
            ),
        ),
{
    lemma_nul_free(t);
    assert(nul_free(t.push(c))) by {
        assert forall|k: int| 0 <= k < t.push(c).len() implies #[trigger] t.push(c)[k] != '\0' by {
            if k < t.len() {
                assert(t.push(c)[k] == t[k]);
            }
        }
    }
    lemma_nul_free(t.push(c));
    lemma_quoted(t, c);
    assert(seq![SqlValue::Text(t)][0] == SqlValue::Text(t));
    assert(r == quoted(t));
    if t.len() == 0 {
        assert(r =~= seq!['\'', '\'']);
    }
}

proof fn lemma_unescaped_from(s: Seq<char>, i: int, out: Seq<char>)
    requires
        0 <= i <= s.len(),
        forall|k: int| 0 <= k < s.len() ==> #[trigger] s[k] != '\\',
    ensures
        unescaped_from(s, i, out) == Ok::<_, StopView>(out + s.skip(i)),
    decreases s.len() - i,
{
    if i < s.len() {
        lemma_unescaped_from(s, i + 1, out.push(s[i]));
        assert(out.push(s[i]) + s.skip(i + 1) =~= out + s.skip(i));
    } else {
        assert(out + s.skip(i) =~= out);
    }
}

/// A text without a backslash has nothing to turn into other characters.
pub proof fn law_plain_texts_have_no_escapes(f: Facts, t: Seq<char>, cased: bool)
    requires
        forall|k: int| 0 <= k < t.len() ==> #[trigger] t[k] != '\\',
    ensures
        answers(f, ScalarFunc::Unistr, seq![SqlValue::Text(t)], cased, SqlValue::Text(t)),
{
    lemma_unescaped_from(t, 0, Seq::empty());
    assert(Seq::<char>::empty() + t.skip(0) =~= t);
    assert(unescaped(t) == Ok::<_, StopView>(t));
}

/// A backslash and four digits stand for the character with the number that they spell, and two
/// backslashes for one.
pub proof fn law_escapes_stand_for_their_characters(
    f: Facts,
    a: char,
    b: char,
    c: char,
    d: char,
    n: int,
    cased: bool,
)
    requires
        hex_value(a) is Some && hex_value(b) is Some && hex_value(c) is Some && hex_value(d) is Some,
        n == 16 * (16 * (16 * hex_value(a)->Some_0 + hex_value(b)->Some_0) + hex_value(c)->Some_0)
            + hex_value(d)->Some_0,
        n < 0xD800,
    ensures
        answers(
            f,
            ScalarFunc::Unistr,
            seq![SqlValue::Text(seq!['\\', a, b, c, d])],
            cased,
            SqlValue::Text(seq![n as char]),
        ),
        answers(
            f,
            ScalarFunc::Unistr,
            seq![SqlValue::Text(seq!['\\', '\\'])],
            cased,
            SqlValue::Text(seq!['\\']),
        ),
{
    let t = seq!['\\', a, b, c, d];
    let none = Seq::<char>::empty();
    let r = none.push(n as char);
    assert(t.len() == 5 && t[0] == '\\' && t[1] == a && t[2] == b && t[3] == c && t[4] == d);
    assert(hex_number(t, 1, 0) == Some(0nat));
    assert(hex_number(t, 1, 1) == Some(hex_value(a)->Some_0 as nat));
    assert(hex_number(t, 1, 2) == Some((16 * hex_value(a)->Some_0 + hex_value(b)->Some_0) as nat));
    assert(hex_number(t, 1, 3) == Some(
        (16 * (16 * hex_value(a)->Some_0 + hex_value(b)->Some_0) + hex_value(c)->Some_0) as nat,
    ));
    assert(hex_number(t, 1, 4) == Some(n as nat));
    assert(unescaped_from(t, 5, r) == Ok::<_, StopView>(r));
    assert(unescaped(t) == Ok::<_, StopView>(r));
    assert(r =~= seq![n as char]);
    let two = seq!['\\', '\\'];
    assert(two.len() == 2 && two[0] == '\\' && two[1] == '\\');
    let one = none.push('\\');
    assert(unescaped_from(two, 2, one) == Ok::<_, StopView>(one));
    assert(unescaped(two) == Ok::<_, StopView>(one));
    assert(one =~= seq!['\\']);
}

/// A place beyond the end of a text has nothing, and the place zero one character less than is
/// asked for.
pub proof fn law_parts_beyond_the_ends(f: Facts, t: Seq<char>, i: i64, n: i64, cased: bool)
    requires
        nul_free(t),
        t.len() < i64::MAX,
    ensures
        i > t.len() ==> answers(
            f,
            ScalarFunc::Substr,
            seq![SqlValue::Text(t), SqlValue::Integer(i)],
            cased,
            SqlValue::Text(Seq::empty()),
        ),
        1 <= n <= t.len() + 1 ==> answers(
            f,
            ScalarFunc::Substr,
            seq![SqlValue::Text(t), SqlValue::Integer(0), SqlValue::Integer(n)],
            cased,
            SqlValue::Text(t.take(n - 1)),
        ),
{
    lemma_nul_free(t);
    lemma_substr(f, SqlValue::Text(t), i, n, cased);
    lemma_substr(f, SqlValue::Text(t), 0, n, cased);
    if i > t.len() {
        assert(part_of(t, i, None) =~= Seq::<char>::empty());
    }
    if 1 <= n <= t.len() + 1 {
        assert(part_of(t, 0, Some(n)) =~= t.take(n - 1));
    }
}

} // verus!
