//! How texts are read as dates.

use vstd::prelude::*;

use crate::common::value::SqlValue;
use crate::sqlite3::date_laws::law_zeros_do_not_change_numbers;
use crate::sqlite3::dates::{
    date_of, modified_from, modifiers_from, moment_of_args, moment_of_text, parts_of, reading_from,
    split, split_from, zero_filled,
};
use crate::sqlite3::expression_laws::answers;
use crate::sqlite3::functions::ScalarFunc;
use crate::sqlite3::number_functions::{moment_text, MomentPart};
use crate::sqlite3::reals::{Facts, StopView};
use crate::sqlite3::strings::{char_from, i64_of, is_digit, lowered, same_letters};
use crate::sqlite3::text_laws::lemma_nat_text;

verus! {

/// A text of three parts with a character between them that none of them has is split into them.
proof fn lemma_split(a: Seq<char>, b: Seq<char>, d: Seq<char>, c: char)
    requires
        forall|k: int| 0 <= k < a.len() ==> #[trigger] a[k] != c,
        forall|k: int| 0 <= k < b.len() ==> #[trigger] b[k] != c,
        forall|k: int| 0 <= k < d.len() ==> #[trigger] d[k] != c,
    ensures
        split(a + seq![c] + b + seq![c] + d, c) == seq![a, b, d],
{
    let s = a + seq![c] + b + seq![c] + d;
    let none = Seq::<Seq<char>>::empty();
    let x = a.len() as int;
    let y = x + 1 + b.len();
    lemma_next(s, c, 0, x);
    assert(s.subrange(0, x) =~= a);
    assert forall|k: int| x + 1 <= k < y implies #[trigger] s[k] != c by {
        assert(s[k] == b[k - x - 1]);
    }
    lemma_next(s, c, x + 1, y);
    assert(s.subrange(x + 1, y) =~= b);
    assert forall|k: int| y + 1 <= k < s.len() implies #[trigger] s[k] != c by {
        assert(s[k] == d[k - y - 1]);
    }
    lemma_next(s, c, y + 1, s.len() as int);
    assert(s.subrange(y + 1, s.len() as int) =~= d);
    let one = none.push(a);
    let two = one.push(b);
    assert(split_from(s, c, y + 1, two) == two.push(d));
    assert(split_from(s, c, x + 1, one) == two.push(d));
    assert(split_from(s, c, 0, none) == two.push(d));
    assert(two.push(d) =~= seq![a, b, d]);
}

/// The next place of a character from one on.
proof fn lemma_next(s: Seq<char>, c: char, i: int, n: int)
    requires
        0 <= i <= n <= s.len(),
        forall|k: int| i <= k < n ==> #[trigger] s[k] != c,
        n < s.len() ==> s[n] == c,
    ensures
        char_from(s, c, i) == n,
    decreases n - i,
{
    if i < n {
        lemma_next(s, c, i + 1, n);
    }
}

proof fn lemma_number_read(n: int, width: int)
    requires
        0 <= n <= i64::MAX,
    ensures
        i64_of(zero_filled(n, width)) == Some(n as i64),
        forall|k: int|
            0 <= k < zero_filled(n, width).len() ==> #[trigger] zero_filled(n, width)[k] != '-',
{
    law_zeros_do_not_change_numbers(n, width);
    let t = zero_filled(n, width);
    assert(t.len() > 0) by {
        lemma_nat_text(n as nat);
    }
    assert(is_digit(t[0]));
    assert forall|k: int| 0 <= k < t.len() implies #[trigger] t[k] != '-' by {
        assert(is_digit(t[k]));
    }
}

/// A date that is written by its year, month and day is read as it, and shown as it was written.
#[verifier::spinoff_prover]
#[verifier::rlimit(60)]
pub proof fn law_dates_are_read_as_they_are_shown(
    f: Facts,
    year: int,
    month: int,
    day: int,
    cased: bool,
)
    requires
        0 <= year <= i64::MAX,
        1 <= month <= 12,
        1 <= day <= 31,
    ensures
        ({
            let t = zero_filled(year, 4) + "-"@ + zero_filled(month, 2) + "-"@ + zero_filled(day, 2);
            &&& date_of(t) == Some((year, month, day))
            &&& answers(f, ScalarFunc::Date, seq![SqlValue::Text(t)], cased, SqlValue::Text(t))
        }),
{
    let (a, b, c) = (zero_filled(year, 4), zero_filled(month, 2), zero_filled(day, 2));
    let t = a + "-"@ + b + "-"@ + c;
    reveal_strlit("-");
    assert("-"@ =~= seq!['-']);
    lemma_number_read(year, 4);
    lemma_number_read(month, 2);
    lemma_number_read(day, 2);
    law_zeros_do_not_change_numbers(year, 4);
    lemma_split(a, b, c, '-');
    assert(t == a + seq!['-'] + b + seq!['-'] + c);
    lemma_parts_read(a, b, c, year, month, day);
    lemma_date_shown(f, t, year, month, day, cased);
}

proof fn lemma_parts_read(
    a: Seq<char>,
    b: Seq<char>,
    c: Seq<char>,
    year: int,
    month: int,
    day: int,
)
    requires
        split(a + seq!['-'] + b + seq!['-'] + c, '-') == seq![a, b, c],
        0 <= year <= i64::MAX,
        1 <= month <= 12,
        1 <= day <= 31,
        i64_of(a) == Some(year as i64),
        i64_of(b) == Some(month as i64),
        i64_of(c) == Some(day as i64),
    ensures
        date_of(a + seq!['-'] + b + seq!['-'] + c) == Some((year, month, day)),
{
    let p = seq![a, b, c];
    assert(p.len() == 3 && p[0] == a && p[1] == b && p[2] == c);
}

proof fn lemma_date_shown(f: Facts, t: Seq<char>, year: int, month: int, day: int, cased: bool)
    requires
        date_of(t) == Some((year, month, day)),
        t.len() > 3,
        0 <= year <= i64::MAX,
        1 <= month <= 12,
        1 <= day <= 31,
        t == zero_filled(year, 4) + "-"@ + zero_filled(month, 2) + "-"@ + zero_filled(day, 2),
    ensures
        answers(f, ScalarFunc::Date, seq![SqlValue::Text(t)], cased, SqlValue::Text(t)),
{
    lemma_not_now(t);
    let p = parts_of((year, month, day), (0, 0, 0, 0));
    assert(moment_of_text(f, t) == Ok::<_, StopView>(Some(p)));
    let args = seq![SqlValue::Text(t)];
    let none = Seq::<Seq<char>>::empty();
    assert(args.len() == 1 && args[0] == SqlValue::Text(t));
    assert(modifiers_from(f, args, 1, none) == Ok::<_, StopView>(Some(none)));
    assert(!reading_from(none, 1));
    assert(modified_from(f, none, 0, Some(p)) == Ok::<_, StopView>(Some(p)));
    assert(moment_of_args(f, args) == Ok::<_, StopView>(Some(p)));
    assert(moment_text(f, MomentPart::Date, args) == Ok::<_, StopView>(SqlValue::Text(t)));
}

proof fn lemma_not_now(t: Seq<char>)
    requires
        t.len() > 3,
    ensures
        !same_letters(t, "now"@),
{
    reveal_strlit("now");
    assert(lowered("now"@).len() == 3);
    assert(lowered(t).len() == t.len());
}

} // verus!
