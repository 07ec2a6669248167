//! What a format of text and numbers gives, in terms of what is in it.

use vstd::prelude::*;
use vstd::utf8::encode_utf8;

use crate::common::text::{int_text, nat_text};
use crate::common::value::SqlValue;
use crate::sqlite3::expression_laws::answers;
use crate::sqlite3::functions::ScalarFunc;
use crate::sqlite3::printf::{
    aligned, base_text, directive, flags_from, formatted, head_at, no_flags, number_field, ordinal,
    precision_at, printf_from, signed_text, skip_l, width_at, DirectiveHead, PrintfFlags,
};
use crate::sqlite3::reals::{Facts, StopView};
use crate::sqlite3::strings::{hex_digit, hex_value, is_digit};
use crate::sqlite3::text_laws::{lemma_nat_text, lemma_nul_free, nul_free};
use crate::sqlite3::values::digits_end;

verus! {

/// A text without per cent signs is given as it is.
pub proof fn law_plain_formats_stay(f: Facts, t: Seq<char>, args: Seq<SqlValue>, cased: bool)
    requires
        args.len() >= 1,
        args[0] == SqlValue::Text(t),
        forall|k: int| 0 <= k < t.len() ==> #[trigger] t[k] != '%',
    ensures
        answers(f, ScalarFunc::Printf, args, cased, SqlValue::Text(t)),
{
    lemma_plain(f, t, args.skip(1), 0, 0);
    assert(t.take(0) =~= Seq::<char>::empty());
}

proof fn lemma_plain(f: Facts, t: Seq<char>, args: Seq<SqlValue>, i: int, k: int)
    requires
        0 <= i <= t.len(),
        forall|n: int| 0 <= n < t.len() ==> #[trigger] t[n] != '%',
    ensures
        printf_from(f, t, args, i, k, t.take(i)) == Ok::<_, StopView>(Some(t)),
    decreases t.len() - i,
{
    if i < t.len() {
        lemma_plain(f, t, args, i + 1, k);
        assert(t.take(i).push(t[i]) =~= t.take(i + 1));
    } else {
        assert(t.take(i) =~= t);
    }
}

proof fn lemma_one_directive(f: Facts, c: char, args: Seq<SqlValue>, t: Seq<char>)
    requires
        c == 'd' || c == 's' || c == 'x' || c == 'X',
        args.len() >= 1,
        directive(f, c, args[0], 0, no_flags(), None) == Some(Ok::<_, StopView>(t)),
    ensures
        formatted(f, seq!['%', c], args) == Ok::<_, StopView>(Some(t)),
{
    let p = seq!['%', c];
    let none = Seq::<char>::empty();
    assert(p.len() == 2 && p[0] == '%' && p[1] == c);
    assert(flags_from(p, 1, no_flags()) == (no_flags(), 1int));
    assert(digits_end(p, 1) == 1);
    assert(p.subrange(1, 1) =~= none);
    assert(width_at(f, p, args, 1, 0) == Ok::<_, StopView>((0usize, false, 1int, 0int)));
    assert(precision_at(f, p, args, 1, 0) == Ok::<_, StopView>((None::<usize>, 1int, 0int)));
    assert(skip_l(p, 1) == 1);
    let h = DirectiveHead { flags: no_flags(), width: 0, precision: None, at: 1, used: 0 };
    assert(head_at(f, p, args, 1, 0) == Ok::<_, StopView>(h));
    assert(none + t =~= t);
    assert(printf_from(f, p, args, 2, 1, t) == Ok::<_, StopView>(Some(t)));
}

/// An integer is shown by its digits, with a minus sign where it is negative; a text is shown as
/// it is.
pub proof fn law_arguments_are_shown(f: Facts, i: i64, t: Seq<char>, cased: bool)
    requires
        nul_free(t),
    ensures
        answers(
            f,
            ScalarFunc::Printf,
            seq![SqlValue::Text(seq!['%', 'd']), SqlValue::Integer(i)],
            cased,
            SqlValue::Text(int_text(i as int)),
        ),
        answers(
            f,
            ScalarFunc::Printf,
            seq![SqlValue::Text(seq!['%', 's']), SqlValue::Text(t)],
            cased,
            SqlValue::Text(t),
        ),
{
    lemma_nul_free(t);
    let none = Seq::<char>::empty();
    let number = seq![SqlValue::Text(seq!['%', 'd']), SqlValue::Integer(i)];
    let text = seq![SqlValue::Text(seq!['%', 's']), SqlValue::Text(t)];
    assert(number.skip(1)[0] == SqlValue::Integer(i));
    assert(text.skip(1)[0] == SqlValue::Text(t));
    assert(signed_text(i, no_flags(), None) =~= int_text(i as int));
    assert(signed_text(i, no_flags(), None) + none =~= int_text(i as int));
    assert(number_field(int_text(i as int), 0, no_flags()) == int_text(i as int));
    lemma_one_directive(f, 'd', number.skip(1), int_text(i as int));
    lemma_one_directive(f, 's', text.skip(1), t);
    assert(number[0] == SqlValue::Text(seq!['%', 'd']));
    assert(text[0] == SqlValue::Text(seq!['%', 's']));
}

/// A field is at least as wide as it should be: a shorter text stands at its end behind spaces, or
/// at its start before them.
pub proof fn law_fields_are_filled(t: Seq<char>, width: int, left: bool, k: int)
    requires
        0 <= k < t.len(),
    ensures
        aligned(t, width, left).len() == if t.len() >= width {
            t.len() as int
        } else {
            width
        },
        left ==> aligned(t, width, left)[k] == t[k],
        !left ==> aligned(t, width, left)[aligned(t, width, left).len() - t.len() + k] == t[k],
        forall|n: int|
            left && t.len() <= n < aligned(t, width, left).len() ==> #[trigger] aligned(
                t,
                width,
                left,
            )[n] == ' ',
        forall|n: int|
            !left && 0 <= n < aligned(t, width, left).len() - t.len() ==> #[trigger] aligned(
                t,
                width,
                left,
            )[n] == ' ',
{
}

/// The value of digits in a base.
pub open spec fn base_value(t: Seq<char>, base: int) -> int
    decreases t.len(),
{
    if t.len() == 0 {
        0
    } else {
        base * base_value(t.drop_last(), base) + (match hex_value(t.last()) {
            Some(d) => d,
            None => 0,
        })
    }
}

/// The digits of a number in a base from two to sixteen have its value.
pub proof fn law_digits_have_the_value_of_the_number(n: nat, base: nat, upper: bool)
    requires
        2 <= base <= 16,
    ensures
        base_value(base_text(n, base, upper), base as int) == n,
        base_text(n, base, upper).len() > 0,
    decreases n,
{
    let t = base_text(n, base, upper);
    if n < base {
        assert(t =~= seq![hex_digit(n as int, upper)]);
        assert(t.drop_last().len() == 0);
        assert(base_value(t.drop_last(), base as int) == 0);
        assert(base * 0 == 0);
        lemma_digit(n as int, upper);
    } else {
        assert(n / base < n) by (nonlinear_arith)
            requires
                n >= base >= 2,
        ;
        law_digits_have_the_value_of_the_number(n / base, base, upper);
        let rest = base_text(n / base, base, upper);
        let d = (n % base) as int;
        assert(t == rest.push(hex_digit(d, upper)));
        assert(t.drop_last() =~= rest);
        assert(0 <= d < base) by (nonlinear_arith)
            requires
                d == n % base,
                base >= 2,
        ;
        lemma_digit(d, upper);
        assert(base * (n / base) + n % base == n) by (nonlinear_arith)
            requires
                base >= 2,
        ;
    }
}

proof fn lemma_digit(d: int, upper: bool)
    requires
        0 <= d < 16,
    ensures
        hex_value(hex_digit(d, upper)) == Some(d),
{
}

/// The letters behind a number in a row: those of eleven, twelve and thirteen are those of the
/// numbers without a first, second or third, and a sign does not count.
pub proof fn law_numbers_in_a_row(i: i64, j: i64)
    requires
        i64::MIN < i,
        i64::MIN < j,
    ensures
        j == -i ==> ordinal(j) == ordinal(i),
        0 <= i && j == i + 100 ==> ordinal(j) == ordinal(i),
        0 <= i && i % 100 == 11 && 0 <= j && j % 10 == 4 && j % 100 != 14 ==> ordinal(i)
            == ordinal(j),
{
}

/// A number that is not negative stands behind a plus sign or a space where one is asked for, and
/// a negative one behind a minus sign whatever is asked for.
pub proof fn law_signs_are_shown(i: i64)
    ensures
        i >= 0 ==> {
            &&& signed_text(i, PrintfFlags { sign_plus: true, ..no_flags() }, None) == seq!['+']
                + int_text(i as int)
            &&& signed_text(i, PrintfFlags { sign_space: true, ..no_flags() }, None) == seq![' ']
                + int_text(i as int)
        },
        i < 0 ==> signed_text(i, PrintfFlags { sign_plus: true, ..no_flags() }, None) == int_text(
            i as int,
        ),
{
}

/// Zeros fill a field between the sign and the digits.
pub proof fn law_zeros_stand_behind_the_sign(i: i64, width: usize)
    requires
        width > encode_utf8(int_text(i as int)).len(),
        width > int_text(i as int).len(),
    ensures
        ({
            let flags = PrintfFlags { zero_pad: true, ..no_flags() };
            let t = number_field(int_text(i as int), width, flags);
            &&& t.len() == width
            &&& i < 0 ==> t[0] == '-' && t[1] == '0'
            &&& i >= 0 ==> t[0] == '0'
            &&& t.last() == int_text(i as int).last()
        }),
{
    let t = int_text(i as int);
    if i < 0 {
        lemma_nat_text((-(i as int)) as nat);
        assert(t[0] == '-');
        assert(t.drop_first() =~= nat_text((-(i as int)) as nat));
    } else {
        lemma_nat_text(i as nat);
        assert(is_digit(t[0]));
    }
}

} // verus!
