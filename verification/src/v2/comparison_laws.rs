//! What the comparisons of an index search mean for integers, truth values and texts.

use vstd::prelude::*;

use crate::common::text::{code_points, lemma_lex_total, lex_split, text_before};
use crate::common::value::{CompareOp, SqlValue};
use crate::v2::locks::{comparison_holds, inside, BoundView};

verus! {

/// Bounds on integers let in exactly the integers that they say.
pub proof fn law_integers_are_compared_as_numbers(a: i64, b: i64)
    ensures
        ({
            let (x, y) = (SqlValue::Integer(a), SqlValue::Integer(b));
            &&& inside(x, Some(BoundView { op: CompareOp::Gt, value: y })) <==> a > b
            &&& inside(x, Some(BoundView { op: CompareOp::Gte, value: y })) <==> a >= b
            &&& inside(x, Some(BoundView { op: CompareOp::Lt, value: y })) <==> a < b
            &&& inside(x, Some(BoundView { op: CompareOp::Lte, value: y })) <==> a <= b
            &&& inside(x, Some(BoundView { op: CompareOp::Eq, value: y })) <==> a == b
            &&& inside(x, Some(BoundView { op: CompareOp::Ne, value: y })) <==> a != b
            &&& inside(x, None)
        }),
{
}

/// Of the two truth values, false is the smaller one.
pub proof fn law_truth_values_are_compared(a: bool, b: bool)
    ensures
        ({
            let (x, y) = (SqlValue::Boolean(a), SqlValue::Boolean(b));
            &&& comparison_holds(x, CompareOp::Gt, y) <==> a && !b
            &&& comparison_holds(x, CompareOp::Gte, y) <==> a || !b
            &&& comparison_holds(x, CompareOp::Lt, y) <==> !a && b
            &&& comparison_holds(x, CompareOp::Lte, y) <==> !a || b
            &&& comparison_holds(x, CompareOp::Eq, y) <==> a == b
            &&& comparison_holds(x, CompareOp::Ne, y) <==> a != b
        }),
{
}

/// Whether a text is the smaller one: behind what they have in common it ends, or has the
/// character with the smaller code point.
pub open spec fn smaller_text(a: Seq<char>, b: Seq<char>) -> bool {
    exists|n: int|
        #![trigger a.take(n)]
        0 <= n <= a.len() && n < b.len() && a.take(n) == b.take(n) && (n == a.len() || (a[n] as int)
            < (b[n] as int))
}

/// The order of texts is that of the first characters in which they differ.
pub proof fn law_texts_are_ordered_by_their_first_difference(a: Seq<char>, b: Seq<char>)
    ensures
        text_before(a, b) <==> smaller_text(a, b),
        a == b || text_before(a, b) || text_before(b, a),
        !(text_before(a, b) && text_before(b, a)),
        !text_before(a, a),
{
    let (p, q) = (code_points(a), code_points(b));
    if text_before(a, b) {
        let n = choose|n: int| #[trigger] lex_split(p, q, n);
        assert forall|i: int| 0 <= i < n implies a[i] == b[i] by {
            assert(p[i] == q[i]);
            assert(p[i] == a[i] as int);
            assert(q[i] == b[i] as int);
        }
        assert(a.take(n) =~= b.take(n));
    }
    if smaller_text(a, b) {
        let n = choose|n: int|
            #![trigger a.take(n)]
            0 <= n <= a.len() && n < b.len() && a.take(n) == b.take(n) && (n == a.len() || (
            a[n] as int) < (b[n] as int));
        assert forall|i: int| 0 <= i < n implies p[i] == q[i] by {
            assert(a.take(n)[i] == b.take(n)[i]);
        }
        assert(lex_split(p, q, n));
    }
    lemma_lex_total(p, q);
    if p == q {
        assert(p.len() == a.len() && q.len() == b.len());
        assert forall|i: int| 0 <= i < a.len() implies a[i] == b[i] by {
            assert(p[i] == a[i] as int);
            assert(q[i] == b[i] as int);
        }
        assert(a =~= b);
    }
    if text_before(a, b) && text_before(b, a) {
        let n = choose|n: int| #[trigger] lex_split(p, q, n);
        let k = choose|k: int| #[trigger] lex_split(q, p, k);
        if n < k {
            assert(q[n] == p[n]);
        } else if k < n {
            assert(p[k] == q[k]);
        }
    }
}

/// Bounds on texts let in exactly the texts on their side of the first difference.
pub proof fn law_texts_are_compared_by_their_first_difference(a: Seq<char>, b: Seq<char>)
    ensures
        ({
            let (x, y) = (SqlValue::Text(a), SqlValue::Text(b));
            &&& inside(x, Some(BoundView { op: CompareOp::Gt, value: y })) <==> smaller_text(b, a)
            &&& inside(x, Some(BoundView { op: CompareOp::Gte, value: y })) <==> !smaller_text(a, b)
            &&& inside(x, Some(BoundView { op: CompareOp::Lt, value: y })) <==> smaller_text(a, b)
            &&& inside(x, Some(BoundView { op: CompareOp::Lte, value: y })) <==> !smaller_text(b, a)
            &&& inside(x, Some(BoundView { op: CompareOp::Eq, value: y })) <==> a == b
            &&& inside(x, Some(BoundView { op: CompareOp::Ne, value: y })) <==> a != b
        }),
{
    law_texts_are_ordered_by_their_first_difference(a, b);
    law_texts_are_ordered_by_their_first_difference(b, a);
}

/// Comparisons go together: a value is greater than another exactly if the other is smaller, and
/// equal or smaller exactly if it is not greater, where the two are ordered at all. Values that
/// are not ordered are neither smaller nor greater, and any two are equal or not.
pub proof fn law_comparisons_agree(x: SqlValue, y: SqlValue)
    ensures
        comparison_holds(x, CompareOp::Gt, y) <==> comparison_holds(y, CompareOp::Lt, x),
        comparison_holds(x, CompareOp::Gte, y) <==> comparison_holds(y, CompareOp::Lte, x),
        comparison_holds(x, CompareOp::Eq, y) <==> x == y,
        comparison_holds(x, CompareOp::Ne, y) <==> x != y,
        !(comparison_holds(x, CompareOp::Gt, y) && comparison_holds(x, CompareOp::Lte, y)),
        !(comparison_holds(x, CompareOp::Lt, y) && comparison_holds(x, CompareOp::Gte, y)),
        comparison_holds(x, CompareOp::Lte, y) && comparison_holds(x, CompareOp::Gte, y) ==> x == y,
        (x is Integer && y is Integer) || (x is Text && y is Text) || (x is Boolean && y is Boolean)
            || (x is Null && y is Null) ==> {
            &&& comparison_holds(x, CompareOp::Gt, y) <==> !comparison_holds(x, CompareOp::Lte, y)
            &&& comparison_holds(x, CompareOp::Lt, y) <==> !comparison_holds(x, CompareOp::Gte, y)
            &&& x == y ==> comparison_holds(x, CompareOp::Lte, y)
        },
        !((x is Integer && y is Integer) || (x is Text && y is Text) || (x is Boolean && y is Boolean)
            || (x is Null && y is Null)) ==> {
            &&& !comparison_holds(x, CompareOp::Gt, y)
            &&& !comparison_holds(x, CompareOp::Gte, y)
            &&& !comparison_holds(x, CompareOp::Lt, y)
            &&& !comparison_holds(x, CompareOp::Lte, y)
        },
{
    match (x, y) {
        (SqlValue::Text(a), SqlValue::Text(b)) => {
            law_texts_are_ordered_by_their_first_difference(a, b);
            law_texts_are_ordered_by_their_first_difference(b, a);
        },
        _ => {},
    }
}

} // verus!
