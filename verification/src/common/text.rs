//! Text: characters, decimal numbers and the order of strings.

use vstd::prelude::*;

use crate::common::ordmap::{Order, OrdKey};

verus! {

/// `String::push` puts one character behind the text.
pub assume_specification[ String::push ](s: &mut String, ch: char)
    ensures
        final(s)@ == old(s)@.push(ch),
;

/// The characters of a text.
pub fn char_vec(s: &str) -> (r: Vec<char>)
    ensures
        r@ == s@,
{
    let mut r: Vec<char> = Vec::new();
    for c in it: s.chars()
        invariant
            r@.len() == it.index(),
            it.seq() == s@,
            forall|i: int| 0 <= i < r@.len() ==> r@[i] == s@[i],
    {
        r.push(c);
    }
    r
}

/// The text that a run of characters spells.
pub fn text_of(chars: &Vec<char>, from: usize, to: usize) -> (r: String)
    requires
        from <= to <= chars@.len(),
    ensures
        r@ == chars@.subrange(from as int, to as int),
{
    let mut r = String::new();
    let mut i: usize = from;
    while i < to
        invariant
            from <= i <= to <= chars@.len(),
            r@ == chars@.subrange(from as int, i as int),
        decreases to - i,
    {
        r.push(chars[i]);
        i = i + 1;
    }
    r
}

/// Whether two texts are the same.
pub fn same_text(a: &str, b: &str) -> (r: bool)
    ensures
        r == (a@ == b@),
{
    a.to_owned() == b.to_owned()
}

/// The decimal digit of a number below ten.
pub open spec fn digit_char(d: int) -> char {
    (48 + d) as char
}

/// The decimal digits of a natural number, most significant first.
pub open spec fn nat_text(n: nat) -> Seq<char>
    decreases n,
{
    if n < 10 {
        seq![digit_char(n as int)]
    } else {
        nat_text(n / 10).push(digit_char((n % 10) as int))
    }
}

/// A decimal integer, with a minus sign where it is negative.
pub open spec fn int_text(i: int) -> Seq<char> {
    if i < 0 {
        seq!['-'] + nat_text((-i) as nat)
    } else {
        nat_text(i as nat)
    }
}

fn digit_of(d: u128) -> (c: char)
    requires
        d < 10,
    ensures
        c == digit_char(d as int),
{
    (48 + d as u8) as char
}

fn push_number(out: &mut String, n: u128)
    ensures
        final(out)@ == old(out)@ + nat_text(n as nat),
    decreases n,
{
    if n >= 10 {
        push_number(out, n / 10);
    }
    out.push(digit_of(n % 10));
    proof {
        if n < 10 {
            assert(old(out)@ + nat_text(n as nat) =~= old(out)@.push(digit_char(n as int)));
        } else {
            assert(old(out)@ + nat_text(n as nat) =~= (old(out)@ + nat_text(n as nat / 10)).push(
                digit_char((n % 10) as int),
            ));
        }
    }
}

/// A natural number in decimal.
pub fn u64_text(n: u64) -> (r: String)
    ensures
        r@ == nat_text(n as nat),
{
    let mut r = String::new();
    push_number(&mut r, n as u128);
    assert(Seq::<char>::empty() + nat_text(n as nat) =~= nat_text(n as nat));
    r
}

/// The distance of an integer from zero.
pub fn magnitude(i: i64) -> (r: u64)
    ensures
        r == if i < 0 {
            -i
        } else {
            i as int
        },
{
    if i < 0 {
        (-(i + 1)) as u64 + 1
    } else {
        i as u64
    }
}

/// An integer in decimal.
pub fn i64_text(i: i64) -> (r: String)
    ensures
        r@ == int_text(i as int),
{
    if i < 0 {
        let mut r = String::new();
        r.push('-');
        push_number(&mut r, magnitude(i) as u128);
        assert(r@ =~= int_text(i as int));
        r
    } else {
        u64_text(i as u64)
    }
}

/// A large integer in decimal.
pub fn i128_text(i: i128) -> (r: String)
    ensures
        r@ == int_text(i as int),
{
    let mut r = String::new();
    if i < 0 {
        r.push('-');
        push_number(&mut r, (-(i + 1)) as u128 + 1);
    } else {
        push_number(&mut r, i as u128);
    }
    assert(r@ =~= int_text(i as int));
    r
}

/// A piece of text put behind another.
pub fn joined(a: &str, b: &str) -> (r: String)
    ensures
        r@ == a@ + b@,
{
    let mut r = a.to_owned();
    r.append(b);
    r
}

// ---------------------------------------------------------------------------
// Lexicographic order

/// Whether the number sequence `a` comes before `b`: at the first position where they
/// differ `a` has the smaller number, or `a` is a proper prefix of `b`.
pub open spec fn lex_before(a: Seq<int>, b: Seq<int>) -> bool {
    exists|n: int| #[trigger] lex_split(a, b, n)
}

/// Whether `a` and `b` agree on their first `n` numbers and `a` is smaller right after.
pub open spec fn lex_split(a: Seq<int>, b: Seq<int>, n: int) -> bool {
    &&& 0 <= n <= a.len()
    &&& n < b.len()
    &&& forall|i: int| 0 <= i < n ==> a[i] == b[i]
    &&& n < a.len() ==> a[n] < b[n]
}

pub proof fn lemma_lex_irreflexive(a: Seq<int>)
    ensures
        !lex_before(a, a),
{
}

pub proof fn lemma_lex_transitive(a: Seq<int>, b: Seq<int>, c: Seq<int>)
    requires
        lex_before(a, b),
        lex_before(b, c),
    ensures
        lex_before(a, c),
{
    let n = choose|n: int| #[trigger] lex_split(a, b, n);
    let m = choose|n: int| #[trigger] lex_split(b, c, n);
    let k = if n <= m {
        n
    } else {
        m
    };
    assert(lex_split(a, c, k));
}

/// The length of the longest common prefix.
pub open spec fn common_prefix(a: Seq<int>, b: Seq<int>) -> nat
    decreases a.len(),
{
    if a.len() == 0 || b.len() == 0 || a[0] != b[0] {
        0
    } else {
        1 + common_prefix(a.drop_first(), b.drop_first())
    }
}

proof fn lemma_common_prefix(a: Seq<int>, b: Seq<int>)
    ensures
        common_prefix(a, b) <= a.len(),
        common_prefix(a, b) <= b.len(),
        forall|i: int| 0 <= i < common_prefix(a, b) ==> a[i] == b[i],
        common_prefix(a, b) < a.len() && common_prefix(a, b) < b.len() ==> a[common_prefix(
            a,
            b,
        ) as int] != b[common_prefix(a, b) as int],
    decreases a.len(),
{
    if !(a.len() == 0 || b.len() == 0 || a[0] != b[0]) {
        let (x, y) = (a.drop_first(), b.drop_first());
        lemma_common_prefix(x, y);
        let n = common_prefix(x, y) as int;
        assert forall|i: int| 0 <= i < n + 1 implies a[i] == b[i] by {
            if i > 0 {
                assert(x[i - 1] == y[i - 1]);
            }
        }
        if n < x.len() && n < y.len() {
            assert(x[n] == a[n + 1] && y[n] == b[n + 1]);
        }
    }
}

pub proof fn lemma_lex_total(a: Seq<int>, b: Seq<int>)
    ensures
        a == b || lex_before(a, b) || lex_before(b, a),
{
    lemma_common_prefix(a, b);
    let n = common_prefix(a, b) as int;
    if n == a.len() && n == b.len() {
        assert(a =~= b);
    } else if n == a.len() || (n < b.len() && a[n] < b[n]) {
        assert(lex_split(a, b, n));
    } else {
        assert(lex_split(b, a, n));
    }
}

/// The code points of a text.
pub open spec fn code_points(s: Seq<char>) -> Seq<int> {
    s.map_values(|c: char| c as int)
}

/// The order of texts, by code point.
pub open spec fn text_before(a: Seq<char>, b: Seq<char>) -> bool {
    lex_before(code_points(a), code_points(b))
}

proof fn lemma_code_points_injective(a: Seq<char>, b: Seq<char>)
    requires
        code_points(a) == code_points(b),
    ensures
        a == b,
{
    assert(code_points(a).len() == a.len() && code_points(b).len() == b.len());
    assert forall|i: int| 0 <= i < a.len() implies a[i] == b[i] by {
        assert(code_points(a)[i] == a[i] as int && code_points(b)[i] == b[i] as int);
    }
    assert(a =~= b);
}

impl OrdKey for String {
    open spec fn before(a: Seq<char>, b: Seq<char>) -> bool {
        text_before(a, b)
    }

    proof fn before_irreflexive(a: Seq<char>) {
        lemma_lex_irreflexive(code_points(a));
    }

    proof fn before_transitive(a: Seq<char>, b: Seq<char>, c: Seq<char>) {
        lemma_lex_transitive(code_points(a), code_points(b), code_points(c));
    }

    proof fn before_total(a: Seq<char>, b: Seq<char>) {
        lemma_lex_total(code_points(a), code_points(b));
        if code_points(a) == code_points(b) {
            lemma_code_points_injective(a, b);
        }
    }

    fn compare(&self, other: &Self) -> (r: Order) {
        compare_text(self.as_str(), other.as_str())
    }

    fn copy_key(&self) -> (r: Self) {
        self.clone()
    }
}

/// Compares two texts by code point.
pub fn compare_text(left: &str, right: &str) -> (r: Order)
    ensures
        r == Order::Less <==> text_before(left@, right@),
        r == Order::Equal <==> left@ == right@,
        r == Order::Greater <==> text_before(right@, left@),
{
    let a = char_vec(left);
    let b = char_vec(right);
    let ghost x = code_points(a@);
    let ghost y = code_points(b@);
    let mut i: usize = 0;
    while i < a.len() && i < b.len()
        invariant
            i <= a@.len(),
            i <= b@.len(),
            x == code_points(a@),
            y == code_points(b@),
            a@ == left@,
            b@ == right@,
            forall|j: int| 0 <= j < i ==> x[j] == y[j],
        decreases a@.len() - i,
    {
        let c: char = a[i];
        let d: char = b[i];
        assert(x[i as int] == c as int && y[i as int] == d as int);
        if c != d {
            proof {
                if x[i as int] < y[i as int] {
                    assert(lex_split(x, y, i as int));
                    if lex_before(y, x) {
                        lemma_lex_transitive(x, y, x);
                    }
                } else {
                    assert(lex_split(y, x, i as int));
                    if lex_before(x, y) {
                        lemma_lex_transitive(y, x, y);
                    }
                }
                lemma_lex_irreflexive(x);
                lemma_lex_irreflexive(y);
            }
            return if c < d {
                Order::Less
            } else {
                Order::Greater
            };
        }
        i = i + 1;
    }
    proof {
        lemma_lex_irreflexive(x);
        lemma_lex_irreflexive(y);
        if i < b@.len() {
            assert(lex_split(x, y, i as int));
            if lex_before(y, x) {
                lemma_lex_transitive(x, y, x);
            }
        } else if i < a@.len() {
            assert(lex_split(y, x, i as int));
            if lex_before(x, y) {
                lemma_lex_transitive(y, x, y);
            }
        } else {
            assert(x =~= y);
            lemma_code_points_injective(a@, b@);
        }
    }
    if i < b.len() {
        Order::Less
    } else if i < a.len() {
        Order::Greater
    } else {
        Order::Equal
    }
}

} // verus!
