//! Which texts a pattern matches, in terms of its first character and what is behind it.

use vstd::prelude::*;

use crate::common::schema::Schema;
use crate::common::value::SqlValue;
use crate::sqlite3::expr::ScalarExpr;
use crate::sqlite3::expression_laws::{answers, says};
use crate::sqlite3::functions::{applied, ScalarFunc};
use crate::sqlite3::operator_laws::gives;
use crate::sqlite3::patterns::{
    atom_at, class_at, class_from, escape_char, glob, glob_from, like_matches, like_same, regexp,
    regexp_here, regexp_search, regexp_star, tokens_from, tokens_of, LikeToken,
};
use crate::sqlite3::reals::{Facts, StopView};
use crate::sqlite3::strings::occurs_at;
use crate::sqlite3::text_laws::{lemma_nul_free, nul_free};

verus! {

// ---------------------------------------------------------------------------
// Patterns with % and _

/// The arguments of a match, with the character that takes its meaning from the next one, if there
/// is one.
pub open spec fn like_args(p: Seq<char>, v: Seq<char>, escape: Option<char>) -> Seq<SqlValue> {
    match escape {
        None => seq![SqlValue::Text(p), SqlValue::Text(v)],
        Some(e) => seq![SqlValue::Text(p), SqlValue::Text(v), SqlValue::Text(seq![e])],
    }
}

/// Whether a pattern matches a text.
pub open spec fn likes(f: Facts, p: Seq<char>, v: Seq<char>, escape: Option<char>, cased: bool) -> bool {
    answers(f, ScalarFunc::LikeFunc, like_args(p, v, escape), cased, SqlValue::Boolean(true))
}

/// Whether two characters are the same, or, where case does not count, the same letter of the
/// alphabet.
pub open spec fn same_letter(a: char, b: char, cased: bool) -> bool {
    ||| a == b
    ||| !cased && 'A' <= a <= 'Z' && b as int == a as int + 32
    ||| !cased && 'A' <= b <= 'Z' && a as int == b as int + 32
}

proof fn lemma_likes(f: Facts, p: Seq<char>, v: Seq<char>, escape: Option<char>, cased: bool)
    requires
        nul_free(v),
    ensures
        applied(f, ScalarFunc::LikeFunc, like_args(p, v, escape), cased) == Ok::<_, StopView>(
            SqlValue::Boolean(like_matches(v, tokens_of(p, escape), cased)),
        ),
        likes(f, p, v, escape, cased) <==> like_matches(v, tokens_of(p, escape), cased),
{
    lemma_nul_free(v);
    let args = like_args(p, v, escape);
    assert(args[0] == SqlValue::Text(p) && args[1] == SqlValue::Text(v));
    match escape {
        Some(e) => {
            assert(args.len() == 3 && args[2] == SqlValue::Text(seq![e]));
            assert(escape_char(Some(seq![e])) == Ok::<_, StopView>(Some(e)));
        },
        None => {
            assert(args.len() == 2);
        },
    }
}

/// What stands in a pattern at a place.
spec fn token_at(p: Seq<char>, escape: Option<char>, i: int) -> LikeToken {
    if escape == Some(p[i]) {
        LikeToken::Literal(
            if i + 1 < p.len() {
                p[i + 1]
            } else {
                p[i]
            },
        )
    } else if p[i] == '%' {
        LikeToken::Any
    } else if p[i] == '_' {
        LikeToken::One
    } else {
        LikeToken::Literal(p[i])
    }
}

proof fn lemma_tokens_from(p: Seq<char>, escape: Option<char>, i: int, done: Seq<LikeToken>)
    requires
        0 <= i <= p.len(),
    ensures
        tokens_from(p, escape, i, done) == done + tokens_of(p.skip(i), escape),
    decreases p.len() - i,
{
    let rest = p.skip(i);
    let none = Seq::<LikeToken>::empty();
    if i < p.len() {
        let step: int = if escape == Some(p[i]) && i + 1 < p.len() {
            2
        } else {
            1
        };
        let token: LikeToken = token_at(p, escape, i);
        assert(rest[0] == p[i]);
        if i + 1 < p.len() {
            assert(rest[1] == p[i + 1]);
        }
        let next = i + step;
        let one = none.push(token);
        lemma_tokens_from(p, escape, next, done.push(token));
        if i > 0 {
            lemma_tokens_from(rest, escape, step, one);
        } else {
            assert(rest =~= p);
            lemma_tokens_from(p, escape, step, one);
        }
        assert(rest.skip(step) =~= p.skip(next));
        let x = tokens_of(p.skip(next), escape);
        assert(one.len() == 1 && one[0] == token);
        assert(tokens_from(p, escape, i, done) == tokens_from(p, escape, next, done.push(token)));
        assert(tokens_of(rest, escape) == tokens_from(rest, escape, step, one));
        assert(tokens_of(rest, escape) == one + x);
        assert(done + (one + x) =~= done.push(token) + x);
    } else {
        assert(rest.len() == 0);
        assert(done + none =~= done);
    }
}

proof fn lemma_tokens_of(c: char, q: Seq<char>, escape: Option<char>)
    requires
        escape != Some(c),
    ensures
        tokens_of(seq![c] + q, escape).len() > 0,
        tokens_of(seq![c] + q, escape)[0] == if c == '%' {
            LikeToken::Any
        } else if c == '_' {
            LikeToken::One
        } else {
            LikeToken::Literal(c)
        },
        tokens_of(seq![c] + q, escape).drop_first() == tokens_of(q, escape),
{
    let p = seq![c] + q;
    assert(p[0] == c);
    let token = if c == '%' {
        LikeToken::Any
    } else if c == '_' {
        LikeToken::One
    } else {
        LikeToken::Literal(c)
    };
    let one = Seq::<LikeToken>::empty().push(token);
    lemma_tokens_from(p, escape, 1, one);
    assert(p.skip(1) =~= q);
    assert((one + tokens_of(q, escape)).drop_first() =~= tokens_of(q, escape));
}

proof fn lemma_any(v: Seq<char>, p: Seq<LikeToken>, cased: bool)
    requires
        p.len() > 0,
        p[0] is Any,
    ensures
        like_matches(v, p, cased) <==> exists|k: int|
            0 <= k <= v.len() && like_matches(#[trigger] v.skip(k), p.drop_first(), cased),
    decreases v.len(),
{
    let q = p.drop_first();
    assert(v.skip(0) =~= v);
    if v.len() > 0 {
        let w = v.drop_first();
        lemma_any(w, p, cased);
        if like_matches(w, p, cased) {
            let k = choose|k: int|
                0 <= k <= w.len() && like_matches(#[trigger] w.skip(k), q, cased);
            assert(w.skip(k) =~= v.skip(k + 1));
        }
        if exists|k: int| 0 <= k <= v.len() && like_matches(#[trigger] v.skip(k), q, cased) {
            let k = choose|k: int|
                0 <= k <= v.len() && like_matches(#[trigger] v.skip(k), q, cased);
            if k > 0 {
                assert(w.skip(k - 1) =~= v.skip(k));
            }
        }
    }
}

/// A pattern either matches a text or does not. The empty pattern matches the empty text. What
/// begins with a per cent sign matches where the rest matches behind any part of the text; what
/// begins with an underscore, where it matches behind one character; and what begins with another
/// character, where it matches behind that one.
pub proof fn law_patterns_match_character_by_character(
    f: Facts,
    c: char,
    q: Seq<char>,
    v: Seq<char>,
    escape: Option<char>,
    cased: bool,
)
    requires
        nul_free(v),
        escape != Some(c),
    ensures
        likes(f, Seq::empty(), v, escape, cased) <==> v.len() == 0,
        !likes(f, q, v, escape, cased) <==> answers(
            f,
            ScalarFunc::LikeFunc,
            like_args(q, v, escape),
            cased,
            SqlValue::Boolean(false),
        ),
        c == '%' ==> (likes(f, seq![c] + q, v, escape, cased) <==> exists|k: int|
            0 <= k <= v.len() && likes(f, q, #[trigger] v.skip(k), escape, cased)),
        c == '_' ==> (likes(f, seq![c] + q, v, escape, cased) <==> v.len() > 0 && likes(
            f,
            q,
            v.skip(1),
            escape,
            cased,
        )),
        c != '%' && c != '_' ==> (likes(f, seq![c] + q, v, escape, cased) <==> v.len() > 0
            && same_letter(v[0], c, cased) && likes(f, q, v.skip(1), escape, cased)),
{
    let p = seq![c] + q;
    lemma_likes(f, Seq::empty(), v, escape, cased);
    lemma_likes(f, q, v, escape, cased);
    lemma_likes(f, p, v, escape, cased);
    lemma_tokens_of(c, q, escape);
    assert(tokens_of(Seq::empty(), escape).len() == 0);
    assert forall|k: int| 0 <= k <= v.len() implies likes(
        f,
        q,
        #[trigger] v.skip(k),
        escape,
        cased,
    ) == like_matches(v.skip(k), tokens_of(q, escape), cased) by {
        assert(nul_free(v.skip(k)));
        lemma_likes(f, q, v.skip(k), escape, cased);
    }
    if c == '%' {
        lemma_any(v, tokens_of(p, escape), cased);
    } else if v.len() > 0 {
        assert(v.drop_first() =~= v.skip(1));
        assert(like_same(v[0], c, cased) == same_letter(v[0], c, cased));
    }
}

/// Behind the character that takes its meaning from the next one, every character stands for
/// itself.
pub proof fn law_escaped_characters_stand_for_themselves(
    f: Facts,
    e: char,
    c: char,
    q: Seq<char>,
    v: Seq<char>,
    cased: bool,
)
    requires
        nul_free(v),
    ensures
        likes(f, seq![e, c] + q, v, Some(e), cased) <==> v.len() > 0 && same_letter(v[0], c, cased)
            && likes(f, q, v.skip(1), Some(e), cased),
{
    let p = seq![e, c] + q;
    let escape = Some(e);
    let one = Seq::<LikeToken>::empty().push(LikeToken::Literal(c));
    assert(p[0] == e && p[1] == c);
    lemma_tokens_from(p, escape, 2, one);
    assert(p.skip(2) =~= q);
    assert((one + tokens_of(q, escape)).drop_first() =~= tokens_of(q, escape));
    lemma_likes(f, p, v, escape, cased);
    if v.len() > 0 {
        assert(nul_free(v.skip(1)));
        lemma_likes(f, q, v.skip(1), escape, cased);
        assert(v.drop_first() =~= v.skip(1));
        assert(like_same(v[0], c, cased) == same_letter(v[0], c, cased));
    }
}

/// The operator matches what the function matches, or the opposite where it is negated; with
/// nothing it gives nothing.
pub proof fn law_operators_match_as_functions_do(
    f: Facts,
    schema: Schema,
    row: Seq<SqlValue>,
    cased: bool,
    a: ScalarExpr,
    b: ScalarExpr,
    v: Seq<char>,
    p: Seq<char>,
    negated: bool,
    r: bool,
)
    requires
        nul_free(v),
        gives(f, schema, row, a, cased, SqlValue::Text(v)),
        gives(f, schema, row, b, cased, SqlValue::Text(p)),
    ensures
        says(
            f,
            schema,
            row,
            ScalarExpr::Like { expr: Box::new(a), pattern: Box::new(b), escape: None, negated },
            cased,
            r,
        ) <==> r == (likes(f, p, v, None, cased) != negated),
        says(
            f,
            schema,
            row,
            ScalarExpr::Glob { expr: Box::new(a), pattern: Box::new(b), negated },
            cased,
            r,
        ) <==> r == (globs(f, p, v, cased) != negated),
{
    lemma_likes(f, p, v, None, cased);
    lemma_globs(f, p, v, cased);
    lemma_nul_free(v);
}

// ---------------------------------------------------------------------------
// Patterns with * and ?

/// Whether a pattern with stars and question marks matches a text.
pub open spec fn globs(f: Facts, p: Seq<char>, v: Seq<char>, cased: bool) -> bool {
    answers(
        f,
        ScalarFunc::GlobFunc,
        seq![SqlValue::Text(p), SqlValue::Text(v)],
        cased,
        SqlValue::Boolean(true),
    )
}

proof fn lemma_globs(f: Facts, p: Seq<char>, v: Seq<char>, cased: bool)
    requires
        nul_free(v),
    ensures
        applied(f, ScalarFunc::GlobFunc, seq![SqlValue::Text(p), SqlValue::Text(v)], cased) == Ok::<
            _,
            StopView,
        >(SqlValue::Boolean(glob_from(v, 0, p, 0))),
        globs(f, p, v, cased) <==> glob_from(v, 0, p, 0),
        glob(v, p) == glob_from(v, 0, p, 0),
{
    lemma_nul_free(v);
    let args = seq![SqlValue::Text(p), SqlValue::Text(v)];
    assert(args.len() == 2 && args[0] == SqlValue::Text(p) && args[1] == SqlValue::Text(v));
}

proof fn lemma_class_behind(
    p: Seq<char>,
    n: int,
    i: int,
    c: char,
    negated: bool,
    matched: bool,
    saw_member: bool,
)
    requires
        0 <= n <= p.len(),
        0 <= i,
    ensures
        class_from(p, n + i, c, negated, matched, saw_member) == (match class_from(
            p.skip(n),
            i,
            c,
            negated,
            matched,
            saw_member,
        ) {
            None => None::<(bool, int)>,
            Some((m, e)) => Some((m, n + e)),
        }),
    decreases p.len() - n - i,
{
    let q = p.skip(n);
    if n + i < p.len() {
        assert(q[i] == p[n + i]);
        if !(p[n + i] == ']' && saw_member) {
            if n + i + 2 < p.len() {
                assert(q[i + 1] == p[n + i + 1] && q[i + 2] == p[n + i + 2]);
            }
            if n + i + 2 < p.len() && p[n + i + 1] == '-' && p[n + i + 2] != ']' {
                lemma_class_behind(
                    p,
                    n,
                    i + 3,
                    c,
                    negated,
                    matched || p[n + i] <= c <= p[n + i + 2],
                    true,
                );
            } else {
                lemma_class_behind(p, n, i + 1, c, negated, matched || p[n + i] == c, true);
            }
        }
    }
}

proof fn lemma_class_at_behind(p: Seq<char>, n: int, i: int, c: char)
    requires
        0 <= n <= p.len(),
        0 <= i,
    ensures
        class_at(p, n + i, c) == (match class_at(p.skip(n), i, c) {
            None => None::<(bool, int)>,
            Some((m, e)) => Some((m, n + e)),
        }),
{
    if n + i + 1 < p.len() {
        assert(p.skip(n)[i + 1] == p[n + i + 1]);
    }
    lemma_class_behind(p, n, i + 2, c, true, false, false);
    lemma_class_behind(p, n, i + 1, c, false, false, false);
}

proof fn lemma_glob_behind(v: Seq<char>, m: int, i: int, p: Seq<char>, n: int, k: int)
    requires
        0 <= m <= v.len(),
        0 <= n <= p.len(),
        0 <= i,
        0 <= k,
    ensures
        glob_from(v, m + i, p, n + k) == glob_from(v.skip(m), i, p.skip(n), k),
    decreases p.len() - n - k, v.len() - m - i,
{
    let (w, q) = (v.skip(m), p.skip(n));
    if m + i <= v.len() && n + k < p.len() {
        assert(q[k] == p[n + k]);
        if m + i < v.len() {
            assert(w[i] == v[m + i]);
        }
        if p[n + k] == '*' {
            lemma_glob_behind(v, m, i, p, n, k + 1);
            if m + i < v.len() {
                lemma_glob_behind(v, m, i + 1, p, n, k);
            }
        } else if m + i < v.len() {
            if p[n + k] == '[' {
                lemma_class_at_behind(p, n, k, v[m + i]);
                match class_at(q, k, w[i]) {
                    Some((x, e)) => {
                        if x && k < e <= q.len() {
                            lemma_glob_behind(v, m, i + 1, p, n, e);
                        }
                    },
                    None => {},
                }
            } else {
                lemma_glob_behind(v, m, i + 1, p, n, k + 1);
            }
        }
    }
}

proof fn lemma_star(v: Seq<char>, i: int, p: Seq<char>)
    requires
        0 <= i <= v.len(),
        p.len() > 0,
        p[0] == '*',
    ensures
        glob_from(v, i, p, 0) <==> exists|k: int| i <= k <= v.len() && #[trigger] glob_from(v, k, p, 1),
    decreases v.len() - i,
{
    if i < v.len() {
        lemma_star(v, i + 1, p);
        if glob_from(v, i + 1, p, 0) {
            let k = choose|k: int| i + 1 <= k <= v.len() && #[trigger] glob_from(v, k, p, 1);
            assert(i <= k <= v.len() && glob_from(v, k, p, 1));
        }
    }
    assert(glob_from(v, i, p, 0) == (glob_from(v, i, p, 1) || (i < v.len() && glob_from(
        v,
        i + 1,
        p,
        0,
    ))));
    if exists|k: int| i <= k <= v.len() && #[trigger] glob_from(v, k, p, 1) {
        let k = choose|k: int| i <= k <= v.len() && #[trigger] glob_from(v, k, p, 1);
        if k > i {
            assert(i + 1 <= k <= v.len() && glob_from(v, k, p, 1));
        }
    }
}

/// The empty pattern matches the empty text. What begins with a star matches where the rest
/// matches behind any part of the text; what begins with a question mark, where it matches behind
/// one character; and what begins with another character but a bracket, where it matches behind
/// that one.
pub proof fn law_globs_match_character_by_character(
    f: Facts,
    c: char,
    q: Seq<char>,
    v: Seq<char>,
    cased: bool,
)
    requires
        nul_free(v),
    ensures
        globs(f, Seq::empty(), v, cased) <==> v.len() == 0,
        !globs(f, q, v, cased) <==> answers(
            f,
            ScalarFunc::GlobFunc,
            seq![SqlValue::Text(q), SqlValue::Text(v)],
            cased,
            SqlValue::Boolean(false),
        ),
        c == '*' ==> (globs(f, seq![c] + q, v, cased) <==> exists|k: int|
            0 <= k <= v.len() && globs(f, q, #[trigger] v.skip(k), cased)),
        c == '?' ==> (globs(f, seq![c] + q, v, cased) <==> v.len() > 0 && globs(
            f,
            q,
            v.skip(1),
            cased,
        )),
        c != '*' && c != '?' && c != '[' ==> (globs(f, seq![c] + q, v, cased) <==> v.len() > 0
            && v[0] == c && globs(f, q, v.skip(1), cased)),
{
    let p = seq![c] + q;
    assert(p[0] == c);
    assert(p.skip(1) =~= q);
    lemma_globs(f, Seq::empty(), v, cased);
    lemma_globs(f, q, v, cased);
    lemma_globs(f, p, v, cased);
    assert forall|k: int| 0 <= k <= v.len() implies globs(f, q, #[trigger] v.skip(k), cased)
        == glob_from(v, k, p, 1) by {
        assert(nul_free(v.skip(k)));
        lemma_globs(f, q, v.skip(k), cased);
        lemma_glob_behind(v, k, 0, p, 1, 0);
    }
    if c == '*' {
        lemma_star(v, 0, p);
        if exists|k: int| 0 <= k <= v.len() && globs(f, q, #[trigger] v.skip(k), cased) {
            let k = choose|k: int| 0 <= k <= v.len() && globs(f, q, #[trigger] v.skip(k), cased);
            assert(glob_from(v, k, p, 1));
        }
        if glob_from(v, 0, p, 0) {
            let k = choose|k: int| 0 <= k <= v.len() && #[trigger] glob_from(v, k, p, 1);
            assert(globs(f, q, v.skip(k), cased));
        }
    } else if v.len() > 0 {
        assert(globs(f, q, v.skip(1), cased) == glob_from(v, 1, p, 1));
    }
}

/// A character between brackets stands for itself, two with a dash between them for all from the
/// one to the other; behind a caret the opposite counts.
pub proof fn law_brackets_stand_for_one_of_their_characters(
    f: Facts,
    x: char,
    y: char,
    q: Seq<char>,
    v: Seq<char>,
    cased: bool,
)
    requires
        nul_free(v),
        x != ']' && x != '^',
        y != ']',
    ensures
        globs(f, seq!['[', x, ']'] + q, v, cased) <==> v.len() > 0 && v[0] == x && globs(
            f,
            q,
            v.skip(1),
            cased,
        ),
        globs(f, seq!['[', '^', x, ']'] + q, v, cased) <==> v.len() > 0 && v[0] != x && globs(
            f,
            q,
            v.skip(1),
            cased,
        ),
        globs(f, seq!['[', x, '-', y, ']'] + q, v, cased) <==> v.len() > 0 && x <= v[0] <= y
            && globs(f, q, v.skip(1), cased),
{
    lemma_one_bracket(f, x, q, v, cased);
    lemma_one_caret(f, x, q, v, cased);
    lemma_one_range(f, x, y, q, v, cased);
}

proof fn lemma_one_bracket(f: Facts, x: char, q: Seq<char>, v: Seq<char>, cased: bool)
    requires
        nul_free(v),
        x != ']' && x != '^',
    ensures
        globs(f, seq!['[', x, ']'] + q, v, cased) <==> v.len() > 0 && v[0] == x && globs(
            f,
            q,
            v.skip(1),
            cased,
        ),
{
    let p = seq!['[', x, ']'] + q;
    assert(p[0] == '[' && p[1] == x && p[2] == ']');
    assert(p.skip(3) =~= q);
    lemma_globs(f, p, v, cased);
    if v.len() > 0 {
        let c = v[0];
        assert(nul_free(v.skip(1)));
        lemma_globs(f, q, v.skip(1), cased);
        lemma_glob_behind(v, 1, 0, p, 3, 0);
        assert(class_from(p, 2, c, false, x == c, true) == Some((x == c, 3int)));
        assert(class_from(p, 1, c, false, false, false) == Some((x == c, 3int)));
        assert(class_at(p, 0, c) == Some((x == c, 3int)));
    }
}

proof fn lemma_one_caret(f: Facts, x: char, q: Seq<char>, v: Seq<char>, cased: bool)
    requires
        nul_free(v),
        x != ']',
    ensures
        globs(f, seq!['[', '^', x, ']'] + q, v, cased) <==> v.len() > 0 && v[0] != x && globs(
            f,
            q,
            v.skip(1),
            cased,
        ),
{
    let p = seq!['[', '^', x, ']'] + q;
    assert(p[0] == '[' && p[1] == '^' && p[2] == x && p[3] == ']');
    assert(p.skip(4) =~= q);
    lemma_globs(f, p, v, cased);
    if v.len() > 0 {
        let c = v[0];
        assert(nul_free(v.skip(1)));
        lemma_globs(f, q, v.skip(1), cased);
        lemma_glob_behind(v, 1, 0, p, 4, 0);
        assert(class_from(p, 3, c, true, x == c, true) == Some((x != c, 4int)));
        assert(class_from(p, 2, c, true, false, false) == Some((x != c, 4int)));
        assert(class_at(p, 0, c) == Some((x != c, 4int)));
    }
}

proof fn lemma_one_range(f: Facts, x: char, y: char, q: Seq<char>, v: Seq<char>, cased: bool)
    requires
        nul_free(v),
        x != '^',
        y != ']',
    ensures
        globs(f, seq!['[', x, '-', y, ']'] + q, v, cased) <==> v.len() > 0 && x <= v[0] <= y
            && globs(f, q, v.skip(1), cased),
{
    let p = seq!['[', x, '-', y, ']'] + q;
    assert(p[0] == '[' && p[1] == x && p[2] == '-' && p[3] == y && p[4] == ']');
    assert(p.skip(5) =~= q);
    lemma_globs(f, p, v, cased);
    if v.len() > 0 {
        let c = v[0];
        assert(nul_free(v.skip(1)));
        lemma_globs(f, q, v.skip(1), cased);
        lemma_glob_behind(v, 1, 0, p, 5, 0);
        let m = x <= c <= y;
        assert(class_from(p, 4, c, false, m, true) == Some((m, 5int)));
        assert(class_from(p, 1, c, false, false, false) == Some((m, 5int)));
        assert(class_at(p, 0, c) == Some((m, 5int)));
    }
}

// ---------------------------------------------------------------------------
// Regular expressions

/// Whether a pattern has only characters that stand for themselves.
pub open spec fn is_plain(p: Seq<char>) -> bool {
    forall|k: int|
        0 <= k < p.len() ==> #[trigger] p[k] != '.' && p[k] != '[' && p[k] != '*' && p[k] != '$'
            && p[k] != '^'
}

proof fn lemma_here(p: Seq<char>, k: int, v: Seq<char>, i: int)
    requires
        0 <= k <= p.len(),
        0 <= i <= v.len(),
        forall|j: int|
            k <= j < p.len() ==> #[trigger] p[j] != '.' && p[j] != '[' && p[j] != '*' && p[j] != '$',
    ensures
        regexp_here(p, k, v, i) == Ok::<_, StopView>(occurs_at(v, p.skip(k), i)),
    decreases p.len() - k,
{
    let rest = p.skip(k);
    if k < p.len() {
        assert(rest[0] == p[k]);
        if k + 1 < p.len() {
            assert(p[k + 1] != '*');
        }
        if i < v.len() {
            lemma_here(p, k + 1, v, i + 1);
            let more = p.skip(k + 1);
            assert(rest =~= seq![p[k]] + more);
            if i + rest.len() <= v.len() {
                let part = v.subrange(i, i + rest.len());
                let tail = v.subrange(i + 1, i + rest.len());
                assert(part =~= seq![v[i]] + tail);
                assert(part.skip(1) =~= tail);
                assert(rest.skip(1) =~= more);
                assert(part[0] == v[i]);
            }
        }
    } else {
        assert(rest.len() == 0);
        assert(v.subrange(i, i + 0) =~= rest);
    }
}

proof fn lemma_search(p: Seq<char>, v: Seq<char>, i: int)
    requires
        0 <= i <= v.len() + 1,
        is_plain(p),
    ensures
        regexp_search(p, v, i) == Ok::<_, StopView>(
            exists|k: int| i <= k <= v.len() && #[trigger] occurs_at(v, p, k),
        ),
    decreases v.len() + 1 - i,
{
    if i <= v.len() {
        lemma_here(p, 0, v, i);
        assert(p.skip(0) =~= p);
        lemma_search(p, v, i + 1);
        if exists|k: int| i <= k <= v.len() && #[trigger] occurs_at(v, p, k) {
            let k = choose|k: int| i <= k <= v.len() && #[trigger] occurs_at(v, p, k);
            if k > i {
                assert(i + 1 <= k <= v.len() && occurs_at(v, p, k));
            }
        }
    }
}

/// A regular expression of plain characters matches where they stand in the text one behind the
/// other, and behind a caret where the text begins with them.
pub proof fn law_plain_expressions_match_what_they_spell(
    f: Facts,
    p: Seq<char>,
    v: Seq<char>,
    cased: bool,
)
    requires
        nul_free(v),
        is_plain(p),
    ensures
        answers(
            f,
            ScalarFunc::RegexpFunc,
            seq![SqlValue::Text(p), SqlValue::Text(v)],
            cased,
            SqlValue::Boolean(
                exists|k: int|
                    0 <= k <= v.len() - p.len() && #[trigger] v.subrange(k, k + p.len()) == p,
            ),
        ),
        answers(
            f,
            ScalarFunc::RegexpFunc,
            seq![SqlValue::Text(seq!['^'] + p), SqlValue::Text(v)],
            cased,
            SqlValue::Boolean(p.len() <= v.len() && v.take(p.len() as int) == p),
        ),
{
    lemma_nul_free(v);
    lemma_search(p, v, 0);
    if p.len() > 0 {
        assert(p[0] != '^');
    }
    let found = exists|k: int| 0 <= k <= v.len() && #[trigger] occurs_at(v, p, k);
    let stands = exists|k: int|
        0 <= k <= v.len() - p.len() && #[trigger] v.subrange(k, k + p.len()) == p;
    if found {
        let k = choose|k: int| 0 <= k <= v.len() && #[trigger] occurs_at(v, p, k);
        assert(v.subrange(k, k + p.len()) == p);
    }
    if stands {
        let k = choose|k: int|
            0 <= k <= v.len() - p.len() && #[trigger] v.subrange(k, k + p.len()) == p;
        assert(occurs_at(v, p, k));
    }
    assert(regexp(p, v) == Ok::<_, StopView>(stands));
    let args = seq![SqlValue::Text(p), SqlValue::Text(v)];
    assert(args.len() == 2 && args[0] == SqlValue::Text(p) && args[1] == SqlValue::Text(v));
    let q = seq!['^'] + p;
    assert(q[0] == '^');
    assert forall|j: int| 1 <= j < q.len() implies #[trigger] q[j] != '.' && q[j] != '[' && q[j]
        != '*' && q[j] != '$' by {
        assert(q[j] == p[j - 1]);
    }
    lemma_here(q, 1, v, 0);
    assert(q.skip(1) =~= p);
    if p.len() <= v.len() {
        assert(v.take(p.len() as int) =~= v.subrange(0, p.len() as int));
    }
    let more = seq![SqlValue::Text(q), SqlValue::Text(v)];
    assert(more.len() == 2 && more[0] == SqlValue::Text(q) && more[1] == SqlValue::Text(v));
}

/// Whether a regular expression that is tied to the start of a text matches it.
pub open spec fn matches_at_start(f: Facts, p: Seq<char>, v: Seq<char>, cased: bool) -> bool {
    answers(
        f,
        ScalarFunc::RegexpFunc,
        seq![SqlValue::Text(seq!['^'] + p), SqlValue::Text(v)],
        cased,
        SqlValue::Boolean(true),
    )
}

proof fn lemma_matches_at_start(f: Facts, p: Seq<char>, v: Seq<char>, cased: bool)
    requires
        nul_free(v),
    ensures
        matches_at_start(f, p, v, cased) <==> regexp_here(p, 0, v, 0) == Ok::<_, StopView>(true),
{
    lemma_nul_free(v);
    let q = seq!['^'] + p;
    assert(q[0] == '^');
    assert(q.skip(1) =~= p);
    let args = seq![SqlValue::Text(q), SqlValue::Text(v)];
    assert(args.len() == 2 && args[0] == SqlValue::Text(q) && args[1] == SqlValue::Text(v));
    assert(v.skip(0) =~= v);
    lemma_here_behind(q, 1, 0, v, 0, 0);
}

proof fn lemma_atom_behind(p: Seq<char>, n: int, k: int, c: char)
    requires
        0 <= n,
        0 <= k,
        n + k < p.len(),
    ensures
        atom_at(p, n + k, c) == (match atom_at(p.skip(n), k, c) {
            Err(e) => Err::<(bool, int), StopView>(e),
            Ok((m, e)) => Ok((m, n + e)),
        }),
{
    assert(p.skip(n)[k] == p[n + k]);
    lemma_class_at_behind(p, n, k, c);
}

proof fn lemma_here_behind(p: Seq<char>, n: int, k: int, v: Seq<char>, m: int, i: int)
    requires
        0 <= n <= p.len(),
        0 <= k,
        0 <= m <= v.len(),
        0 <= i,
    ensures
        regexp_here(p, n + k, v, m + i) == regexp_here(p.skip(n), k, v.skip(m), i),
    decreases p.len() - n - k, 0int,
{
    let (q, w) = (p.skip(n), v.skip(m));
    if n + k < p.len() && m + i <= v.len() {
        assert(q[k] == p[n + k]);
        if !(p[n + k] == '$' && n + k + 1 == p.len()) {
            lemma_atom_behind(p, n, k, '\0');
            match atom_at(q, k, '\0') {
                Ok((_, e)) => {
                    if k < e < q.len() {
                        assert(q[e] == p[n + e]);
                    }
                    if k < e < q.len() && q[e] == '*' {
                        lemma_star_behind(p, n, k, e + 1, v, m, i);
                    } else if m + i < v.len() {
                        assert(w[i] == v[m + i]);
                        lemma_atom_behind(p, n, k, v[m + i]);
                        match atom_at(q, k, w[i]) {
                            Ok((x, z)) => {
                                if x && k < z <= q.len() {
                                    lemma_here_behind(p, n, z, v, m, i + 1);
                                }
                            },
                            Err(_) => {},
                        }
                    }
                },
                Err(_) => {},
            }
        }
    }
}

proof fn lemma_star_behind(p: Seq<char>, n: int, atom: int, rest: int, v: Seq<char>, m: int, i: int)
    requires
        0 <= n <= p.len(),
        0 <= atom,
        atom < rest,
        n + atom < p.len(),
        0 <= m <= v.len(),
        0 <= i,
    ensures
        regexp_star(p, n + atom, n + rest, v, m + i) == regexp_star(
            p.skip(n),
            atom,
            rest,
            v.skip(m),
            i,
        ),
    decreases p.len() - n - rest, v.len() - m - i + 1,
{
    let (q, w) = (p.skip(n), v.skip(m));
    if n + rest <= p.len() && m + i <= v.len() {
        lemma_here_behind(p, n, rest, v, m, i);
        if m + i < v.len() {
            assert(w[i] == v[m + i]);
            lemma_atom_behind(p, n, atom, v[m + i]);
            lemma_star_behind(p, n, atom, rest, v, m, i + 1);
        }
    }
}

/// Tied to the start, the empty expression matches every text. What begins with a point matches
/// where the rest matches behind one character, what begins with a plain character where it
/// matches behind that one, and a dollar sign alone matches the empty text.
pub proof fn law_expressions_match_character_by_character(
    f: Facts,
    c: char,
    q: Seq<char>,
    v: Seq<char>,
    cased: bool,
)
    requires
        nul_free(v),
        c != '[' && c != '$',
        q.len() > 0 ==> q[0] != '*',
    ensures
        matches_at_start(f, Seq::empty(), v, cased),
        matches_at_start(f, seq!['$'], v, cased) <==> v.len() == 0,
        matches_at_start(f, seq![c] + q, v, cased) <==> v.len() > 0 && (c == '.' || v[0] == c)
            && matches_at_start(f, q, v.skip(1), cased),
{
    let p = seq![c] + q;
    assert(p[0] == c);
    assert(p.skip(1) =~= q);
    if q.len() > 0 {
        assert(p[1] == q[0]);
    }
    lemma_matches_at_start(f, Seq::empty(), v, cased);
    lemma_matches_at_start(f, seq!['$'], v, cased);
    lemma_matches_at_start(f, p, v, cased);
    if v.len() > 0 {
        assert(nul_free(v.skip(1)));
        lemma_matches_at_start(f, q, v.skip(1), cased);
        lemma_here_behind(p, 1, 0, v, 1, 0);
    }
}

/// A character or a point before a star stands for any number of such characters, and none too.
pub proof fn law_stars_repeat_what_is_before_them(
    f: Facts,
    c: char,
    q: Seq<char>,
    v: Seq<char>,
    cased: bool,
)
    requires
        nul_free(v),
        c != '[' && c != '$',
        regexp_here(q, 0, v, 0) is Ok,
    ensures
        matches_at_start(f, seq![c, '*'] + q, v, cased) <==> matches_at_start(f, q, v, cased) || (
        v.len() > 0 && (c == '.' || v[0] == c) && matches_at_start(
            f,
            seq![c, '*'] + q,
            v.skip(1),
            cased,
        )),
{
    let p = seq![c, '*'] + q;
    assert(p[0] == c && p[1] == '*');
    assert(p.skip(2) =~= q);
    assert(p.skip(0) =~= p);
    assert(v.skip(0) =~= v);
    lemma_matches_at_start(f, p, v, cased);
    lemma_matches_at_start(f, q, v, cased);
    lemma_here_behind(p, 2, 0, v, 0, 0);
    assert(regexp_here(p, 2, v, 0) is Ok);
    assert(regexp_here(p, 0, v, 0) == regexp_star(p, 0, 2, v, 0));
    if v.len() > 0 {
        let w = v.skip(1);
        assert(nul_free(w));
        lemma_matches_at_start(f, p, w, cased);
        lemma_star_behind(p, 0, 0, 2, v, 1, 0);
        assert(regexp_here(p, 0, w, 0) == regexp_star(p, 0, 2, w, 0));
    }
}

} // verus!
