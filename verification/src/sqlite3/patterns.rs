//! Matching texts against the patterns of `LIKE`, `GLOB` and `REGEXP`.

use vstd::prelude::*;

use crate::common::text::char_vec;
use crate::sqlite3::reals::{fail, plain_view, storage_stop, Eval, StopView};
use crate::sqlite3::strings::{before_nul, lower_char, text_before_nul, to_lower};

verus! {

// ---------------------------------------------------------------------------
// LIKE

/// A part of a `LIKE` pattern.
#[derive(Debug, Clone, Copy, PartialEq, Eq, Structural)]
pub enum LikeToken {
    /// Any characters, or none.
    Any,
    /// One character.
    One,
    /// This character.
    Literal(char),
}

/// The escape character of a pattern, from the text that gives it.
pub open spec fn escape_char(escape: Option<Seq<char>>) -> Result<Option<char>, StopView> {
    match escape {
        None => Ok(None),
        Some(t) => if t.len() == 1 {
            Ok(Some(t[0]))
        } else {
            Err(storage_stop("ESCAPE expression must be a single character"@))
        },
    }
}

/// The escape character of a pattern, from the text that gives it.
pub fn like_escape_char(escape: Option<&str>) -> (r: Eval<Option<char>>)
    ensures
        plain_view(r) == escape_char(
            match escape {
                Some(t) => Some(t@),
                None => None,
            },
        ),
{
    match escape {
        None => Ok(None),
        Some(t) => {
            let c = char_vec(t);
            if c.len() == 1 {
                Ok(Some(c[0]))
            } else {
                Err(fail("ESCAPE expression must be a single character"))
            }
        },
    }
}

/// The parts of a pattern from a position on, behind those before it.
pub open spec fn tokens_from(
    p: Seq<char>,
    escape: Option<char>,
    i: int,
    done: Seq<LikeToken>,
) -> Seq<LikeToken>
    decreases p.len() - i,
{
    if i < 0 || i >= p.len() {
        done
    } else if escape == Some(p[i]) {
        if i + 1 < p.len() {
            tokens_from(p, escape, i + 2, done.push(LikeToken::Literal(p[i + 1])))
        } else {
            done.push(LikeToken::Literal(p[i]))
        }
    } else if p[i] == '%' {
        tokens_from(p, escape, i + 1, done.push(LikeToken::Any))
    } else if p[i] == '_' {
        tokens_from(p, escape, i + 1, done.push(LikeToken::One))
    } else {
        tokens_from(p, escape, i + 1, done.push(LikeToken::Literal(p[i])))
    }
}

/// The parts of a pattern.
pub open spec fn tokens_of(p: Seq<char>, escape: Option<char>) -> Seq<LikeToken> {
    tokens_from(p, escape, 0, Seq::empty())
}

/// Splits a pattern into its parts.
pub fn like_tokens(pattern: &str, escape: Option<char>) -> (r: Vec<LikeToken>)
    ensures
        r@ == tokens_of(pattern@, escape),
{
    let p = char_vec(pattern);
    let mut r: Vec<LikeToken> = Vec::new();
    let mut i: usize = 0;
    while i < p.len()
        invariant
            p@ == pattern@,
            i <= p@.len(),
            tokens_from(p@, escape, i as int, r@) == tokens_of(pattern@, escape),
        decreases p@.len() - i,
    {
        let escaped = match escape {
            Some(e) => e == p[i],
            None => false,
        };
        if escaped {
            if i + 1 < p.len() {
                r.push(LikeToken::Literal(p[i + 1]));
                i = i + 2;
            } else {
                r.push(LikeToken::Literal(p[i]));
                return r;
            }
        } else {
            if p[i] == '%' {
                r.push(LikeToken::Any);
            } else if p[i] == '_' {
                r.push(LikeToken::One);
            } else {
                r.push(LikeToken::Literal(p[i]));
            }
            i = i + 1;
        }
    }
    r
}

/// Whether a character is one of a pattern: but for case where both are of ASCII.
pub open spec fn like_same(a: char, b: char, case_sensitive: bool) -> bool {
    if !case_sensitive && (a as int) < 128 && (b as int) < 128 {
        lower_char(a) == lower_char(b)
    } else {
        a == b
    }
}

/// Whether a character is one of a pattern.
pub fn sqlite_like_chars_equal(a: char, b: char, case_sensitive: bool) -> (r: bool)
    ensures
        r == like_same(a, b, case_sensitive),
{
    if !case_sensitive && (a as u32) < 128 && (b as u32) < 128 {
        to_lower(a) == to_lower(b)
    } else {
        a == b
    }
}

/// Whether a text matches the parts of a pattern.
pub open spec fn like_matches(v: Seq<char>, p: Seq<LikeToken>, case_sensitive: bool) -> bool
    decreases p.len(), v.len(),
{
    if p.len() == 0 {
        v.len() == 0
    } else {
        match p[0] {
            LikeToken::Any => like_matches(v, p.drop_first(), case_sensitive) || (v.len() > 0
                && like_matches(v.drop_first(), p, case_sensitive)),
            LikeToken::One => v.len() > 0 && like_matches(
                v.drop_first(),
                p.drop_first(),
                case_sensitive,
            ),
            LikeToken::Literal(c) => v.len() > 0 && like_same(v[0], c, case_sensitive)
                && like_matches(v.drop_first(), p.drop_first(), case_sensitive),
        }
    }
}

fn like_inner(v: &Vec<char>, i: usize, p: &Vec<LikeToken>, k: usize, case_sensitive: bool) -> (r:
    bool)
    requires
        i <= v@.len(),
        k <= p@.len(),
    ensures
        r == like_matches(v@.skip(i as int), p@.skip(k as int), case_sensitive),
    decreases p@.len() - k,
{
    let ghost rest = v@.skip(i as int);
    if k == p.len() {
        return i == v.len();
    }
    assert(p@.skip(k as int).drop_first() =~= p@.skip(k + 1));
    match p[k] {
        LikeToken::Any => {
            let total: usize = v.len();
            let parts: usize = p.len();
            let mut n: usize = i;
            while n <= total
                invariant
                    total == v@.len(),
                    i <= n <= total + 1,
                    k < parts == p@.len(),
                    p@[k as int] is Any,
                    p@.skip(k as int).drop_first() == p@.skip(k + 1),
                    n <= total ==> like_matches(v@.skip(n as int), p@.skip(k as int), case_sensitive)
                        == like_matches(v@.skip(i as int), p@.skip(k as int), case_sensitive),
                    n > total ==> !like_matches(
                        v@.skip(i as int),
                        p@.skip(k as int),
                        case_sensitive,
                    ),
                decreases total + 1 - n,
            {
                assert(p@.skip(k as int)[0] == p@[k as int]);
                if like_inner(v, n, p, k + 1, case_sensitive) {
                    return true;
                }
                if n == total {
                    return false;
                }
                assert(v@.skip(n as int).drop_first() =~= v@.skip(n + 1));
                n = n + 1;
            }
            false
        },
        LikeToken::One => {
            if i == v.len() {
                return false;
            }
            assert(rest.drop_first() =~= v@.skip(i + 1));
            like_inner(v, i + 1, p, k + 1, case_sensitive)
        },
        LikeToken::Literal(c) => {
            if i == v.len() {
                return false;
            }
            assert(rest.drop_first() =~= v@.skip(i + 1));
            sqlite_like_chars_equal(v[i], c, case_sensitive) && like_inner(
                v,
                i + 1,
                p,
                k + 1,
                case_sensitive,
            )
        },
    }
}

/// Whether a text, up to its first zero character, matches a `LIKE` pattern.
pub open spec fn like(
    v: Seq<char>,
    pattern: Seq<char>,
    escape: Option<Seq<char>>,
    case_sensitive: bool,
) -> Result<bool, StopView> {
    match escape_char(escape) {
        Err(s) => Err(s),
        Ok(e) => Ok(like_matches(before_nul(v), tokens_of(pattern, e), case_sensitive)),
    }
}

/// Whether a text matches a `LIKE` pattern.
pub fn matches_like_pattern(
    value: &str,
    pattern: &str,
    escape: Option<&str>,
    case_sensitive: bool,
) -> (r: Eval<bool>)
    ensures
        plain_view(r) == like(
            value@,
            pattern@,
            match escape {
                Some(t) => Some(t@),
                None => None,
            },
            case_sensitive,
        ),
{
    let e = like_escape_char(escape)?;
    let v = char_vec(text_before_nul(value).as_str());
    let p = like_tokens(pattern, e);
    assert(v@.skip(0) =~= v@ && p@.skip(0) =~= p@);
    Ok(like_inner(&v, 0, &p, 0, case_sensitive))
}

// ---------------------------------------------------------------------------
// Classes of characters

/// What a class in brackets says of a character, and where it ends, from a position in it on.
/// The first member may be a closing bracket.
pub open spec fn class_from(
    p: Seq<char>,
    i: int,
    c: char,
    negated: bool,
    matched: bool,
    saw_member: bool,
) -> Option<(bool, int)>
    decreases p.len() - i,
{
    if i < 0 || i >= p.len() {
        None
    } else if p[i] == ']' && saw_member {
        Some((matched != negated, i + 1))
    } else if i + 2 < p.len() && p[i + 1] == '-' && p[i + 2] != ']' {
        class_from(p, i + 3, c, negated, matched || p[i] <= c <= p[i + 2], true)
    } else {
        class_from(p, i + 1, c, negated, matched || p[i] == c, true)
    }
}

/// What the class that starts at a position says of a character, and where it ends.
pub open spec fn class_at(p: Seq<char>, i: int, c: char) -> Option<(bool, int)> {
    if i + 1 < p.len() && p[i + 1] == '^' {
        class_from(p, i + 2, c, true, false, false)
    } else {
        class_from(p, i + 1, c, false, false, false)
    }
}

fn read_class(p: &Vec<char>, start: usize, c: char) -> (r: Option<(bool, usize)>)
    requires
        start < p@.len(),
    ensures
        match r {
            Some((m, e)) => class_at(p@, start as int, c) == Some((m, e as int)) && start < e
                <= p@.len(),
            None => class_at(p@, start as int, c) is None,
        },
{
    let total: usize = p.len();
    let mut i: usize = start + 1;
    let negated = i < p.len() && p[i] == '^';
    if negated {
        i = i + 1;
    }
    let mut matched = false;
    let mut saw_member = false;
    while i < p.len()
        invariant
            start < i <= p@.len(),
            class_from(p@, i as int, c, negated, matched, saw_member) == class_at(
                p@,
                start as int,
                c,
            ),
        decreases p@.len() - i,
    {
        if p[i] == ']' && saw_member {
            return Some((matched != negated, i + 1));
        }
        if p.len() - i > 2 && p[i + 1] == '-' && p[i + 2] != ']' {
            if p[i] <= c && c <= p[i + 2] {
                matched = true;
            }
            i = i + 3;
        } else {
            if p[i] == c {
                matched = true;
            }
            i = i + 1;
        }
        saw_member = true;
    }
    None
}

// ---------------------------------------------------------------------------
// GLOB

/// Whether the text from a position on matches the pattern from a position on.
pub open spec fn glob_from(v: Seq<char>, i: int, p: Seq<char>, k: int) -> bool
    decreases p.len() - k, v.len() - i,
{
    if i < 0 || k < 0 || i > v.len() || k > p.len() {
        false
    } else if k == p.len() {
        i == v.len()
    } else if p[k] == '*' {
        glob_from(v, i, p, k + 1) || (i < v.len() && glob_from(v, i + 1, p, k))
    } else if i == v.len() {
        false
    } else if p[k] == '?' {
        glob_from(v, i + 1, p, k + 1)
    } else if p[k] == '[' {
        match class_at(p, k, v[i]) {
            None => false,
            Some((m, e)) => m && k < e <= p.len() && glob_from(v, i + 1, p, e),
        }
    } else {
        v[i] == p[k] && glob_from(v, i + 1, p, k + 1)
    }
}

fn glob_inner(v: &Vec<char>, i: usize, p: &Vec<char>, k: usize) -> (r: bool)
    requires
        i <= v@.len(),
        k <= p@.len(),
    ensures
        r == glob_from(v@, i as int, p@, k as int),
    decreases p@.len() - k, v@.len() - i,
{
    if k == p.len() {
        return i == v.len();
    }
    if p[k] == '*' {
        return glob_inner(v, i, p, k + 1) || (i < v.len() && glob_inner(v, i + 1, p, k));
    }
    if i == v.len() {
        return false;
    }
    if p[k] == '?' {
        return glob_inner(v, i + 1, p, k + 1);
    }
    if p[k] == '[' {
        return match read_class(p, k, v[i]) {
            None => false,
            Some((m, e)) => m && glob_inner(v, i + 1, p, e),
        };
    }
    v[i] == p[k] && glob_inner(v, i + 1, p, k + 1)
}

/// Whether a text, up to its first zero character, matches a `GLOB` pattern.
pub open spec fn glob(v: Seq<char>, pattern: Seq<char>) -> bool {
    glob_from(before_nul(v), 0, pattern, 0)
}

/// Whether a text matches a `GLOB` pattern.
pub fn matches_glob_pattern(value: &str, pattern: &str) -> (r: bool)
    ensures
        r == glob(value@, pattern@),
{
    let v = char_vec(text_before_nul(value).as_str());
    let p = char_vec(pattern);
    glob_inner(&v, 0, &p, 0)
}

// ---------------------------------------------------------------------------
// REGEXP

/// What the atom at a position says of a character, and where it ends.
pub open spec fn atom_at(p: Seq<char>, i: int, c: char) -> Result<(bool, int), StopView> {
    if p[i] == '.' {
        Ok((true, i + 1))
    } else if p[i] != '[' {
        Ok((p[i] == c, i + 1))
    } else {
        match class_at(p, i, c) {
            Some((m, e)) => Ok((m, e)),
            None => Err(storage_stop("unclosed '['"@)),
        }
    }
}

fn regexp_atom_matches(p: &Vec<char>, i: usize, c: char) -> (r: Eval<(bool, usize)>)
    requires
        i < p@.len(),
    ensures
        match r {
            Ok((m, e)) => atom_at(p@, i as int, c) == Ok::<_, StopView>((m, e as int)) && i < e
                <= p@.len(),
            Err(s) => atom_at(p@, i as int, c) == Err::<(bool, int), _>(s@),
        },
{
    let total: usize = p.len();
    assert(i < total);
    if p[i] == '.' {
        return Ok((true, i + 1));
    }
    if p[i] != '[' {
        return Ok((p[i] == c, i + 1));
    }
    match read_class(p, i, c) {
        Some((m, e)) => Ok((m, e)),
        None => Err(fail("unclosed '['")),
    }
}

/// Whether the pattern from a position on matches the text from a position on, to any end.
pub open spec fn regexp_here(p: Seq<char>, k: int, v: Seq<char>, i: int) -> Result<bool, StopView>
    decreases p.len() - k, 0int,
{
    if k < 0 || k > p.len() || i < 0 || i > v.len() {
        Ok(false)
    } else if k == p.len() {
        Ok(true)
    } else if p[k] == '$' && k + 1 == p.len() {
        Ok(i == v.len())
    } else {
        match atom_at(p, k, '\0') {
            Err(s) => Err(s),
            Ok((_, next)) => if k < next < p.len() && p[next] == '*' {
                regexp_star(p, k, next + 1, v, i)
            } else if i >= v.len() {
                Ok(false)
            } else {
                match atom_at(p, k, v[i]) {
                    Err(s) => Err(s),
                    Ok((m, e)) => if m && k < e <= p.len() {
                        regexp_here(p, e, v, i + 1)
                    } else {
                        Ok(false)
                    },
                }
            },
        }
    }
}

/// Whether an atom any number of times, and then the rest of the pattern, matches the text
/// from a position on.
pub open spec fn regexp_star(p: Seq<char>, atom: int, rest: int, v: Seq<char>, i: int) -> Result<
    bool,
    StopView,
>
    decreases p.len() - rest, v.len() - i + 1,
{
    if rest > p.len() || i > v.len() {
        Ok(false)
    } else {
        match regexp_here(p, rest, v, i) {
            Err(s) => Err(s),
            Ok(true) => Ok(true),
            Ok(false) => if i < v.len() {
                match atom_at(p, atom, v[i]) {
                    Err(s) => Err(s),
                    Ok((m, _)) => if m {
                        regexp_star(p, atom, rest, v, i + 1)
                    } else {
                        Ok(false)
                    },
                }
            } else {
                Ok(false)
            },
        }
    }
}

fn regexp_match_here(p: &Vec<char>, k: usize, v: &Vec<char>, i: usize) -> (r: Eval<bool>)
    requires
        k <= p@.len(),
        i <= v@.len(),
    ensures
        plain_view(r) == regexp_here(p@, k as int, v@, i as int),
    decreases p@.len() - k, 0int,
{
    if k == p.len() {
        return Ok(true);
    }
    if p[k] == '$' && k + 1 == p.len() {
        return Ok(i == v.len());
    }
    let (_, next) = regexp_atom_matches(p, k, '\0')?;
    if next < p.len() && p[next] == '*' {
        return regexp_match_star(p, k, next + 1, v, i);
    }
    if i >= v.len() {
        return Ok(false);
    }
    let (m, e) = regexp_atom_matches(p, k, v[i])?;
    if m {
        regexp_match_here(p, e, v, i + 1)
    } else {
        Ok(false)
    }
}

fn regexp_match_star(p: &Vec<char>, atom: usize, rest: usize, v: &Vec<char>, from: usize) -> (r:
    Eval<bool>)
    requires
        atom < rest <= p@.len(),
        from <= v@.len(),
    ensures
        plain_view(r) == regexp_star(p@, atom as int, rest as int, v@, from as int),
    decreases p@.len() - rest, v@.len() - from + 1,
{
    let mut i: usize = from;
    loop
        invariant
            atom < rest <= p@.len(),
            from <= i <= v@.len(),
            regexp_star(p@, atom as int, rest as int, v@, i as int) == regexp_star(
                p@,
                atom as int,
                rest as int,
                v@,
                from as int,
            ),
        decreases v@.len() - i,
    {
        if regexp_match_here(p, rest, v, i)? {
            return Ok(true);
        }
        if i >= v.len() {
            return Ok(false);
        }
        let (m, _) = regexp_atom_matches(p, atom, v[i])?;
        if !m {
            return Ok(false);
        }
        i = i + 1;
    }
}

/// Whether a pattern matches a text from some position on.
pub open spec fn regexp_search(p: Seq<char>, v: Seq<char>, i: int) -> Result<bool, StopView>
    decreases v.len() + 1 - i,
{
    if i < 0 || i > v.len() {
        Ok(false)
    } else {
        match regexp_here(p, 0, v, i) {
            Err(s) => Err(s),
            Ok(true) => Ok(true),
            Ok(false) => regexp_search(p, v, i + 1),
        }
    }
}

/// Whether a text, up to its first zero character, holds what a pattern describes.
pub open spec fn regexp(p: Seq<char>, v: Seq<char>) -> Result<bool, StopView> {
    if p.len() > 0 && p[0] == '^' {
        regexp_here(p, 1, before_nul(v), 0)
    } else {
        regexp_search(p, before_nul(v), 0)
    }
}

/// Whether a text holds what a pattern describes.
pub fn sqlite_regexp_matches(pattern: &str, value: &str) -> (r: Eval<bool>)
    ensures
        plain_view(r) == regexp(pattern@, value@),
{
    let p = char_vec(pattern);
    let v = char_vec(text_before_nul(value).as_str());
    if p.len() > 0 && p[0] == '^' {
        return regexp_match_here(&p, 1, &v, 0);
    }
    let total: usize = v.len();
    let mut i: usize = 0;
    while i <= total
        invariant
            p@ == pattern@,
            v@ == before_nul(value@),
            total == v@.len(),
            i <= total + 1,
            !(p@.len() > 0 && p@[0] == '^'),
            regexp_search(p@, v@, i as int) == regexp(pattern@, value@),
        decreases total + 1 - i,
    {
        if regexp_match_here(&p, 0, &v, i)? {
            return Ok(true);
        }
        if i == total {
            assert(regexp_search(p@, v@, i + 1) == Ok::<bool, StopView>(false));
            return Ok(false);
        }
        i = i + 1;
    }
    Ok(false)
}

} // verus!
