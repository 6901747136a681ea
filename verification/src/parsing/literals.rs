//! Recognising literals: a quoted text, or a run of digits and dots. A
//! literal whose text `str::parse::<f64>` accepts is a number, any other is
//! a string.
use vstd::prelude::*;
use crate::values::literal::{Literal, LiteralV};

verus! {

pub open spec fn is_digit(c: char) -> bool {
    '0' <= c && c <= '9'
}

pub open spec fn all_digits(s: Seq<char>) -> bool {
    forall|k: int| 0 <= k < s.len() ==> is_digit(#[trigger] s[k])
}

/// The index of the first occurrence of `a` or `b` in `s`, or `s.len()`.
pub open spec fn first_of(s: Seq<char>, a: char, b: char) -> int
    decreases s.len(),
{
    if s.len() == 0 {
        0
    } else if s[0] == a || s[0] == b {
        0
    } else {
        1 + first_of(s.drop_first(), a, b)
    }
}

pub open spec fn strip_sign(s: Seq<char>) -> Seq<char> {
    if s.len() > 0 && (s[0] == '+' || s[0] == '-') {
        s.drop_first()
    } else {
        s
    }
}

/// `c` is the letter `lower` in either case.
pub open spec fn ci(c: char, lower: char, upper: char) -> bool {
    c == lower || c == upper
}

/// `inf`, `infinity` or `nan`, in any case.
pub open spec fn is_special(s: Seq<char>) -> bool {
    ||| (s.len() == 3 && ci(s[0], 'i', 'I') && ci(s[1], 'n', 'N') && ci(s[2], 'f', 'F'))
    ||| (s.len() == 8 && ci(s[0], 'i', 'I') && ci(s[1], 'n', 'N') && ci(s[2], 'f', 'F') && ci(
        s[3],
        'i',
        'I',
    ) && ci(s[4], 'n', 'N') && ci(s[5], 'i', 'I') && ci(s[6], 't', 'T') && ci(s[7], 'y', 'Y'))
    ||| (s.len() == 3 && ci(s[0], 'n', 'N') && ci(s[1], 'a', 'A') && ci(s[2], 'n', 'N'))
}

/// `Digit+ | Digit+ '.' Digit* | Digit* '.' Digit+`
pub open spec fn is_mantissa(m: Seq<char>) -> bool {
    let d = first_of(m, '.', '.');
    if d >= m.len() {
        m.len() >= 1 && all_digits(m)
    } else {
        m.len() >= 2 && all_digits(m.take(d)) && all_digits(m.skip(d + 1))
    }
}

/// `Sign? Digit+`
pub open spec fn is_exponent(x: Seq<char>) -> bool {
    strip_sign(x).len() >= 1 && all_digits(strip_sign(x))
}

/// `Mantissa ( ('e' | 'E') Exponent )?`
pub open spec fn is_number(b: Seq<char>) -> bool {
    let p = first_of(b, 'e', 'E');
    if p >= b.len() {
        is_mantissa(b)
    } else {
        is_mantissa(b.take(p)) && is_exponent(b.skip(p + 1))
    }
}

/// The texts that `str::parse::<f64>` accepts, as its documentation gives
/// them: `Sign? ( 'inf' | 'infinity' | 'nan' | Number )`, letters in either
/// case.
pub open spec fn float_syntax(s: Seq<char>) -> bool {
    is_special(strip_sign(s)) || is_number(strip_sign(s))
}

/// What `char::is_numeric` gives for `c`: whether `c` is in one of
/// Unicode's general categories for numbers (`Nd`, `Nl`, `No`).
pub uninterp spec fn numeric(c: char) -> bool;

/// Calls `char::is_numeric`; its result is named [`numeric`].
#[verifier::external_body]
fn char_is_numeric(c: char) -> (r: bool)
    ensures
        r == numeric(c),
{
    c.is_numeric()
}

/// Length of the leading run of numeric characters and dots.
pub open spec fn numeric_prefix(w: Seq<char>) -> nat
    decreases w.len(),
{
    if w.len() > 0 && (numeric(w[0]) || w[0] == '.') {
        1 + numeric_prefix(w.drop_first())
    } else {
        0
    }
}

/// The text of the literal that a word spells, if it spells one: the text
/// between a leading quote and the next quote, or the leading run of numeric
/// characters and dots of a word that starts with a numeric character.
pub open spec fn literal_text(w: Seq<char>) -> Option<Seq<char>> {
    if w.len() > 0 && w[0] == '"' {
        let rest = w.drop_first();
        let q = first_of(rest, '"', '"');
        if q < rest.len() {
            Some(rest.take(q))
        } else {
            None
        }
    } else if w.len() > 0 && numeric(w[0]) {
        Some(w.take(numeric_prefix(w) as int))
    } else {
        None
    }
}

/// The literal that a word spells, if any.
pub open spec fn literal_of(w: Seq<char>) -> Option<LiteralV> {
    match literal_text(w) {
        Some(t) => Some(
            if float_syntax(t) {
                LiteralV::Number(t)
            } else {
                LiteralV::String(t)
            },
        ),
        None => None,
    }
}

pub proof fn lemma_first_of_bounds(s: Seq<char>, a: char, b: char)
    ensures
        0 <= first_of(s, a, b) <= s.len(),
        forall|k: int| 0 <= k < first_of(s, a, b) ==> s[k] != a && s[k] != b,
        first_of(s, a, b) < s.len() ==> (s[first_of(s, a, b)] == a || s[first_of(s, a, b)] == b),
    decreases s.len(),
{
    if s.len() > 0 && !(s[0] == a || s[0] == b) {
        lemma_first_of_bounds(s.drop_first(), a, b);
        assert forall|k: int| 0 <= k < first_of(s, a, b) implies s[k] != a && s[k] != b by {
            if k > 0 {
                assert(s[k] == s.drop_first()[k - 1]);
            }
        }
    }
}

/// The first index in `lo..hi` at which `v` holds `a` or `b`, or `hi`.
fn find_first(v: &Vec<char>, lo: usize, hi: usize, a: char, b: char) -> (r: usize)
    requires
        lo <= hi <= v.len(),
    ensures
        r == lo + first_of(v@.subrange(lo as int, hi as int), a, b),
{
    let ghost s = v@.subrange(lo as int, hi as int);
    proof {
        lemma_first_of_bounds(s, a, b);
    }
    let mut k = lo;
    while k < hi
        invariant
            lo <= k <= hi <= v.len(),
            s == v@.subrange(lo as int, hi as int),
            forall|m: int| lo <= m < k ==> v@[m] != a && v@[m] != b,
            0 <= first_of(s, a, b) <= s.len(),
            forall|m: int| 0 <= m < first_of(s, a, b) ==> s[m] != a && s[m] != b,
            first_of(s, a, b) < s.len() ==> (s[first_of(s, a, b)] == a || s[first_of(s, a, b)]
                == b),
        decreases hi - k,
    {
        if v[k] == a || v[k] == b {
            proof {
                assert(s[k - lo] == v@[k as int]);
                if first_of(s, a, b) < k - lo {
                    assert(s[first_of(s, a, b)] == v@[lo + first_of(s, a, b)]);
                }
            }
            return k;
        }
        k = k + 1;
    }
    proof {
        if first_of(s, a, b) < s.len() {
            assert(s[first_of(s, a, b)] == v@[lo + first_of(s, a, b)]);
        }
    }
    k
}

/// Whether every character in `lo..hi` is an ASCII digit.
fn digits_only(v: &Vec<char>, lo: usize, hi: usize) -> (r: bool)
    requires
        lo <= hi <= v.len(),
    ensures
        r == all_digits(v@.subrange(lo as int, hi as int)),
{
    let mut k = lo;
    while k < hi
        invariant
            lo <= k <= hi <= v.len(),
            forall|m: int| lo <= m < k ==> is_digit(v@[m]),
        decreases hi - k,
    {
        if !('0' <= v[k] && v[k] <= '9') {
            assert(!is_digit(v@.subrange(lo as int, hi as int)[k - lo]));
            return false;
        }
        k = k + 1;
    }
    assert forall|m: int| 0 <= m < hi - lo implies is_digit(
        #[trigger] v@.subrange(lo as int, hi as int)[m],
    ) by {
        assert(v@.subrange(lo as int, hi as int)[m] == v@[lo + m]);
    }
    true
}

fn special(v: &Vec<char>, lo: usize, hi: usize) -> (r: bool)
    requires
        lo <= hi <= v.len(),
    ensures
        r == is_special(v@.subrange(lo as int, hi as int)),
{
    let ghost s = v@.subrange(lo as int, hi as int);
    let n = hi - lo;
    if n == 3 {
        assert(s[0] == v@[lo as int] && s[1] == v@[lo + 1] && s[2] == v@[lo + 2]);
        let inf = (v[lo] == 'i' || v[lo] == 'I') && (v[lo + 1] == 'n' || v[lo + 1] == 'N') && (
        v[lo + 2] == 'f' || v[lo + 2] == 'F');
        let nan = (v[lo] == 'n' || v[lo] == 'N') && (v[lo + 1] == 'a' || v[lo + 1] == 'A') && (
        v[lo + 2] == 'n' || v[lo + 2] == 'N');
        inf || nan
    } else if n == 8 {
        assert(s[0] == v@[lo as int] && s[1] == v@[lo + 1] && s[2] == v@[lo + 2] && s[3]
            == v@[lo + 3] && s[4] == v@[lo + 4] && s[5] == v@[lo + 5] && s[6] == v@[lo + 6]
            && s[7] == v@[lo + 7]);
        (v[lo] == 'i' || v[lo] == 'I') && (v[lo + 1] == 'n' || v[lo + 1] == 'N') && (v[lo + 2]
            == 'f' || v[lo + 2] == 'F') && (v[lo + 3] == 'i' || v[lo + 3] == 'I') && (v[lo + 4]
            == 'n' || v[lo + 4] == 'N') && (v[lo + 5] == 'i' || v[lo + 5] == 'I') && (v[lo + 6]
            == 't' || v[lo + 6] == 'T') && (v[lo + 7] == 'y' || v[lo + 7] == 'Y')
    } else {
        false
    }
}

fn mantissa(v: &Vec<char>, lo: usize, hi: usize) -> (r: bool)
    requires
        lo <= hi <= v.len(),
    ensures
        r == is_mantissa(v@.subrange(lo as int, hi as int)),
{
    let ghost m = v@.subrange(lo as int, hi as int);
    let d = find_first(v, lo, hi, '.', '.');
    proof {
        lemma_first_of_bounds(m, '.', '.');
    }
    if d >= hi {
        hi - lo >= 1 && digits_only(v, lo, hi)
    } else {
        assert(m.take(d - lo) =~= v@.subrange(lo as int, d as int));
        assert(m.skip(d - lo + 1) =~= v@.subrange(d + 1, hi as int));
        hi - lo >= 2 && digits_only(v, lo, d) && digits_only(v, d + 1, hi)
    }
}

fn sign_end(v: &Vec<char>, lo: usize, hi: usize) -> (r: usize)
    requires
        lo <= hi <= v.len(),
    ensures
        lo <= r <= hi,
        v@.subrange(r as int, hi as int) == strip_sign(v@.subrange(lo as int, hi as int)),
{
    let ghost s = v@.subrange(lo as int, hi as int);
    if lo < hi && (v[lo] == '+' || v[lo] == '-') {
        assert(s[0] == v@[lo as int]);
        assert(v@.subrange(lo + 1, hi as int) =~= s.drop_first());
        lo + 1
    } else {
        lo
    }
}

/// Whether `str::parse::<f64>` accepts the text `t`.
pub fn is_float_text(t: &Vec<char>) -> (r: bool)
    ensures
        r == float_syntax(t@),
{
    let n = t.len();
    assert(t@.subrange(0, n as int) =~= t@);
    let lo = sign_end(t, 0, n);
    let ghost b = t@.subrange(lo as int, n as int);
    if special(t, lo, n) {
        return true;
    }
    let p = find_first(t, lo, n, 'e', 'E');
    proof {
        lemma_first_of_bounds(b, 'e', 'E');
    }
    if p >= n {
        mantissa(t, lo, n)
    } else {
        assert(b.take(p - lo) =~= t@.subrange(lo as int, p as int));
        assert(b.skip(p - lo + 1) =~= t@.subrange(p + 1, n as int));
        if !mantissa(t, lo, p) {
            return false;
        }
        let s = sign_end(t, p + 1, n);
        n - s >= 1 && digits_only(t, s, n)
    }
}

pub proof fn lemma_numeric_prefix_bounds(w: Seq<char>)
    ensures
        numeric_prefix(w) <= w.len(),
        forall|k: int| 0 <= k < numeric_prefix(w) ==> numeric(w[k]) || w[k] == '.',
        numeric_prefix(w) < w.len() ==> !(numeric(w[numeric_prefix(w) as int]) || w[numeric_prefix(
            w,
        ) as int] == '.'),
    decreases w.len(),
{
    if w.len() > 0 && (numeric(w[0]) || w[0] == '.') {
        lemma_numeric_prefix_bounds(w.drop_first());
        assert forall|k: int| 0 <= k < numeric_prefix(w) implies numeric(w[k]) || w[k] == '.' by {
            if k > 0 {
                assert(w[k] == w.drop_first()[k - 1]);
            }
        }
    }
}

/// The literal that the word `w` spells, if any (see [`literal_of`]).
pub fn parse_literal(w: &Vec<char>) -> (r: Option<Literal>)
    ensures
        match r {
            Some(l) => literal_of(w@) == Some(l@),
            None => literal_of(w@) is None,
        },
{
    let n = w.len();
    let mut text: Vec<char> = Vec::new();
    if n > 0 && w[0] == '"' {
        let ghost rest = w@.drop_first();
        assert(w@.subrange(1, n as int) =~= rest);
        let q = find_first(w, 1, n, '"', '"');
        proof {
            lemma_first_of_bounds(rest, '"', '"');
        }
        if q >= n {
            return None;
        }
        let mut k: usize = 1;
        while k < q
            invariant
                1 <= k <= q < n == w.len(),
                text@ == w@.subrange(1, k as int),
            decreases q - k,
        {
            text.push(w[k]);
            k = k + 1;
            assert(text@ =~= w@.subrange(1, k as int));
        }
        assert(text@ =~= rest.take(q - 1));
    } else if n > 0 && char_is_numeric(w[0]) {
        proof {
            lemma_numeric_prefix_bounds(w@);
        }
        let mut k: usize = 0;
        while k < n && (char_is_numeric(w[k]) || w[k] == '.')
            invariant
                k <= n == w.len(),
                k <= numeric_prefix(w@),
                text@ == w@.take(k as int),
                numeric_prefix(w@) <= w@.len(),
                forall|m: int| 0 <= m < numeric_prefix(w@) ==> numeric(w@[m]) || w@[m] == '.',
                numeric_prefix(w@) < w@.len() ==> !(numeric(w@[numeric_prefix(w@) as int])
                    || w@[numeric_prefix(w@) as int] == '.'),
            decreases n - k,
        {
            text.push(w[k]);
            k = k + 1;
            assert(text@ =~= w@.take(k as int));
        }
    } else {
        return None;
    }
    let s = crate::strings::string_from_chars(&text);
    if is_float_text(&text) {
        Some(Literal::Number(s))
    } else {
        Some(Literal::String(s))
    }
}

} // verus!
