//! The text of a decimal floating-point number, as `f64::from_str` documents its grammar
//! (letters in either case):
//!
//! ```text
//! Float  ::= Sign? ( 'inf' | 'infinity' | 'nan' | Number )
//! Number ::= ( Digit+ | Digit+ '.' Digit* | Digit* '.' Digit+ ) Exp?
//! Exp    ::= 'e' Sign? Digit+
//! Sign   ::= [+-]
//! Digit  ::= [0-9]
//! ```
//!
//! Only the shape of the text is decided here; its value is read where floating point is
//! at hand.
use vstd::prelude::*;
use crate::text::{all_digits, is_digit};

verus! {

/// `c` with an ASCII upper-case letter turned to lower case.
pub open spec fn ascii_lower(c: char) -> char {
    if 'A' <= c && c <= 'Z' {
        (c as nat + 32) as char
    } else {
        c
    }
}

/// `s` with its ASCII letters in lower case.
pub open spec fn lower(s: Seq<char>) -> Seq<char> {
    s.map_values(|c: char| ascii_lower(c))
}

/// `s` without one leading sign.
pub open spec fn unsigned_part(s: Seq<char>) -> Seq<char> {
    if s.len() > 0 && (s[0] == '+' || s[0] == '-') {
        s.drop_first()
    } else {
        s
    }
}

/// Digits with at most one `.` among them, and at least one digit.
pub open spec fn mantissa_text(m: Seq<char>) -> bool {
    &&& forall|i: int| 0 <= i < m.len() ==> is_digit(#[trigger] m[i]) || m[i] == '.'
    &&& forall|i: int, j: int| 0 <= i < j < m.len() && #[trigger] m[i] == '.' ==> #[trigger] m[j] != '.'
    &&& exists|i: int| 0 <= i < m.len() && is_digit(#[trigger] m[i])
}

/// A sign or none, then at least one digit.
pub open spec fn exponent_text(x: Seq<char>) -> bool {
    let d = unsigned_part(x);
    d.len() > 0 && all_digits(d)
}

/// `b` is a `Number` of the grammar: a mantissa, then optionally `e` and an exponent.
pub open spec fn number_text(b: Seq<char>) -> bool {
    exists|k: int|
        #![trigger b.subrange(0, k)]
        0 <= k <= b.len() && mantissa_text(b.subrange(0, k)) && (k == b.len() || (ascii_lower(b[k])
            == 'e' && exponent_text(b.subrange(k + 1, b.len() as int))))
}

/// `t` is a `Float` of the grammar.
pub open spec fn float_text(t: Seq<char>) -> bool {
    let b = unsigned_part(t);
    ||| lower(b) == seq!['i', 'n', 'f']
    ||| lower(b) == seq!['i', 'n', 'f', 'i', 'n', 'i', 't', 'y']
    ||| lower(b) == seq!['n', 'a', 'n']
    ||| number_text(b)
}

/// Whether `cs[lo..hi]`, with its letters in lower case, is exactly `w`.
pub fn lower_is(cs: &Vec<char>, lo: usize, hi: usize, w: &[char]) -> (r: bool)
    requires
        lo <= hi <= cs@.len(),
    ensures
        r == (lower(cs@.subrange(lo as int, hi as int)) == w@),
{
    let ghost s = cs@.subrange(lo as int, hi as int);
    if hi - lo != w.len() {
        return false;
    }
    let mut k: usize = 0;
    while k < w.len()
        invariant
            lo <= hi <= cs@.len(),
            s == cs@.subrange(lo as int, hi as int),
            hi - lo == w@.len(),
            k <= w@.len(),
            forall|m: int| 0 <= m < k ==> ascii_lower(#[trigger] s[m]) == w@[m],
        decreases w@.len() - k,
    {
        let c = cs[lo + k];
        let lc = if 'A' <= c && c <= 'Z' {
            ((c as u8) + 32) as char
        } else {
            c
        };
        assert(s[k as int] == c);
        if lc != w[k] {
            assert(lower(s)[k as int] != w@[k as int]);
            return false;
        }
        k += 1;
    }
    assert(lower(s) =~= w@);
    true
}

/// Whether `cs[lo..hi]` is a mantissa: digits, at most one `.`, at least one digit.
fn mantissa_in(cs: &Vec<char>, lo: usize, hi: usize) -> (r: bool)
    requires
        lo <= hi <= cs@.len(),
    ensures
        r == mantissa_text(cs@.subrange(lo as int, hi as int)),
{
    let ghost m = cs@.subrange(lo as int, hi as int);
    let mut k: usize = lo;
    let mut dot: Option<usize> = None;
    let mut digit: Option<usize> = None;
    while k < hi
        invariant
            lo <= k <= hi <= cs@.len(),
            m == cs@.subrange(lo as int, hi as int),
            forall|i: int| 0 <= i < k - lo ==> is_digit(#[trigger] m[i]) || m[i] == '.',
            match dot {
                Some(d) => lo <= d < k && m[d - lo] == '.' && forall|i: int|
                    0 <= i < k - lo && #[trigger] m[i] == '.' ==> i == d - lo,
                None => forall|i: int| 0 <= i < k - lo ==> #[trigger] m[i] != '.',
            },
            match digit {
                Some(d) => lo <= d < k && is_digit(m[d - lo]),
                None => forall|i: int| 0 <= i < k - lo ==> !is_digit(#[trigger] m[i]),
            },
        decreases hi - k,
    {
        let c = cs[k];
        assert(m[k - lo] == c);
        if '0' <= c && c <= '9' {
            digit = Some(k);
        } else if c == '.' {
            if let Some(d) = dot {
                assert(m[d - lo] == '.' && m[k - lo] == '.');
                return false;
            }
            dot = Some(k);
        } else {
            assert(!(is_digit(m[k - lo]) || m[k - lo] == '.'));
            return false;
        }
        k += 1;
    }
    match digit {
        Some(d) => {
            assert(is_digit(m[d - lo]));
            true
        },
        None => false,
    }
}

/// Whether `cs[lo..hi]` is an exponent: a sign or none, then at least one digit.
fn exponent_in(cs: &Vec<char>, lo: usize, hi: usize) -> (r: bool)
    requires
        lo <= hi <= cs@.len(),
    ensures
        r == exponent_text(cs@.subrange(lo as int, hi as int)),
{
    let ghost x = cs@.subrange(lo as int, hi as int);
    let mut start = lo;
    if lo < hi && (cs[lo] == '+' || cs[lo] == '-') {
        start = lo + 1;
        assert(unsigned_part(x) =~= cs@.subrange(start as int, hi as int));
    } else {
        assert(unsigned_part(x) =~= cs@.subrange(start as int, hi as int));
    }
    let ghost d = cs@.subrange(start as int, hi as int);
    if start == hi {
        return false;
    }
    let mut k = start;
    while k < hi
        invariant
            lo <= start <= k <= hi <= cs@.len(),
            d == cs@.subrange(start as int, hi as int),
            d == unsigned_part(cs@.subrange(lo as int, hi as int)),
            forall|i: int| 0 <= i < k - start ==> is_digit(#[trigger] d[i]),
        decreases hi - k,
    {
        assert(d[k - start] == cs@[k as int]);
        if !('0' <= cs[k] && cs[k] <= '9') {
            assert(!is_digit(d[k - start]));
            return false;
        }
        k += 1;
    }
    true
}

/// Whether `cs[lo..hi]` is the text of a floating-point number (see the grammar above).
pub fn float_text_in(cs: &Vec<char>, lo: usize, hi: usize) -> (r: bool)
    requires
        lo <= hi <= cs@.len(),
    ensures
        r == float_text(cs@.subrange(lo as int, hi as int)),
{
    let ghost t = cs@.subrange(lo as int, hi as int);
    let mut start = lo;
    if lo < hi && (cs[lo] == '+' || cs[lo] == '-') {
        start = lo + 1;
    }
    let ghost b = cs@.subrange(start as int, hi as int);
    assert(unsigned_part(t) =~= b);
    if lower_is(cs, start, hi, &['i', 'n', 'f']) || lower_is(
        cs,
        start,
        hi,
        &['i', 'n', 'f', 'i', 'n', 'i', 't', 'y'],
    ) || lower_is(cs, start, hi, &['n', 'a', 'n']) {
        return true;
    }
    // The mantissa ends at the first `e` or `E`.
    let mut k = start;
    while k < hi && cs[k] != 'e' && cs[k] != 'E'
        invariant
            lo <= start <= k <= hi <= cs@.len(),
            b == cs@.subrange(start as int, hi as int),
            forall|i: int| 0 <= i < k - start ==> ascii_lower(#[trigger] b[i]) != 'e',
        decreases hi - k,
    {
        assert(b[k - start] == cs@[k as int]);
        k += 1;
    }
    let ghost kk = k - start;
    assert(b.subrange(0, kk) =~= cs@.subrange(start as int, k as int));
    let r = mantissa_in(cs, start, k) && (k == hi || exponent_in(cs, k + 1, hi));
    proof {
        if k < hi {
            assert(b[kk] == cs@[k as int]);
            assert(b.subrange(kk + 1, b.len() as int) =~= cs@.subrange(k + 1, hi as int));
        }
        if r {
            assert(number_text(b));
        } else if number_text(b) {
            let w = choose|w: int|
                #![trigger b.subrange(0, w)]
                0 <= w <= b.len() && mantissa_text(b.subrange(0, w)) && (w == b.len() || (
                ascii_lower(b[w]) == 'e' && exponent_text(b.subrange(w + 1, b.len() as int))));
            if w < kk {
                assert(ascii_lower(b[w]) != 'e');
            } else if w > kk {
                let mw = b.subrange(0, w);
                assert(mw[kk] == b[kk]);
                assert(!(is_digit(mw[kk]) || mw[kk] == '.'));
            }
        }
    }
    r
}

} // verus!
