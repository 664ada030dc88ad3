//! Classification of pattern-expression text.
//!
//! Two stages must both pass: a structural sniff that finds at least one
//! pattern-expression construct on the first line — a negated or
//! hyphen-ranged character class, a leading anchor, a bounded-repetition
//! quantifier, an end anchor, or an optional grouping — and a confirmation
//! that the text compiles under the pattern engine.

use vstd::prelude::*;
use crate::chars::{find_char, skip_digits, str_find, str_skip_digits};

verus! {

/// A negated character class `[^...]` opens at `i`: `[^` before the first
/// newline, with a closing `]` before it too.
pub open spec fn neg_class_at(s: Seq<char>, i: int) -> bool {
    &&& 0 <= i
    &&& i < find_char(s, '\n', 0)
    &&& i + 1 < s.len()
    &&& s[i] == '['
    &&& s[i + 1] == '^'
    &&& find_char(s, ']', i + 2) < find_char(s, '\n', 0)
}

/// A hyphen-ranged character class `[x-y]` opens at `i`: a `[` before the
/// first newline, a `-` after at least one interposed character, and a `]`
/// after at least one more, with no second `[` interposed.
pub open spec fn hyphen_class_at(s: Seq<char>, i: int) -> bool {
    let hm = find_char(s, '-', i + 1);
    let j = find_char(s, ']', hm + 2);
    &&& 0 <= i
    &&& i < find_char(s, '\n', 0)
    &&& s[i] == '['
    &&& hm < find_char(s, '[', i + 1)
    &&& hm >= i + 2
    &&& j < s.len()
    &&& j <= find_char(s, '[', hm + 1)
}

/// A bounded-repetition quantifier `{m,n}` opens at `i` (either count may
/// be absent, as may the comma).
pub open spec fn brace_quant_at(s: Seq<char>, i: int) -> bool {
    let a = skip_digits(s, i + 1);
    &&& 0 <= i
    &&& i < find_char(s, '\n', 0)
    &&& s[i] == '{'
    &&& a < s.len()
    &&& (s[a] == '}' || (s[a] == ',' && {
        let b = skip_digits(s, a + 1);
        b < s.len() && s[b] == '}'
    }))
}

/// An optional grouping: `(`, `)` or `]` directly followed by `?`, before
/// the first newline.
pub open spec fn group_opt_at(s: Seq<char>, i: int) -> bool {
    &&& 0 <= i
    &&& i < find_char(s, '\n', 0)
    &&& (s[i] == '(' || s[i] == ')' || s[i] == ']')
    &&& i + 1 < s.len()
    &&& s[i + 1] == '?'
}

/// A leading anchor: the text starts with `^`.
pub open spec fn caret_start(s: Seq<char>) -> bool {
    s.len() > 0 && s[0] == '^'
}

/// An end anchor: the text ends with `$` on its only line.
pub open spec fn dollar_end(s: Seq<char>) -> bool {
    s.len() > 0 && s.last() == '$' && find_char(s, '\n', 0) >= s.len() - 1
}

/// The structural sniff: some pattern-expression construct occurs.
pub open spec fn regex_shaped(s: Seq<char>) -> bool {
    ||| caret_start(s)
    ||| dollar_end(s)
    ||| exists|i: int|
        0 <= i < s.len() && (neg_class_at(s, i) || hyphen_class_at(s, i) || brace_quant_at(s, i)
            || group_opt_at(s, i))
}

/// What the pattern engine accepts: whether `s` parses and compiles as a
/// pattern expression.
pub uninterp spec fn compiles_as_pattern(s: Seq<char>) -> bool;

/// Relies on fancy_regex::Regex::new: whether a pattern parses and compiles
/// successfully is a function of the pattern text alone.
#[verifier::external_body]
fn pattern_compiles(value: &str) -> (r: bool)
    ensures
        r == compiles_as_pattern(value@),
{
    fancy_regex::Regex::new(value).is_ok()
}

/// Whether any of the position-bound constructs occurs at `i`.
fn construct_at(s: &str, i: usize, eol: usize) -> (r: bool)
    requires
        i < s@.len(),
        eol == find_char(s@, '\n', 0),
        eol <= s@.len(),
    ensures
        r == (neg_class_at(s@, i as int) || hyphen_class_at(s@, i as int) || brace_quant_at(
            s@,
            i as int,
        ) || group_opt_at(s@, i as int)),
{
    let n = s.unicode_len();
    if i >= eol {
        return false;
    }
    let c = s.get_char(i);
    let neg = c == '[' && i + 1 < n && s.get_char(i + 1) == '^' && str_find(s, ']', i + 2) < eol;
    let mut hyph = false;
    if c == '[' {
        let hm = str_find(s, '-', i + 1);
        let hb = str_find(s, '[', i + 1);
        if hm < hb && hm >= i + 2 {
            if n - hm >= 2 {
                let j = str_find(s, ']', hm + 2);
                let b2 = str_find(s, '[', hm + 1);
                hyph = j < n && j <= b2;
            } else {
                proof {
                    assert(find_char(s@, ']', hm as int + 2) == s@.len() as int);
                }
            }
        }
    }
    let brace = c == '{' && {
        let a = str_skip_digits(s, i + 1);
        a < n && {
            let ca = s.get_char(a);
            ca == '}' || (ca == ',' && {
                let b = str_skip_digits(s, a + 1);
                b < n && s.get_char(b) == '}'
            })
        }
    };
    let opt = (c == '(' || c == ')' || c == ']') && i + 1 < n && s.get_char(i + 1) == '?';
    neg || hyph || brace || opt
}

/// Whether the whole input is shaped like a pattern expression and compiles
/// as one; empty input is rejected outright.
pub fn is_regex(value: &str) -> (r: bool)
    ensures
        r == (value@.len() > 0 && regex_shaped(value@) && compiles_as_pattern(value@)),
{
    let n = value.unicode_len();
    if n == 0 {
        return false;
    }
    let mut shaped = false;
    if value.get_char(0) == '^' {
        shaped = true;
    }
    if !shaped {
        let eol = str_find(value, '\n', 0);
        if value.get_char(n - 1) == '$' && eol >= n - 1 {
            shaped = true;
        } else {
            let mut i: usize = 0;
            let mut found = false;
            while i < n && !found
                invariant
                    i <= n,
                    n == value@.len(),
                    eol == find_char(value@, '\n', 0),
                    eol <= n,
                    found ==> regex_shaped(value@),
                    !found ==> forall|k: int|
                        0 <= k < i ==> !(neg_class_at(value@, k) || hyphen_class_at(value@, k)
                            || brace_quant_at(value@, k) || group_opt_at(value@, k)),
                decreases n - i + (if found { 0int } else { 1int }),
            {
                if construct_at(value, i, eol) {
                    proof {
                        assert(0 <= i < value@.len() && (neg_class_at(value@, i as int)
                            || hyphen_class_at(value@, i as int) || brace_quant_at(
                            value@,
                            i as int,
                        ) || group_opt_at(value@, i as int)));
                        assert(regex_shaped(value@));
                    }
                    found = true;
                } else {
                    i += 1;
                }
            }
            shaped = found;
            proof {
                if !found {
                    assert(i == n);
                    assert(!caret_start(value@));
                    assert(!dollar_end(value@));
                    assert(!regex_shaped(value@));
                }
            }
        }
    }
    if !shaped {
        return false;
    }
    pattern_compiles(value)
}

} // verus!
