//! Character classes and elementary scanning over sequences of characters.

use vstd::prelude::*;

verus! {

/// An ASCII decimal digit.
pub open spec fn is_digit(c: char) -> bool {
    '0' <= c && c <= '9'
}

/// Numeric value of a decimal digit.
pub open spec fn digit_val(c: char) -> int {
    c as int - '0' as int
}

/// An ASCII hexadecimal digit.
pub open spec fn is_hex_digit(c: char) -> bool {
    is_digit(c) || ('a' <= c && c <= 'f') || ('A' <= c && c <= 'F')
}

/// Numeric value of a hexadecimal digit.
pub open spec fn hex_digit_val(c: char) -> int {
    if is_digit(c) {
        digit_val(c)
    } else if 'a' <= c && c <= 'f' {
        c as int - 'a' as int + 10
    } else {
        c as int - 'A' as int + 10
    }
}

/// Every character of `s` is a decimal digit.
pub open spec fn all_digits(s: Seq<char>) -> bool {
    forall|i: int| 0 <= i < s.len() ==> is_digit(s[i])
}

/// Every character of `s` is a hexadecimal digit.
pub open spec fn all_hex_digits(s: Seq<char>) -> bool {
    forall|i: int| 0 <= i < s.len() ==> is_hex_digit(s[i])
}

/// Value of `s` read as a decimal numeral (0 when empty).
pub open spec fn dec_val(s: Seq<char>) -> int
    decreases s.len(),
{
    if s.len() == 0 {
        0
    } else {
        dec_val(s.drop_last()) * 10 + digit_val(s.last())
    }
}

/// Value of `s` read as a hexadecimal numeral (0 when empty).
pub open spec fn hex_val(s: Seq<char>) -> int
    decreases s.len(),
{
    if s.len() == 0 {
        0
    } else {
        hex_val(s.drop_last()) * 16 + hex_digit_val(s.last())
    }
}

/// Index of the first occurrence of `c` in `s` at or after `from`;
/// `s.len()` when there is none.
pub open spec fn find_char(s: Seq<char>, c: char, from: int) -> int
    decreases s.len() - from,
{
    if from < 0 || from >= s.len() {
        s.len() as int
    } else if s[from] == c {
        from
    } else {
        find_char(s, c, from + 1)
    }
}

pub proof fn lemma_find_char_bounds(s: Seq<char>, c: char, from: int)
    requires
        0 <= from <= s.len(),
    ensures
        from <= find_char(s, c, from) <= s.len(),
        find_char(s, c, from) < s.len() ==> s[find_char(s, c, from)] == c,
        forall|k: int| from <= k < find_char(s, c, from) ==> s[k] != c,
    decreases s.len() - from,
{
    if from < s.len() && s[from] != c {
        lemma_find_char_bounds(s, c, from + 1);
    }
}

/// A scan that stopped at the first occurrence of `c` computes `find_char`.
pub proof fn lemma_find_char_at(s: Seq<char>, c: char, from: int, i: int)
    requires
        0 <= from <= i <= s.len(),
        forall|k: int| from <= k < i ==> s[k] != c,
        i == s.len() || s[i] == c,
    ensures
        find_char(s, c, from) == i,
    decreases i - from,
{
    if from < i {
        lemma_find_char_at(s, c, from + 1, i);
    }
}

/// The value of a digit string is never negative.
pub proof fn lemma_dec_val_nonneg(s: Seq<char>)
    requires
        all_digits(s),
    ensures
        dec_val(s) >= 0,
    decreases s.len(),
{
    if s.len() > 0 {
        assert forall|i: int| 0 <= i < s.drop_last().len() implies is_digit(
            s.drop_last()[i],
        ) by {
            assert(s.drop_last()[i] == s[i]);
        }
        lemma_dec_val_nonneg(s.drop_last());
    }
}

/// The value of a digit string is at least the value of any of its prefixes.
pub proof fn lemma_dec_val_prefix(s: Seq<char>, i: int)
    requires
        all_digits(s),
        0 <= i <= s.len(),
    ensures
        dec_val(s.subrange(0, i)) <= dec_val(s),
    decreases s.len() - i,
{
    if i == s.len() {
        assert(s.subrange(0, i) =~= s);
    } else {
        let a = s.subrange(0, i);
        let b = s.subrange(0, i + 1);
        assert(b.drop_last() =~= a);
        assert(b.last() == s[i]);
        assert(dec_val(b) == dec_val(a) * 10 + digit_val(s[i]));
        assert forall|k: int| 0 <= k < a.len() implies is_digit(a[k]) by {
            assert(a[k] == s[k]);
        }
        lemma_dec_val_nonneg(a);
        lemma_dec_val_prefix(s, i + 1);
    }
}

/// A whitespace character, as the Unicode white-space property draws the
/// class.
pub open spec fn is_space(c: char) -> bool {
    ||| c == ' '
    ||| ('\u{9}' <= c && c <= '\u{d}')
    ||| c == '\u{85}'
    ||| c == '\u{a0}'
    ||| c == '\u{1680}'
    ||| ('\u{2000}' <= c && c <= '\u{200a}')
    ||| c == '\u{2028}'
    ||| c == '\u{2029}'
    ||| c == '\u{202f}'
    ||| c == '\u{205f}'
    ||| c == '\u{3000}'
}

/// Index of the first whitespace character in `s` at or after `from`;
/// `s.len()` when there is none.
pub open spec fn find_space(s: Seq<char>, from: int) -> int
    decreases s.len() - from,
{
    if from < 0 || from >= s.len() {
        s.len() as int
    } else if is_space(s[from]) {
        from
    } else {
        find_space(s, from + 1)
    }
}

pub proof fn lemma_find_space_bounds(s: Seq<char>, from: int)
    requires
        0 <= from <= s.len(),
    ensures
        from <= find_space(s, from) <= s.len(),
        find_space(s, from) < s.len() ==> is_space(s[find_space(s, from)]),
        forall|k: int| from <= k < find_space(s, from) ==> !is_space(s[k]),
    decreases s.len() - from,
{
    if from < s.len() && !is_space(s[from]) {
        lemma_find_space_bounds(s, from + 1);
    }
}

/// A scan that stopped at the first whitespace computes `find_space`.
pub proof fn lemma_find_space_at(s: Seq<char>, from: int, i: int)
    requires
        0 <= from <= i <= s.len(),
        forall|k: int| from <= k < i ==> !is_space(s[k]),
        i == s.len() || is_space(s[i]),
    ensures
        find_space(s, from) == i,
    decreases i - from,
{
    if from < i {
        lemma_find_space_at(s, from + 1, i);
    }
}

/// Index of the first non-digit character in `s` at or after `from`;
/// `s.len()` when there is none.
pub open spec fn skip_digits(s: Seq<char>, from: int) -> int
    decreases s.len() - from,
{
    if from < 0 || from >= s.len() {
        s.len() as int
    } else if is_digit(s[from]) {
        skip_digits(s, from + 1)
    } else {
        from
    }
}

/// A scan that stopped at the first non-digit computes `skip_digits`.
pub proof fn lemma_skip_digits_at(s: Seq<char>, from: int, i: int)
    requires
        0 <= from <= i <= s.len(),
        forall|k: int| from <= k < i ==> is_digit(s[k]),
        i == s.len() || !is_digit(s[i]),
    ensures
        skip_digits(s, from) == i,
    decreases i - from,
{
    if from < i {
        lemma_skip_digits_at(s, from + 1, i);
    }
}

/// Code point of `c` with an ASCII lowercase letter folded to uppercase.
pub open spec fn upper_val(c: char) -> int {
    if 'a' <= c && c <= 'z' {
        c as int - 32
    } else {
        c as int
    }
}

/// ASCII case-insensitive character equality.
pub open spec fn eq_ci(a: char, b: char) -> bool {
    upper_val(a) == upper_val(b)
}

/// `pat` occurs at position `i` of `s`, compared ASCII case-insensitively.
pub open spec fn match_ci_at(s: Seq<char>, i: int, pat: Seq<char>) -> bool {
    &&& 0 <= i
    &&& i + pat.len() <= s.len()
    &&& forall|j: int| 0 <= j < pat.len() ==> eq_ci(s[i + j], #[trigger] pat[j])
}

/// Whitespace that stays on its line: any whitespace but the newline.
pub open spec fn linear_space(c: char) -> bool {
    is_space(c) && c != '\n'
}

/// `i` sits at the start of a line.
pub open spec fn line_anchor(s: Seq<char>, i: int) -> bool {
    i == 0 || s[i - 1] == '\n'
}

/// Index of the first non-whitespace character in `s` at or after `from`;
/// `s.len()` when there is none.
pub open spec fn skip_spaces(s: Seq<char>, from: int) -> int
    decreases s.len() - from,
{
    if from < 0 || from >= s.len() {
        s.len() as int
    } else if is_space(s[from]) {
        skip_spaces(s, from + 1)
    } else {
        from
    }
}

pub proof fn lemma_skip_spaces_at(s: Seq<char>, from: int, i: int)
    requires
        0 <= from <= i <= s.len(),
        forall|k: int| from <= k < i ==> is_space(s[k]),
        i == s.len() || !is_space(s[i]),
    ensures
        skip_spaces(s, from) == i,
    decreases i - from,
{
    if from < i {
        lemma_skip_spaces_at(s, from + 1, i);
    }
}

/// Index of the first character in `s` at or after `from` that is not
/// line-bound whitespace; `s.len()` when there is none.
pub open spec fn skip_lin(s: Seq<char>, from: int) -> int
    decreases s.len() - from,
{
    if from < 0 || from >= s.len() {
        s.len() as int
    } else if linear_space(s[from]) {
        skip_lin(s, from + 1)
    } else {
        from
    }
}

pub proof fn lemma_skip_lin_at(s: Seq<char>, from: int, i: int)
    requires
        0 <= from <= i <= s.len(),
        forall|k: int| from <= k < i ==> linear_space(s[k]),
        i == s.len() || !linear_space(s[i]),
    ensures
        skip_lin(s, from) == i,
    decreases i - from,
{
    if from < i {
        lemma_skip_lin_at(s, from + 1, i);
    }
}

/// Classify a character as a decimal digit.
pub fn digit(c: char) -> (r: bool)
    ensures
        r == is_digit(c),
{
    '0' <= c && c <= '9'
}

/// Classify a character as a hexadecimal digit.
pub fn hex_digit(c: char) -> (r: bool)
    ensures
        r == is_hex_digit(c),
{
    ('0' <= c && c <= '9') || ('a' <= c && c <= 'f') || ('A' <= c && c <= 'F')
}

/// Classify a character as whitespace.
pub fn space(c: char) -> (r: bool)
    ensures
        r == is_space(c),
{
    c == ' ' || ('\u{9}' <= c && c <= '\u{d}') || c == '\u{85}' || c == '\u{a0}'
        || c == '\u{1680}' || ('\u{2000}' <= c && c <= '\u{200a}') || c == '\u{2028}'
        || c == '\u{2029}' || c == '\u{202f}' || c == '\u{205f}' || c == '\u{3000}'
}

/// First whitespace character in `s` at or after `from`, as `find_space`
/// states it.
pub fn str_find_space(s: &str, from: usize) -> (r: usize)
    requires
        from <= s@.len(),
    ensures
        r == find_space(s@, from as int),
        from <= r <= s@.len(),
        r < s@.len() ==> is_space(s@[r as int]),
        forall|k: int| from <= k < r ==> !is_space(s@[k]),
{
    let n = s.unicode_len();
    let mut i = from;
    while i < n
        invariant
            from <= i <= n,
            n == s@.len(),
            forall|k: int| from <= k < i ==> !is_space(s@[k]),
        decreases n - i,
    {
        if space(s.get_char(i)) {
            proof {
                lemma_find_space_at(s@, from as int, i as int);
            }
            return i;
        }
        i += 1;
    }
    proof {
        lemma_find_space_at(s@, from as int, s@.len() as int);
    }
    i
}

/// First occurrence of `c` in `s` at or after `from`, as `find_char` states it.
pub fn str_find(s: &str, c: char, from: usize) -> (r: usize)
    requires
        from <= s@.len(),
    ensures
        r == find_char(s@, c, from as int),
        from <= r <= s@.len(),
        r < s@.len() ==> s@[r as int] == c,
        forall|k: int| from <= k < r ==> s@[k] != c,
{
    let n = s.unicode_len();
    let mut i = from;
    while i < n
        invariant
            from <= i <= n,
            n == s@.len(),
            forall|k: int| from <= k < i ==> s@[k] != c,
        decreases n - i,
    {
        if s.get_char(i) == c {
            proof {
                lemma_find_char_at(s@, c, from as int, i as int);
            }
            return i;
        }
        i += 1;
    }
    proof {
        lemma_find_char_at(s@, c, from as int, s@.len() as int);
    }
    i
}

/// First non-digit in `s` at or after `from`, as `skip_digits` states it.
pub fn str_skip_digits(s: &str, from: usize) -> (r: usize)
    requires
        from <= s@.len(),
    ensures
        r == skip_digits(s@, from as int),
        from <= r <= s@.len(),
        r < s@.len() ==> !is_digit(s@[r as int]),
        forall|k: int| from <= k < r ==> is_digit(s@[k]),
{
    let n = s.unicode_len();
    let mut i = from;
    while i < n
        invariant
            from <= i <= n,
            n == s@.len(),
            forall|k: int| from <= k < i ==> is_digit(s@[k]),
        decreases n - i,
    {
        if !digit(s.get_char(i)) {
            proof {
                lemma_skip_digits_at(s@, from as int, i as int);
            }
            return i;
        }
        i += 1;
    }
    proof {
        lemma_skip_digits_at(s@, from as int, s@.len() as int);
    }
    i
}

/// First non-whitespace in `s` at or after `from`, as `skip_spaces` states
/// it.
pub fn str_skip_spaces(s: &str, from: usize) -> (r: usize)
    requires
        from <= s@.len(),
    ensures
        r == skip_spaces(s@, from as int),
        from <= r <= s@.len(),
{
    let n = s.unicode_len();
    let mut i = from;
    while i < n
        invariant
            from <= i <= n,
            n == s@.len(),
            forall|k: int| from <= k < i ==> is_space(s@[k]),
        decreases n - i,
    {
        if !space(s.get_char(i)) {
            proof {
                lemma_skip_spaces_at(s@, from as int, i as int);
            }
            return i;
        }
        i += 1;
    }
    proof {
        lemma_skip_spaces_at(s@, from as int, s@.len() as int);
    }
    i
}

/// Classify a character as line-bound whitespace.
pub fn lin_space(c: char) -> (r: bool)
    ensures
        r == linear_space(c),
{
    space(c) && c != '\n'
}

/// First character that is not line-bound whitespace in `s` at or after
/// `from`, as `skip_lin` states it.
pub fn str_skip_lin(s: &str, from: usize) -> (r: usize)
    requires
        from <= s@.len(),
    ensures
        r == skip_lin(s@, from as int),
        from <= r <= s@.len(),
{
    let n = s.unicode_len();
    let mut i = from;
    while i < n
        invariant
            from <= i <= n,
            n == s@.len(),
            forall|k: int| from <= k < i ==> linear_space(s@[k]),
        decreases n - i,
    {
        if !lin_space(s.get_char(i)) {
            proof {
                lemma_skip_lin_at(s@, from as int, i as int);
            }
            return i;
        }
        i += 1;
    }
    proof {
        lemma_skip_lin_at(s@, from as int, s@.len() as int);
    }
    i
}

/// Whether `pat` occurs at position `i` of `s`, compared ASCII
/// case-insensitively.
pub fn str_match_ci(s: &str, i: usize, pat: &str) -> (r: bool)
    requires
        i <= s@.len(),
    ensures
        r == match_ci_at(s@, i as int, pat@),
{
    let m = pat.unicode_len();
    let n = s.unicode_len();
    if m > n - i {
        return false;
    }
    let mut j: usize = 0;
    while j < m
        invariant
            j <= m,
            m == pat@.len(),
            n == s@.len(),
            i + m <= n,
            forall|k: int| 0 <= k < j ==> eq_ci(s@[i + k], #[trigger] pat@[k]),
        decreases m - j,
    {
        let a = s.get_char(i + j);
        let b = pat.get_char(j);
        let av: u32 = if 'a' <= a && a <= 'z' {
            a as u32 - 32
        } else {
            a as u32
        };
        let bv: u32 = if 'a' <= b && b <= 'z' {
            b as u32 - 32
        } else {
            b as u32
        };
        if av != bv {
            proof {
                assert(!eq_ci(s@[i + j], pat@[j as int]));
            }
            return false;
        }
        j += 1;
    }
    true
}

} // verus!
