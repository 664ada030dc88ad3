//! Classification of filesystem-path text.
//!
//! The text must begin with a path root — a drive letter with a colon and a
//! separator, a run of separators, or one or two dots followed by
//! separators — then intermediate segments free of reserved path
//! characters, then a final segment with no dot and no trailing whitespace,
//! closed by a dot and a three-or-four character extension.

use vstd::prelude::*;
use crate::chars::{is_digit, is_space, digit, space};

verus! {

/// A path separator.
pub open spec fn is_sep(c: char) -> bool {
    c == '\\' || c == '/'
}

/// An ASCII letter.
pub open spec fn is_alpha(c: char) -> bool {
    ('a' <= c && c <= 'z') || ('A' <= c && c <= 'Z')
}

/// A character reserved in every path segment.
pub open spec fn reserved(c: char) -> bool {
    c == '\n' || c == '<' || c == '>' || c == ':' || c == '"' || c == '|' || c == '?' || c == '*'
}

/// A character allowed in the final segment: not a separator, not a dot,
/// not reserved.
pub open spec fn fname_char(c: char) -> bool {
    !is_sep(c) && c != '.' && !reserved(c)
}

/// A word character, as an extension is made of: an ASCII letter, a digit,
/// or an underscore.
pub open spec fn word_char(c: char) -> bool {
    is_digit(c) || is_alpha(c) || c == '_'
}

/// Index of the first non-separator in `s` at or after `from`; `s.len()`
/// when there is none.
pub open spec fn skip_seps(s: Seq<char>, from: int) -> int
    decreases s.len() - from,
{
    if from < 0 || from >= s.len() {
        s.len() as int
    } else if is_sep(s[from]) {
        skip_seps(s, from + 1)
    } else {
        from
    }
}

proof fn lemma_skip_seps_at(s: Seq<char>, from: int, i: int)
    requires
        0 <= from <= i <= s.len(),
        forall|k: int| from <= k < i ==> is_sep(s[k]),
        i == s.len() || !is_sep(s[i]),
    ensures
        skip_seps(s, from) == i,
    decreases i - from,
{
    if from < i {
        lemma_skip_seps_at(s, from + 1, i);
    }
}

/// Length of the path root at the start of `s`; 0 when there is none.
pub open spec fn root_len(s: Seq<char>) -> int {
    if s.len() >= 3 && is_alpha(s[0]) && s[1] == ':' && is_sep(s[2]) {
        3
    } else if s.len() >= 1 && is_sep(s[0]) {
        skip_seps(s, 0)
    } else if s.len() >= 3 && s[0] == '.' && s[1] == '.' && is_sep(s[2]) {
        skip_seps(s, 2)
    } else if s.len() >= 2 && s[0] == '.' && is_sep(s[1]) {
        skip_seps(s, 1)
    } else {
        0
    }
}

/// Start of the longest run of final-segment characters ending just before
/// `k`, bounded below by `r`.
pub open spec fn run_back(s: Seq<char>, r: int, k: int) -> int
    decreases k - r,
{
    if k <= r {
        r
    } else if fname_char(s[k - 1]) {
        run_back(s, r, k - 1)
    } else {
        k
    }
}

proof fn lemma_run_back_at(s: Seq<char>, r: int, f: int, k: int)
    requires
        0 <= r <= f <= k <= s.len(),
        forall|t: int| f <= t < k ==> fname_char(s[t]),
        f == r || !fname_char(s[f - 1]),
    ensures
        run_back(s, r, k) == f,
    decreases k - f,
{
    if k > f {
        lemma_run_back_at(s, r, f, k - 1);
    }
}

/// What must follow a root of length `r` for an extension of length `e`:
/// intermediate segments free of reserved characters up to the final
/// separator, a non-empty final segment of allowed characters not ending in
/// whitespace, a dot, and `e` word characters closing the text.
pub open spec fn file_path_body(s: Seq<char>, r: int, e: int) -> bool {
    let dot = s.len() - e - 1;
    let f = run_back(s, r, dot);
    &&& dot >= r + 1
    &&& s[dot] == '.'
    &&& (forall|k: int| dot < k < s.len() ==> word_char(s[k]))
    &&& !is_space(s[dot - 1])
    &&& f < dot
    &&& (f == r || is_sep(s[f - 1]))
    &&& (forall|k: int| r <= k < f ==> !reserved(s[k]))
}

/// A well-formed filesystem path: a root, then a body with a three- or
/// four-character extension.
pub open spec fn valid_file_path(s: Seq<char>) -> bool {
    let r = root_len(s);
    r > 0 && (file_path_body(s, r, 3) || file_path_body(s, r, 4))
}

fn sep_c(c: char) -> (r: bool)
    ensures
        r == is_sep(c),
{
    c == '\\' || c == '/'
}

fn alpha_c(c: char) -> (r: bool)
    ensures
        r == is_alpha(c),
{
    ('a' <= c && c <= 'z') || ('A' <= c && c <= 'Z')
}

fn reserved_c(c: char) -> (r: bool)
    ensures
        r == reserved(c),
{
    c == '\n' || c == '<' || c == '>' || c == ':' || c == '"' || c == '|' || c == '?' || c == '*'
}

fn fname_c(c: char) -> (r: bool)
    ensures
        r == fname_char(c),
{
    !sep_c(c) && c != '.' && !reserved_c(c)
}

pub fn word_c(c: char) -> (r: bool)
    ensures
        r == word_char(c),
{
    digit(c) || alpha_c(c) || c == '_'
}

/// First non-separator in `s` at or after `from`, as `skip_seps` states it.
fn str_skip_seps(s: &str, from: usize) -> (r: usize)
    requires
        from <= s@.len(),
    ensures
        r == skip_seps(s@, from as int),
        from <= r <= s@.len(),
{
    let n = s.unicode_len();
    let mut i = from;
    while i < n
        invariant
            from <= i <= n,
            n == s@.len(),
            forall|k: int| from <= k < i ==> is_sep(s@[k]),
        decreases n - i,
    {
        if !sep_c(s.get_char(i)) {
            proof {
                lemma_skip_seps_at(s@, from as int, i as int);
            }
            return i;
        }
        i += 1;
    }
    proof {
        lemma_skip_seps_at(s@, from as int, s@.len() as int);
    }
    i
}

/// Check the body for one extension length.
fn body_check(s: &str, r: usize, e: usize) -> (ok: bool)
    requires
        1 <= r <= s@.len(),
        e == 3 || e == 4,
    ensures
        ok == file_path_body(s@, r as int, e as int),
{
    let n = s.unicode_len();
    if n - r < e + 2 {
        return false;
    }
    let dot = n - e - 1;
    if s.get_char(dot) != '.' {
        return false;
    }
    let mut k = dot + 1;
    while k < n
        invariant
            dot < k <= n,
            n == s@.len(),
            dot == n - e - 1,
            forall|t: int| dot < t < k ==> word_char(s@[t]),
        decreases n - k,
    {
        if !word_c(s.get_char(k)) {
            assert(!word_char(s@[k as int]));
            return false;
        }
        k += 1;
    }
    if space(s.get_char(dot - 1)) {
        return false;
    }
    let mut f = dot;
    while f > r && fname_c(s.get_char(f - 1))
        invariant
            r <= f <= dot,
            dot < n == s@.len(),
            forall|t: int| f <= t < dot ==> fname_char(s@[t]),
        decreases f,
    {
        f -= 1;
    }
    proof {
        lemma_run_back_at(s@, r as int, f as int, dot as int);
    }
    if f == dot {
        return false;
    }
    if !(f == r || sep_c(s.get_char(f - 1))) {
        return false;
    }
    let mut k = r;
    while k < f
        invariant
            r <= k <= f,
            f <= n == s@.len(),
            dot == n - e - 1,
            f == run_back(s@, r as int, dot as int),
            f < dot,
            forall|t: int| r <= t < k ==> !reserved(s@[t]),
        decreases f - k,
    {
        if reserved_c(s.get_char(k)) {
            assert(reserved(s@[k as int]));
            return false;
        }
        k += 1;
    }
    true
}

/// Whether the whole input is shaped like a filesystem path with an
/// extension; empty input is rejected outright.
pub fn is_file_path(value: &str) -> (r: bool)
    ensures
        r == valid_file_path(value@),
{
    let n = value.unicode_len();
    if n == 0 {
        return false;
    }
    let c0 = value.get_char(0);
    let root: usize = if n >= 3 && alpha_c(c0) && value.get_char(1) == ':' && sep_c(
        value.get_char(2),
    ) {
        3
    } else if sep_c(c0) {
        str_skip_seps(value, 0)
    } else if n >= 3 && c0 == '.' && value.get_char(1) == '.' && sep_c(value.get_char(2)) {
        str_skip_seps(value, 2)
    } else if n >= 2 && c0 == '.' && sep_c(value.get_char(1)) {
        str_skip_seps(value, 1)
    } else {
        return false;
    };
    assert(root == root_len(value@));
    if root == 0 {
        return false;
    }
    body_check(value, root, 3) || body_check(value, root, 4)
}

} // verus!
