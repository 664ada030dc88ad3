//! Classification of SQL-statement text.
//!
//! The test is line-oriented and case-insensitive: the text qualifies when
//! some line, after leading spaces, starts with a statement keyword
//! followed by trailing content, or opens one of the spanning shapes —
//! INSERT with a later VALUES, FROM with a later WHERE, SELECT or PATINDEX
//! with a later WHERE, FROM or AS, or a BEGIN...END block — none of which
//! may cross a blank line.

use vstd::prelude::*;
use crate::chars::{line_anchor, linear_space, lin_space, match_ci_at, skip_lin, str_match_ci,
    str_skip_lin};
use crate::filepath::{word_c, word_char};

verus! {

/// A statement keyword opens at `p` with whitespace and trailing content
/// after it.
pub open spec fn kw_sp(s: Seq<char>, p: int, kw: Seq<char>) -> bool {
    &&& match_ci_at(s, p, kw)
    &&& p + kw.len() < s.len()
    &&& linear_space(s[p + kw.len()])
}

/// Some single statement keyword opens at `p`.
pub open spec fn single_kw(s: Seq<char>, p: int) -> bool {
    ||| kw_sp(s, p, "SELECT"@)
    ||| kw_sp(s, p, "UPDATE"@)
    ||| kw_sp(s, p, "DELETE"@)
    ||| kw_sp(s, p, "INSERT INTO"@)
    ||| kw_sp(s, p, "CREATE DATABASE"@)
    ||| kw_sp(s, p, "ALTER DATABASE"@)
    ||| kw_sp(s, p, "CREATE TABLE"@)
    ||| kw_sp(s, p, "ALTER TABLE"@)
    ||| kw_sp(s, p, "DROP TABLE"@)
    ||| kw_sp(s, p, "CREATE INDEX"@)
    ||| kw_sp(s, p, "DROP INDEX"@)
    ||| kw_sp(s, p, "DECLARE"@)
    ||| kw_sp(s, p, "SET"@)
    ||| kw_sp(s, p, "TRUNCATE"@)
    ||| kw_sp(s, p, "ADD"@)
    ||| kw_sp(s, p, "WHERE"@)
}

/// `t` starts a line holding nothing but line-bound whitespace.
pub open spec fn blank_line_start(s: Seq<char>, t: int) -> bool {
    &&& line_anchor(s, t)
    &&& {
        let w = skip_lin(s, t);
        w == s.len() || s[w] == '\n'
    }
}

/// No blank line starts within `[a, b)`.
pub open spec fn no_blank_between(s: Seq<char>, a: int, b: int) -> bool {
    forall|t: int| a <= t < b ==> !blank_line_start(s, t)
}

/// The second keyword of a spanning shape stands at `k`: whitespace on both
/// sides, content after, and no blank line since the first keyword ended at
/// `a`.
pub open spec fn pair_kw2_at(s: Seq<char>, a: int, k: int, kw2: Seq<char>) -> bool {
    &&& a + 3 <= k
    &&& match_ci_at(s, k, kw2)
    &&& linear_space(s[k - 1])
    &&& k + kw2.len() < s.len()
    &&& linear_space(s[k + kw2.len()])
    &&& no_blank_between(s, a + 1, k - 1)
}

/// A spanning shape opens at `p`: the first keyword, whitespace, then its
/// second keyword somewhere later.
pub open spec fn pair_at(s: Seq<char>, p: int, kw1: Seq<char>, kw2: Seq<char>) -> bool {
    let a = p + kw1.len();
    &&& match_ci_at(s, p, kw1)
    &&& a < s.len()
    &&& linear_space(s[a])
    &&& exists|k: int| pair_kw2_at(s, a, k, kw2)
}

/// A word-bounded END closes a block opened by a BEGIN at `p`, with no
/// blank line inside.
pub open spec fn end_at(s: Seq<char>, p: int, k: int) -> bool {
    &&& p + 6 <= k
    &&& match_ci_at(s, k, "END"@)
    &&& !word_char(s[k - 1])
    &&& (k + 3 >= s.len() || !word_char(s[k + 3]))
    &&& no_blank_between(s, p + 5, k)
}

/// A word-bounded BEGIN...END block opens at `p`.
pub open spec fn begin_at(s: Seq<char>, p: int) -> bool {
    &&& match_ci_at(s, p, "BEGIN"@)
    &&& p + 5 < s.len()
    &&& !word_char(s[p + 5])
    &&& exists|k: int| end_at(s, p, k)
}

/// A statement shape opens on the line starting at `l`, after leading
/// spaces.
pub open spec fn sql_line_at(s: Seq<char>, l: int) -> bool {
    let p = skip_lin(s, l);
    &&& line_anchor(s, l)
    &&& (single_kw(s, p) || pair_at(s, p, "INSERT"@, "VALUES"@) || pair_at(
        s,
        p,
        "FROM"@,
        "WHERE"@,
    ) || pair_at(s, p, "SELECT"@, "WHERE"@) || pair_at(s, p, "SELECT"@, "FROM"@) || pair_at(
        s,
        p,
        "SELECT"@,
        "AS"@,
    ) || pair_at(s, p, "PATINDEX"@, "WHERE"@) || pair_at(s, p, "PATINDEX"@, "FROM"@) || pair_at(
        s,
        p,
        "PATINDEX"@,
        "AS"@,
    ) || begin_at(s, p))
}

/// SQL-statement text: non-empty, with a qualifying line.
pub open spec fn valid_sql(s: Seq<char>) -> bool {
    s.len() > 0 && exists|l: int| 0 <= l < s.len() && sql_line_at(s, l)
}

/// Check `kw_sp` for one keyword.
fn kw_sp_check(s: &str, p: usize, kw: &str) -> (r: bool)
    requires
        p <= s@.len(),
    ensures
        r == kw_sp(s@, p as int, kw@),
{
    if !str_match_ci(s, p, kw) {
        return false;
    }
    let n = s.unicode_len();
    let l = kw.unicode_len();
    if n - p <= l {
        return false;
    }
    lin_space(s.get_char(p + l))
}

/// Check `blank_line_start` at `t`.
fn blank_start_check(s: &str, t: usize) -> (r: bool)
    requires
        t < s@.len(),
    ensures
        r == blank_line_start(s@, t as int),
{
    let anchored = t == 0 || s.get_char(t - 1) == '\n';
    if !anchored {
        return false;
    }
    let w = str_skip_lin(s, t);
    let n = s.unicode_len();
    w == n || s.get_char(w) == '\n'
}

/// Check `no_blank_between` over `[a, b)`.
fn no_blank_check(s: &str, a: usize, b: usize) -> (r: bool)
    requires
        b <= s@.len(),
    ensures
        r == no_blank_between(s@, a as int, b as int),
{
    let mut t = a;
    while t < b
        invariant
            a <= t,
            t <= b || t == a,
            b <= s@.len(),
            forall|u: int| a <= u < t ==> !blank_line_start(s@, u),
        decreases b - t,
    {
        if blank_start_check(s, t) {
            return false;
        }
        t += 1;
    }
    true
}

/// Check whether some `k` closes a spanning shape whose first keyword ended
/// at `a`.
fn pair_check(s: &str, p: usize, kw1: &str, kw2: &str) -> (r: bool)
    requires
        p <= s@.len(),
    ensures
        r == pair_at(s@, p as int, kw1@, kw2@),
{
    if !str_match_ci(s, p, kw1) {
        return false;
    }
    let n = s.unicode_len();
    let l1 = kw1.unicode_len();
    let a = p + l1;
    if a >= n {
        return false;
    }
    if !lin_space(s.get_char(a)) {
        return false;
    }
    if n - a < 4 {
        proof {
            assert forall|k: int| !pair_kw2_at(s@, a as int, k, kw2@) by {
                if pair_kw2_at(s@, a as int, k, kw2@) {
                    assert(k + kw2@.len() <= s@.len());
                    assert(kw2@.len() == 0);
                    assert(false);
                }
            }
        }
        return false;
    }
    let mut k = a + 3;
    while k < n
        invariant
            a + 3 <= k <= n,
            n == s@.len(),
            a == p + kw1@.len(),
            a + 4 <= n,
            match_ci_at(s@, p as int, kw1@),
            linear_space(s@[a as int]),
            forall|kk: int| kk < k ==> !pair_kw2_at(s@, a as int, kk, kw2@),
        decreases n - k,
    {
        let mut ok = false;
        if str_match_ci(s, k, kw2) {
            let l2 = kw2.unicode_len();
            if lin_space(s.get_char(k - 1)) && n - k > l2 {
                if lin_space(s.get_char(k + l2)) {
                    ok = no_blank_check(s, a + 1, k - 1);
                }
            }
        }
        if ok {
            proof {
                assert(pair_kw2_at(s@, a as int, k as int, kw2@));
            }
            return true;
        }
        proof {
            assert(!pair_kw2_at(s@, a as int, k as int, kw2@));
        }
        k += 1;
    }
    proof {
        assert forall|k: int| !pair_kw2_at(s@, a as int, k, kw2@) by {
            if k < n {
            } else {
                if pair_kw2_at(s@, a as int, k, kw2@) {
                    assert(k + kw2@.len() <= s@.len());
                    assert(kw2@.len() == 0);
                    assert(false);
                }
            }
        }
    }
    false
}

/// Check `begin_at` at `p`.
fn begin_check(s: &str, p: usize) -> (r: bool)
    requires
        p <= s@.len(),
    ensures
        r == begin_at(s@, p as int),
{
    proof {
        reveal_strlit("BEGIN");
        reveal_strlit("END");
    }
    if !str_match_ci(s, p, "BEGIN") {
        return false;
    }
    let n = s.unicode_len();
    if n - p < 7 {
        proof {
            assert forall|k: int| !end_at(s@, p as int, k) by {
                if end_at(s@, p as int, k) {
                    assert(k + 3 <= s@.len());
                    assert(false);
                }
            }
        }
        return false;
    }
    if word_c(s.get_char(p + 5)) {
        return false;
    }
    let mut k = p + 6;
    while k < n
        invariant
            p + 6 <= k <= n,
            n == s@.len(),
            p + 7 <= n,
            match_ci_at(s@, p as int, "BEGIN"@),
            "BEGIN"@.len() == 5,
            "END"@.len() == 3,
            !word_char(s@[p + 5]),
            forall|kk: int| kk < k ==> !end_at(s@, p as int, kk),
        decreases n - k,
    {
        let mut ok = false;
        if str_match_ci(s, k, "END") {
            if !word_c(s.get_char(k - 1)) {
                if n - k <= 3 || !word_c(s.get_char(k + 3)) {
                    ok = no_blank_check(s, p + 5, k);
                }
            }
        }
        if ok {
            proof {
                assert(end_at(s@, p as int, k as int));
            }
            return true;
        }
        proof {
            assert(!end_at(s@, p as int, k as int));
        }
        k += 1;
    }
    proof {
        assert forall|k: int| !end_at(s@, p as int, k) by {
            if k < n {
            } else {
                if end_at(s@, p as int, k) {
                    assert(k + 3 <= s@.len());
                    assert(false);
                }
            }
        }
    }
    false
}

/// Check whether any statement shape opens at `p`.
fn sql_form_check(s: &str, p: usize) -> (r: bool)
    requires
        p <= s@.len(),
    ensures
        r == (single_kw(s@, p as int) || pair_at(s@, p as int, "INSERT"@, "VALUES"@) || pair_at(
            s@,
            p as int,
            "FROM"@,
            "WHERE"@,
        ) || pair_at(s@, p as int, "SELECT"@, "WHERE"@) || pair_at(
            s@,
            p as int,
            "SELECT"@,
            "FROM"@,
        ) || pair_at(s@, p as int, "SELECT"@, "AS"@) || pair_at(
            s@,
            p as int,
            "PATINDEX"@,
            "WHERE"@,
        ) || pair_at(s@, p as int, "PATINDEX"@, "FROM"@) || pair_at(
            s@,
            p as int,
            "PATINDEX"@,
            "AS"@,
        ) || begin_at(s@, p as int)),
{
    kw_sp_check(s, p, "SELECT") || kw_sp_check(s, p, "UPDATE") || kw_sp_check(s, p, "DELETE")
        || kw_sp_check(s, p, "INSERT INTO") || kw_sp_check(s, p, "CREATE DATABASE")
        || kw_sp_check(s, p, "ALTER DATABASE") || kw_sp_check(s, p, "CREATE TABLE")
        || kw_sp_check(s, p, "ALTER TABLE") || kw_sp_check(s, p, "DROP TABLE") || kw_sp_check(
        s,
        p,
        "CREATE INDEX",
    ) || kw_sp_check(s, p, "DROP INDEX") || kw_sp_check(s, p, "DECLARE") || kw_sp_check(
        s,
        p,
        "SET",
    ) || kw_sp_check(s, p, "TRUNCATE") || kw_sp_check(s, p, "ADD") || kw_sp_check(s, p, "WHERE")
        || pair_check(s, p, "INSERT", "VALUES") || pair_check(s, p, "FROM", "WHERE")
        || pair_check(s, p, "SELECT", "WHERE") || pair_check(s, p, "SELECT", "FROM")
        || pair_check(s, p, "SELECT", "AS") || pair_check(s, p, "PATINDEX", "WHERE")
        || pair_check(s, p, "PATINDEX", "FROM") || pair_check(s, p, "PATINDEX", "AS")
        || begin_check(s, p)
}

/// Whether the input holds a line shaped like a SQL statement; empty input
/// is rejected outright.
pub fn is_sql(value: &str) -> (r: bool)
    ensures
        r == valid_sql(value@),
{
    let n = value.unicode_len();
    if n == 0 {
        return false;
    }
    let mut l: usize = 0;
    while l < n
        invariant
            l <= n,
            n == value@.len(),
            forall|ll: int| 0 <= ll < l ==> !sql_line_at(value@, ll),
        decreases n - l,
    {
        let anchored = l == 0 || value.get_char(l - 1) == '\n';
        if anchored {
            let p = str_skip_lin(value, l);
            if sql_form_check(value, p) {
                proof {
                    assert(sql_line_at(value@, l as int));
                    assert(valid_sql(value@));
                }
                return true;
            }
        }
        l += 1;
    }
    false
}

} // verus!
