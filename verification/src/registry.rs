//! Classification of registry-style path text.
//!
//! The text must hold a backslash separator, must not look like a
//! pattern expression (no caret, no bracketed digit range, no braced
//! repetition count), and some position must open a recognized token: a
//! root-hive name, a well-known top-level subkey name at a line start, or a
//! security-identifier shape, each continued by a separator and further
//! non-blank content.

use vstd::prelude::*;
use crate::chars::{find_char, is_digit, match_ci_at, skip_digits, skip_spaces, str_find,
    str_match_ci, str_skip_digits, str_skip_spaces, digit};

verus! {

/// `i` starts a line, or follows a backslash.
pub open spec fn anchor_or_bs(s: Seq<char>, i: int) -> bool {
    i == 0 || s[i - 1] == '\n' || s[i - 1] == '\\'
}

/// `i` starts a line.
pub open spec fn at_line(s: Seq<char>, i: int) -> bool {
    i == 0 || s[i - 1] == '\n'
}

/// Non-blank content follows position `q` on its line.
pub open spec fn rest_ok(s: Seq<char>, q: int) -> bool {
    skip_spaces(s, q) < find_char(s, '\n', q)
}

/// A bracketed digit range `[d-d]` occurs at `i`.
pub open spec fn digit_range_at(s: Seq<char>, i: int) -> bool {
    &&& 0 <= i
    &&& i + 4 < s.len()
    &&& s[i] == '['
    &&& is_digit(s[i + 1])
    &&& s[i + 2] == '-'
    &&& is_digit(s[i + 3])
    &&& s[i + 4] == ']'
}

/// A braced repetition count `{m,n}` occurs at `i` (the counts may be
/// absent, the comma may not).
pub open spec fn brace_count_at(s: Seq<char>, i: int) -> bool {
    let a = skip_digits(s, i + 1);
    &&& 0 <= i
    &&& i < s.len()
    &&& s[i] == '{'
    &&& a < s.len()
    &&& s[a] == ','
    &&& {
        let b = skip_digits(s, a + 1);
        b < s.len() && s[b] == '}'
    }
}

/// The veto: the text is shaped like a pattern expression.
pub open spec fn registry_veto(s: Seq<char>) -> bool {
    ||| find_char(s, '^', 0) < s.len()
    ||| exists|i: int| digit_range_at(s, i)
    ||| exists|i: int| brace_count_at(s, i)
}

/// One root-hive name opens at `i` and is continued by a backslash, or by
/// an underscore, more of the name, and a backslash, with non-blank content
/// after.
pub open spec fn hive_one(s: Seq<char>, i: int, name: Seq<char>) -> bool {
    let p = i + name.len();
    &&& match_ci_at(s, i, name)
    &&& p < s.len()
    &&& ((s[p] == '\\' && rest_ok(s, p + 1)) || (s[p] == '_' && {
        let bs = find_char(s, '\\', p + 2);
        bs < s.len() && bs < find_char(s, '\n', p + 1) && rest_ok(s, bs + 1)
    }))
}

/// A root-hive token opens at `i`.
pub open spec fn hive_at(s: Seq<char>, i: int) -> bool {
    &&& anchor_or_bs(s, i)
    &&& (hive_one(s, i, "HKEY"@) || hive_one(s, i, "HKLM"@) || hive_one(s, i, "HKCU"@)
        || hive_one(s, i, "HKCC"@) || hive_one(s, i, "HKCR"@) || hive_one(s, i, "HKU"@))
}

/// One well-known subkey name opens at `i`, continued by a backslash and
/// non-blank content.
pub open spec fn seg_one(s: Seq<char>, i: int, name: Seq<char>) -> bool {
    let p = i + name.len();
    &&& match_ci_at(s, i, name)
    &&& p < s.len()
    &&& s[p] == '\\'
    &&& rest_ok(s, p + 1)
}

/// A well-known top-level subkey name opens at `i`, at a line start.
pub open spec fn seg_at(s: Seq<char>, i: int) -> bool {
    &&& at_line(s, i)
    &&& (seg_one(s, i, "COMPONENTS"@) || seg_one(s, i, "DRIVERS"@) || seg_one(s, i, "ELAM"@)
        || seg_one(s, i, "HARDWARE"@) || seg_one(s, i, "SAM"@) || seg_one(s, i, "Schema"@)
        || seg_one(s, i, "SECURITY"@) || seg_one(s, i, "SOFTWARE"@) || seg_one(s, i, "SYSTEM"@)
        || seg_one(s, i, "AppEvents"@) || seg_one(s, i, "Console"@) || seg_one(
        s,
        i,
        "Control Panel"@,
    ) || seg_one(s, i, "Control"@) || seg_one(s, i, "Secrets"@) || seg_one(s, i, "Environment"@)
        || seg_one(s, i, "EUDC"@) || seg_one(s, i, "Keyboard Layout"@) || seg_one(
        s,
        i,
        "Network"@,
    ) || seg_one(s, i, "Printers"@) || seg_one(s, i, "Uninstall"@) || seg_one(
        s,
        i,
        "Volatile Environment"@,
    ))
}

/// A security-identifier shape `S-<digit>...` opens at `i`, continued by a
/// backslash on its line and non-blank content.
pub open spec fn sid_at(s: Seq<char>, i: int) -> bool {
    let bs = find_char(s, '\\', i + 3);
    &&& anchor_or_bs(s, i)
    &&& 0 <= i
    &&& i + 2 < s.len()
    &&& (s[i] == 'S' || s[i] == 's')
    &&& s[i + 1] == '-'
    &&& is_digit(s[i + 2])
    &&& bs < s.len()
    &&& bs < find_char(s, '\n', i + 3)
    &&& rest_ok(s, bs + 1)
}

/// Some recognized registry token opens somewhere in the text.
pub open spec fn registry_positive(s: Seq<char>) -> bool {
    exists|i: int| 0 <= i < s.len() && (hive_at(s, i) || seg_at(s, i) || sid_at(s, i))
}

/// A registry-style path: non-empty, holding a backslash, not shaped like a
/// pattern expression, and opening a recognized token.
pub open spec fn valid_registry_key(s: Seq<char>) -> bool {
    &&& s.len() > 0
    &&& find_char(s, '\\', 0) < s.len()
    &&& !registry_veto(s)
    &&& registry_positive(s)
}

/// Any input without a backslash separator is never a registry path.
pub proof fn lemma_registry_key_needs_separator(s: Seq<char>)
    requires
        forall|i: int| 0 <= i < s.len() ==> s[i] != '\\',
    ensures
        !valid_registry_key(s),
{
    crate::chars::lemma_find_char_bounds(s, '\\', 0);
}

/// Check `rest_ok` at `q`.
fn rest_check(s: &str, q: usize) -> (r: bool)
    requires
        q <= s@.len(),
    ensures
        r == rest_ok(s@, q as int),
{
    let w = str_skip_spaces(s, q);
    let nl = str_find(s, '\n', q);
    w < nl
}

/// Check `hive_one` for one name.
fn hive_one_check(s: &str, i: usize, name: &str) -> (r: bool)
    requires
        i <= s@.len(),
    ensures
        r == hive_one(s@, i as int, name@),
{
    if !str_match_ci(s, i, name) {
        return false;
    }
    let n = s.unicode_len();
    let l = name.unicode_len();
    let p = i + l;
    if p >= n {
        return false;
    }
    let c = s.get_char(p);
    if c == '\\' {
        if rest_check(s, p + 1) {
            return true;
        }
    }
    if c != '_' {
        return false;
    }
    if n - p < 2 {
        proof {
            assert(find_char(s@, '\\', p as int + 2) == s@.len() as int);
        }
        return false;
    }
    let bs = str_find(s, '\\', p + 2);
    if bs == n {
        return false;
    }
    let nl = str_find(s, '\n', p + 1);
    bs < nl && rest_check(s, bs + 1)
}

/// Check `seg_one` for one name.
fn seg_one_check(s: &str, i: usize, name: &str) -> (r: bool)
    requires
        i <= s@.len(),
    ensures
        r == seg_one(s@, i as int, name@),
{
    if !str_match_ci(s, i, name) {
        return false;
    }
    let n = s.unicode_len();
    let l = name.unicode_len();
    let p = i + l;
    if p >= n {
        return false;
    }
    if s.get_char(p) != '\\' {
        return false;
    }
    rest_check(s, p + 1)
}

/// Check whether a recognized token opens at `i`.
fn token_at_check(s: &str, i: usize) -> (r: bool)
    requires
        i < s@.len(),
    ensures
        r == (hive_at(s@, i as int) || seg_at(s@, i as int) || sid_at(s@, i as int)),
{
    let n = s.unicode_len();
    let anchored_bs = i == 0 || s.get_char(i - 1) == '\n' || s.get_char(i - 1) == '\\';
    let at_line_start = i == 0 || s.get_char(i - 1) == '\n';
    let mut found = false;
    if anchored_bs {
        found = hive_one_check(s, i, "HKEY") || hive_one_check(s, i, "HKLM") || hive_one_check(
            s,
            i,
            "HKCU",
        ) || hive_one_check(s, i, "HKCC") || hive_one_check(s, i, "HKCR") || hive_one_check(
            s,
            i,
            "HKU",
        );
    }
    if !found && at_line_start {
        found = seg_one_check(s, i, "COMPONENTS") || seg_one_check(s, i, "DRIVERS")
            || seg_one_check(s, i, "ELAM") || seg_one_check(s, i, "HARDWARE") || seg_one_check(
            s,
            i,
            "SAM",
        ) || seg_one_check(s, i, "Schema") || seg_one_check(s, i, "SECURITY") || seg_one_check(
            s,
            i,
            "SOFTWARE",
        ) || seg_one_check(s, i, "SYSTEM") || seg_one_check(s, i, "AppEvents") || seg_one_check(
            s,
            i,
            "Console",
        ) || seg_one_check(s, i, "Control Panel") || seg_one_check(s, i, "Control")
            || seg_one_check(s, i, "Secrets") || seg_one_check(s, i, "Environment")
            || seg_one_check(s, i, "EUDC") || seg_one_check(s, i, "Keyboard Layout")
            || seg_one_check(s, i, "Network") || seg_one_check(s, i, "Printers")
            || seg_one_check(s, i, "Uninstall") || seg_one_check(s, i, "Volatile Environment");
    }
    if !found && anchored_bs {
        let c = s.get_char(i);
        if (c == 'S' || c == 's') && n - i > 2 && s.get_char(i + 1) == '-' && digit(
            s.get_char(i + 2),
        ) {
            let bs = str_find(s, '\\', i + 3);
            if bs < n {
                let nl = str_find(s, '\n', i + 3);
                found = bs < nl && rest_check(s, bs + 1);
            }
        }
    }
    found
}

/// Check whether a veto construct opens at `i`.
fn veto_at_check(s: &str, i: usize) -> (r: bool)
    requires
        i < s@.len(),
    ensures
        r == (digit_range_at(s@, i as int) || brace_count_at(s@, i as int)),
{
    let n = s.unicode_len();
    let c = s.get_char(i);
    let range = c == '[' && n - i > 4 && digit(s.get_char(i + 1)) && s.get_char(i + 2) == '-'
        && digit(s.get_char(i + 3)) && s.get_char(i + 4) == ']';
    let brace = c == '{' && {
        let a = str_skip_digits(s, i + 1);
        a < n && s.get_char(a) == ',' && {
            let b = str_skip_digits(s, a + 1);
            b < n && s.get_char(b) == '}'
        }
    };
    range || brace
}

/// Whether the whole input is shaped like a registry path; input without a
/// backslash separator is rejected outright.
pub fn is_registry_key(value: &str) -> (r: bool)
    ensures
        r == valid_registry_key(value@),
{
    let n = value.unicode_len();
    if n == 0 {
        return false;
    }
    let k = str_find(value, '\\', 0);
    if k == n {
        return false;
    }
    if str_find(value, '^', 0) < n {
        return false;
    }
    let mut i: usize = 0;
    while i < n
        invariant
            i <= n,
            n == value@.len(),
            forall|j: int|
                0 <= j < i ==> !(digit_range_at(value@, j) || brace_count_at(value@, j)),
        decreases n - i,
    {
        if veto_at_check(value, i) {
            proof {
                assert(registry_veto(value@));
            }
            return false;
        }
        i += 1;
    }
    proof {
        assert forall|j: int| !digit_range_at(value@, j) by {
            if 0 <= j < n {
            } else {
            }
        }
        assert forall|j: int| !brace_count_at(value@, j) by {
            if 0 <= j < n {
            } else {
            }
        }
        assert(!registry_veto(value@));
    }
    let mut i: usize = 0;
    while i < n
        invariant
            i <= n,
            n == value@.len(),
            find_char(value@, '\\', 0) < n,
            !registry_veto(value@),
            forall|j: int|
                0 <= j < i ==> !(hive_at(value@, j) || seg_at(value@, j) || sid_at(value@, j)),
        decreases n - i,
    {
        if token_at_check(value, i) {
            proof {
                assert(registry_positive(value@));
            }
            return true;
        }
        i += 1;
    }
    proof {
        assert(!registry_positive(value@));
    }
    false
}

} // verus!
