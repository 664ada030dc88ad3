//! Validation of CIDR range text: an address, a `/`, and a prefix length.
//!
//! The suffix after the first `/` must read as a non-negative decimal
//! integer (an optional leading `+` is tolerated, as integer parsing
//! tolerates it) within the family's bound: 32 for IPv4, 128 for IPv6.

use vstd::prelude::*;
use crate::chars::{all_digits, dec_val, digit, digit_val, find_char, is_digit,
    lemma_dec_val_prefix, str_find};
use crate::ipv4::{is_ipv4, valid_ipv4};
use crate::ipv6::{is_ipv6, valid_ipv6};

verus! {

/// A well-formed prefix length: optional `+`, then one or more digits whose
/// value is at most `bound`.
pub open spec fn valid_prefix_len(s: Seq<char>, bound: int) -> bool {
    let digits = if s.len() > 0 && s[0] == '+' {
        s.subrange(1, s.len() as int)
    } else {
        s
    };
    digits.len() > 0 && all_digits(digits) && dec_val(digits) <= bound
}

/// A well-formed IPv4 range: a `/` splitting a well-formed address from a
/// prefix length of at most 32.
pub open spec fn valid_ipv4_cidr(s: Seq<char>) -> bool {
    let k = find_char(s, '/', 0);
    &&& k < s.len()
    &&& valid_ipv4(s.subrange(0, k))
    &&& valid_prefix_len(s.subrange(k + 1, s.len() as int), 32)
}

/// A well-formed IPv6 range: a `/` splitting a well-formed address from a
/// prefix length of at most 128.
pub open spec fn valid_ipv6_cidr(s: Seq<char>) -> bool {
    let k = find_char(s, '/', 0);
    &&& k < s.len()
    &&& valid_ipv6(s.subrange(0, k))
    &&& valid_prefix_len(s.subrange(k + 1, s.len() as int), 128)
}

/// A well-formed prefix length consists of digits, but for a leading `+`.
proof fn lemma_prefix_len_chars(s: Seq<char>, bound: int)
    requires
        valid_prefix_len(s, bound),
    ensures
        forall|i: int| 0 <= i < s.len() ==> is_digit(#[trigger] s[i]) || (i == 0 && s[0] == '+'),
{
    let digits = if s.len() > 0 && s[0] == '+' {
        s.subrange(1, s.len() as int)
    } else {
        s
    };
    assert forall|i: int|
        0 <= i < s.len() implies is_digit(s[i]) || (i == 0 && s[0] == '+') by {
        if s.len() > 0 && s[0] == '+' {
            if i > 0 {
                assert(digits[i - 1] == s[i]);
            }
        } else {
            assert(digits[i] == s[i]);
        }
    }
}

/// A single `/` at `i` splits `s` into a well-formed IPv4 address and a
/// prefix length of at most 32.
pub open spec fn splits_ipv4_cidr(s: Seq<char>, i: int) -> bool {
    &&& 0 <= i < s.len()
    &&& s[i] == '/'
    &&& (forall|j: int| 0 <= j < s.len() && s[j] == '/' ==> j == i)
    &&& valid_ipv4(s.subrange(0, i))
    &&& valid_prefix_len(s.subrange(i + 1, s.len() as int), 32)
}

/// A single `/` at `i` splits `s` into a well-formed IPv6 address and a
/// prefix length of at most 128.
pub open spec fn splits_ipv6_cidr(s: Seq<char>, i: int) -> bool {
    &&& 0 <= i < s.len()
    &&& s[i] == '/'
    &&& (forall|j: int| 0 <= j < s.len() && s[j] == '/' ==> j == i)
    &&& valid_ipv6(s.subrange(0, i))
    &&& valid_prefix_len(s.subrange(i + 1, s.len() as int), 128)
}

/// A range is well-formed exactly when exactly one `/` is present and it
/// splits a well-formed address of the family from a prefix length within
/// the family's bound.
pub proof fn lemma_ipv4_cidr_characterization(s: Seq<char>)
    ensures
        valid_ipv4_cidr(s) <==> exists|i: int| splits_ipv4_cidr(s, i),
{
    let k = find_char(s, '/', 0);
    crate::chars::lemma_find_char_bounds(s, '/', 0);
    if valid_ipv4_cidr(s) {
        let pre = s.subrange(0, k);
        let suf = s.subrange(k + 1, s.len() as int);
        crate::ipv4::lemma_valid_ipv4_chars(pre);
        lemma_prefix_len_chars(suf, 32);
        assert forall|j: int| 0 <= j < s.len() && s[j] == '/' implies j == k by {
            if j < k {
            } else if j > k {
                assert(suf[j - k - 1] == s[j]);
            }
        }
        assert(splits_ipv4_cidr(s, k));
    }
    if exists|i: int| splits_ipv4_cidr(s, i) {
        let i = choose|i: int| splits_ipv4_cidr(s, i);
        assert forall|j: int| 0 <= j < i implies s[j] != '/' by {}
        crate::chars::lemma_find_char_at(s, '/', 0, i);
        assert(valid_ipv4_cidr(s));
    }
}

/// The IPv6 counterpart of the range characterization, with bound 128.
pub proof fn lemma_ipv6_cidr_characterization(s: Seq<char>)
    ensures
        valid_ipv6_cidr(s) <==> exists|i: int| splits_ipv6_cidr(s, i),
{
    let k = find_char(s, '/', 0);
    crate::chars::lemma_find_char_bounds(s, '/', 0);
    if valid_ipv6_cidr(s) {
        let pre = s.subrange(0, k);
        let suf = s.subrange(k + 1, s.len() as int);
        crate::ipv6::lemma_valid_ipv6_chars(pre);
        lemma_prefix_len_chars(suf, 128);
        assert forall|j: int| 0 <= j < s.len() && s[j] == '/' implies j == k by {
            if j < k {
            } else if j > k {
                assert(suf[j - k - 1] == s[j]);
            }
        }
        assert(splits_ipv6_cidr(s, k));
    }
    if exists|i: int| splits_ipv6_cidr(s, i) {
        let i = choose|i: int| splits_ipv6_cidr(s, i);
        assert forall|j: int| 0 <= j < i implies s[j] != '/' by {}
        crate::chars::lemma_find_char_at(s, '/', 0, i);
        assert(valid_ipv6_cidr(s));
    }
}

/// Check a prefix-length suffix against `bound`.
fn check_prefix_len(s: &str, bound: u32) -> (r: bool)
    ensures
        r == valid_prefix_len(s@, bound as int),
{
    let n = s.unicode_len();
    let start: usize = if n > 0 && s.get_char(0) == '+' {
        1
    } else {
        0
    };
    let ghost digits = if s@.len() > 0 && s@[0] == '+' {
        s@.subrange(1, s@.len() as int)
    } else {
        s@
    };
    proof {
        assert(digits =~= s@.subrange(start as int, n as int));
    }
    if start >= n {
        return false;
    }
    let mut j = start;
    while j < n
        invariant
            start <= j <= n,
            n == s@.len(),
            digits == (if s@.len() > 0 && s@[0] == '+' {
                s@.subrange(1, s@.len() as int)
            } else {
                s@
            }),
            digits =~= s@.subrange(start as int, n as int),
            forall|k: int| start <= k < j ==> is_digit(s@[k]),
        decreases n - j,
    {
        if !digit(s.get_char(j)) {
            proof {
                assert(digits[j - start] == s@[j as int]);
                assert(!all_digits(digits)) by {
                    assert(!is_digit(digits[j - start]));
                }
            }
            return false;
        }
        j += 1;
    }
    proof {
        assert forall|k: int| 0 <= k < digits.len() implies is_digit(digits[k]) by {
            assert(digits[k] == s@[start + k]);
        }
    }
    let mut acc: u64 = 0;
    let mut j = start;
    while j < n
        invariant
            start <= j <= n,
            n == s@.len(),
            digits == (if s@.len() > 0 && s@[0] == '+' {
                s@.subrange(1, s@.len() as int)
            } else {
                s@
            }),
            forall|k: int| start <= k < n ==> is_digit(s@[k]),
            all_digits(digits),
            digits =~= s@.subrange(start as int, n as int),
            acc as int == dec_val(s@.subrange(start as int, j as int)),
            acc <= bound,
        decreases n - j,
    {
        let c = s.get_char(j);
        let d: u32 = c as u32 - 48;
        proof {
            let a = s@.subrange(start as int, j as int);
            let b = s@.subrange(start as int, j as int + 1);
            assert(b.drop_last() =~= a);
            assert(b.last() == s@[j as int]);
            assert(dec_val(b) == dec_val(a) * 10 + digit_val(s@[j as int]));
        }
        acc = acc * 10 + d as u64;
        j += 1;
        if acc > bound as u64 {
            proof {
                assert(s@.subrange(start as int, j as int) =~= digits.subrange(
                    0,
                    j - start,
                ));
                lemma_dec_val_prefix(digits, j as int - start as int);
            }
            return false;
        }
    }
    proof {
        assert(s@.subrange(start as int, n as int) =~= digits);
    }
    true
}

/// Whether the whole input is a well-formed IPv4 CIDR range.
pub fn is_ipv4_cidr(value: &str) -> (r: bool)
    ensures
        r == valid_ipv4_cidr(value@),
{
    let n = value.unicode_len();
    let k = str_find(value, '/', 0);
    if k == n {
        return false;
    }
    let prefix = value.substring_char(0, k);
    let suffix = value.substring_char(k + 1, n);
    is_ipv4(prefix) && check_prefix_len(suffix, 32)
}

/// Whether the whole input is a well-formed IPv6 CIDR range.
pub fn is_ipv6_cidr(value: &str) -> (r: bool)
    ensures
        r == valid_ipv6_cidr(value@),
{
    let n = value.unicode_len();
    let k = str_find(value, '/', 0);
    if k == n {
        return false;
    }
    let prefix = value.substring_char(0, k);
    let suffix = value.substring_char(k + 1, n);
    is_ipv6(prefix) && check_prefix_len(suffix, 128)
}

} // verus!
