//! Strict validation of IPv6 address text.
//!
//! An address is eight colon-separated hexadecimal groups; a trailing
//! dotted-quad IPv4 address may stand for the last two groups; a single `::`
//! may compress one or more zero groups.

use vstd::prelude::*;
use crate::chars::{all_hex_digits, find_char, hex_digit, hex_digit_val, hex_val, is_hex_digit,
    lemma_find_char_bounds, str_find};
use crate::ipv4::{ipv4_octets, parse_ipv4, valid_ipv4};

verus! {

/// A well-formed hexadecimal group: one to four hex digits.
pub open spec fn valid_group(s: Seq<char>) -> bool {
    1 <= s.len() <= 4 && all_hex_digits(s)
}

/// Colon-separated parts before a `::` compression: every part is a
/// hexadecimal group.
pub open spec fn valid_head(s: Seq<char>) -> bool
    decreases s.len(),
    via valid_head_dec
{
    let k = find_char(s, ':', 0);
    if k == s.len() {
        valid_group(s)
    } else {
        valid_group(s.subrange(0, k)) && valid_head(s.subrange(k + 1, s.len() as int))
    }
}

#[via_fn]
proof fn valid_head_dec(s: Seq<char>) {
    lemma_find_char_bounds(s, ':', 0);
}

/// Number of parts in a head.
pub open spec fn head_count(s: Seq<char>) -> int
    decreases s.len(),
    via head_count_dec
{
    let k = find_char(s, ':', 0);
    if k == s.len() {
        1
    } else {
        1 + head_count(s.subrange(k + 1, s.len() as int))
    }
}

#[via_fn]
proof fn head_count_dec(s: Seq<char>) {
    lemma_find_char_bounds(s, ':', 0);
}

/// The group values of a head, in order.
pub open spec fn head_vals(s: Seq<char>) -> Seq<int>
    decreases s.len(),
    via head_vals_dec
{
    let k = find_char(s, ':', 0);
    if k == s.len() {
        seq![hex_val(s)]
    } else {
        seq![hex_val(s.subrange(0, k))] + head_vals(s.subrange(k + 1, s.len() as int))
    }
}

#[via_fn]
proof fn head_vals_dec(s: Seq<char>) {
    lemma_find_char_bounds(s, ':', 0);
}

/// Colon-separated parts closing an address: every part is a hexadecimal
/// group, except that the last may instead be an embedded dotted-quad IPv4
/// address, which stands for two groups.
pub open spec fn valid_tail(s: Seq<char>) -> bool
    decreases s.len(),
    via valid_tail_dec
{
    let k = find_char(s, ':', 0);
    if k == s.len() {
        valid_group(s) || valid_ipv4(s)
    } else {
        valid_group(s.subrange(0, k)) && valid_tail(s.subrange(k + 1, s.len() as int))
    }
}

#[via_fn]
proof fn valid_tail_dec(s: Seq<char>) {
    lemma_find_char_bounds(s, ':', 0);
}

/// Number of groups a tail stands for (an embedded quad counts as two).
pub open spec fn tail_count(s: Seq<char>) -> int
    decreases s.len(),
    via tail_count_dec
{
    let k = find_char(s, ':', 0);
    if k == s.len() {
        if valid_ipv4(s) {
            2
        } else {
            1
        }
    } else {
        1 + tail_count(s.subrange(k + 1, s.len() as int))
    }
}

#[via_fn]
proof fn tail_count_dec(s: Seq<char>) {
    lemma_find_char_bounds(s, ':', 0);
}

/// The group values a tail stands for, in order.
pub open spec fn tail_vals(s: Seq<char>) -> Seq<int>
    decreases s.len(),
    via tail_vals_dec
{
    let k = find_char(s, ':', 0);
    if k == s.len() {
        if valid_ipv4(s) {
            let o = ipv4_octets(s);
            seq![o[0] * 256 + o[1], o[2] * 256 + o[3]]
        } else {
            seq![hex_val(s)]
        }
    } else {
        seq![hex_val(s.subrange(0, k))] + tail_vals(s.subrange(k + 1, s.len() as int))
    }
}

#[via_fn]
proof fn tail_vals_dec(s: Seq<char>) {
    lemma_find_char_bounds(s, ':', 0);
}

/// A tail has as many group values as it counts.
pub proof fn lemma_tail_vals_len(s: Seq<char>)
    ensures
        tail_vals(s).len() == tail_count(s),
    decreases s.len(),
{
    lemma_find_char_bounds(s, ':', 0);
    let k = find_char(s, ':', 0);
    if k < s.len() {
        lemma_tail_vals_len(s.subrange(k + 1, s.len() as int));
    }
}

/// A head has as many group values as it counts.
pub proof fn lemma_head_vals_len(s: Seq<char>)
    ensures
        head_vals(s).len() == head_count(s),
    decreases s.len(),
{
    lemma_find_char_bounds(s, ':', 0);
    let k = find_char(s, ':', 0);
    if k < s.len() {
        lemma_head_vals_len(s.subrange(k + 1, s.len() as int));
    }
}

/// Index of the first `::` in `s` at or after `from`; `s.len()` when none.
pub open spec fn find_dcolon(s: Seq<char>, from: int) -> int
    decreases s.len() - from,
{
    if from < 0 || from + 1 >= s.len() {
        s.len() as int
    } else if s[from] == ':' && s[from + 1] == ':' {
        from
    } else {
        find_dcolon(s, from + 1)
    }
}

/// A scan that stopped at the first `::` computes `find_dcolon`.
pub proof fn lemma_find_dcolon_at(s: Seq<char>, from: int, i: int)
    requires
        0 <= from <= i <= s.len(),
        forall|k: int|
            from <= k < i ==> !(k + 1 < s.len() && (#[trigger] s[k]) == ':' && s[k + 1] == ':'),
        i == s.len() || (i + 1 < s.len() && s[i] == ':' && s[i + 1] == ':'),
    ensures
        find_dcolon(s, from) == if i == s.len() {
            s.len() as int
        } else {
            i
        },
    decreases i - from,
{
    if from + 1 >= s.len() {
    } else if s[from] == ':' && s[from + 1] == ':' {
    } else {
        lemma_find_dcolon_at(s, from + 1, i);
    }
}

pub proof fn lemma_find_dcolon_bounds(s: Seq<char>, from: int)
    requires
        0 <= from <= s.len(),
    ensures
        from <= find_dcolon(s, from) <= s.len(),
        find_dcolon(s, from) < s.len() ==> find_dcolon(s, from) + 1 < s.len() && s[find_dcolon(
            s,
            from,
        )] == ':' && s[find_dcolon(s, from) + 1] == ':',
    decreases s.len() - from,
{
    if from + 1 < s.len() && !(s[from] == ':' && s[from + 1] == ':') {
        lemma_find_dcolon_bounds(s, from + 1);
    }
}

/// A well-formed IPv6 address: either eight groups with no compression, or a
/// single `::` with at most seven groups on its two sides together.
pub open spec fn valid_ipv6(s: Seq<char>) -> bool {
    let d = find_dcolon(s, 0);
    if d == s.len() {
        valid_tail(s) && tail_count(s) == 8
    } else {
        let left = s.subrange(0, d);
        let right = s.subrange(d + 2, s.len() as int);
        &&& (left.len() == 0 || valid_head(left))
        &&& (right.len() == 0 || valid_tail(right))
        &&& (if left.len() == 0 {
            0int
        } else {
            head_count(left)
        }) + (if right.len() == 0 {
            0int
        } else {
            tail_count(right)
        }) <= 7
    }
}

/// The eight group values of a well-formed address, zeros filled in for a
/// `::` compression.
pub open spec fn ipv6_groups(s: Seq<char>) -> Seq<int> {
    let d = find_dcolon(s, 0);
    if d == s.len() {
        tail_vals(s)
    } else {
        let left = s.subrange(0, d);
        let right = s.subrange(d + 2, s.len() as int);
        let lv = if left.len() == 0 {
            Seq::<int>::empty()
        } else {
            head_vals(left)
        };
        let rv = if right.len() == 0 {
            Seq::<int>::empty()
        } else {
            tail_vals(right)
        };
        lv + Seq::new((8 - lv.len() - rv.len()) as nat, |i: int| 0int) + rv
    }
}

/// A well-formed tail consists of hex digits, colons and dots alone.
pub proof fn lemma_valid_tail_chars(s: Seq<char>)
    requires
        valid_tail(s),
    ensures
        forall|i: int|
            0 <= i < s.len() ==> is_hex_digit(#[trigger] s[i]) || s[i] == ':' || s[i] == '.',
    decreases s.len(),
{
    lemma_find_char_bounds(s, ':', 0);
    let k = find_char(s, ':', 0);
    if k == s.len() {
        if !valid_group(s) {
            crate::ipv4::lemma_valid_ipv4_chars(s);
        }
    } else {
        let rest = s.subrange(k + 1, s.len() as int);
        lemma_valid_tail_chars(rest);
        assert forall|i: int|
            0 <= i < s.len() implies is_hex_digit(s[i]) || s[i] == ':' || s[i] == '.' by {
            if i < k {
                assert(is_hex_digit(s.subrange(0, k)[i]));
            } else if i == k {
            } else {
                assert(rest[i - k - 1] == s[i]);
            }
        }
    }
}

/// A well-formed head consists of hex digits and colons alone.
pub proof fn lemma_valid_head_chars(s: Seq<char>)
    requires
        valid_head(s),
    ensures
        forall|i: int| 0 <= i < s.len() ==> is_hex_digit(#[trigger] s[i]) || s[i] == ':',
    decreases s.len(),
{
    lemma_find_char_bounds(s, ':', 0);
    let k = find_char(s, ':', 0);
    if k < s.len() {
        let rest = s.subrange(k + 1, s.len() as int);
        lemma_valid_head_chars(rest);
        assert forall|i: int| 0 <= i < s.len() implies is_hex_digit(s[i]) || s[i] == ':' by {
            if i < k {
                assert(is_hex_digit(s.subrange(0, k)[i]));
            } else if i == k {
            } else {
                assert(rest[i - k - 1] == s[i]);
            }
        }
    }
}

/// A well-formed IPv6 address consists of hex digits, colons and dots
/// alone.
pub proof fn lemma_valid_ipv6_chars(s: Seq<char>)
    requires
        valid_ipv6(s),
    ensures
        forall|i: int|
            0 <= i < s.len() ==> is_hex_digit(#[trigger] s[i]) || s[i] == ':' || s[i] == '.',
{
    let d = find_dcolon(s, 0);
    lemma_find_dcolon_bounds(s, 0);
    if d == s.len() {
        lemma_valid_tail_chars(s);
    } else {
        let left = s.subrange(0, d);
        let right = s.subrange(d + 2, s.len() as int);
        if left.len() != 0 {
            lemma_valid_head_chars(left);
        }
        if right.len() != 0 {
            lemma_valid_tail_chars(right);
        }
        assert forall|i: int|
            0 <= i < s.len() implies is_hex_digit(s[i]) || s[i] == ':' || s[i] == '.' by {
            if i < d {
                assert(left[i] == s[i]);
            } else if i == d || i == d + 1 {
            } else {
                assert(right[i - d - 2] == s[i]);
            }
        }
    }
}

/// A well-formed IPv6 address holds at least one colon.
pub proof fn lemma_valid_ipv6_has_colon(s: Seq<char>)
    requires
        valid_ipv6(s),
    ensures
        exists|i: int| 0 <= i < s.len() && s[i] == ':',
{
    let d = find_dcolon(s, 0);
    lemma_find_dcolon_bounds(s, 0);
    if d < s.len() {
        assert(0 <= d < s.len() && s[d] == ':');
    } else {
        let k = find_char(s, ':', 0);
        lemma_find_char_bounds(s, ':', 0);
        if k == s.len() {
            assert(tail_count(s) == if valid_ipv4(s) {
                2int
            } else {
                1int
            });
            assert(false);
        } else {
            assert(s[k] == ':');
        }
    }
}

/// No input is both a well-formed IPv4 address and a well-formed IPv6
/// address: the families are mutually exclusive, so a version tag drawn by
/// trying IPv4 first agrees with each family's own validator.
pub proof fn lemma_ip_families_exclusive(s: Seq<char>)
    ensures
        !(valid_ipv4(s) && valid_ipv6(s)),
{
    if valid_ipv4(s) && valid_ipv6(s) {
        crate::ipv4::lemma_valid_ipv4_no_colon(s);
        lemma_valid_ipv6_has_colon(s);
    }
}

/// Numeric value of one hexadecimal digit.
fn hexv(c: char) -> (r: u32)
    requires
        is_hex_digit(c),
    ensures
        r as int == hex_digit_val(c),
        r <= 15,
{
    if '0' <= c && c <= '9' {
        c as u32 - 48
    } else if 'a' <= c && c <= 'f' {
        c as u32 - 97 + 10
    } else {
        c as u32 - 65 + 10
    }
}

/// Parse one hexadecimal group; `Some` exactly on well-formed groups,
/// carrying the group's numeric value.
pub fn parse_group(s: &str) -> (r: Option<u16>)
    ensures
        (r is Some) == valid_group(s@),
        r matches Some(v) ==> v as int == hex_val(s@),
{
    let n = s.unicode_len();
    if n < 1 || n > 4 {
        return None;
    }
    let c0 = s.get_char(0);
    if !hex_digit(c0) {
        assert(!all_hex_digits(s@)) by {
            assert(!is_hex_digit(s@[0]));
        }
        return None;
    }
    if n == 1 {
        proof {
            assert(s@.drop_last() =~= Seq::<char>::empty());
            assert(hex_val(Seq::<char>::empty()) == 0);
            assert(hex_val(s@) == hex_digit_val(c0));
            assert forall|i: int| 0 <= i < s@.len() implies is_hex_digit(s@[i]) by {
                assert(s@[i] == c0);
            }
        }
        return Some(hexv(c0) as u16);
    }
    let c1 = s.get_char(1);
    if !hex_digit(c1) {
        assert(!all_hex_digits(s@)) by {
            assert(!is_hex_digit(s@[1]));
        }
        return None;
    }
    if n == 2 {
        proof {
            assert(s@.drop_last() =~= seq![c0]);
            assert(seq![c0].drop_last() =~= Seq::<char>::empty());
            assert(hex_val(Seq::<char>::empty()) == 0);
            assert(seq![c0].last() == c0);
            assert(hex_val(seq![c0]) == hex_digit_val(c0));
            assert(hex_val(s@) == hex_digit_val(c0) * 16 + hex_digit_val(c1));
            assert forall|i: int| 0 <= i < s@.len() implies is_hex_digit(s@[i]) by {
                assert(i == 0 || i == 1);
            }
        }
        return Some((hexv(c0) * 16 + hexv(c1)) as u16);
    }
    let c2 = s.get_char(2);
    if !hex_digit(c2) {
        assert(!all_hex_digits(s@)) by {
            assert(!is_hex_digit(s@[2]));
        }
        return None;
    }
    if n == 3 {
        proof {
            assert(s@.drop_last() =~= seq![c0, c1]);
            assert(seq![c0, c1].drop_last() =~= seq![c0]);
            assert(seq![c0].drop_last() =~= Seq::<char>::empty());
            assert(hex_val(Seq::<char>::empty()) == 0);
            assert(seq![c0].last() == c0);
            assert(hex_val(seq![c0]) == hex_digit_val(c0));
            assert(seq![c0, c1].last() == c1);
            assert(hex_val(seq![c0, c1]) == hex_digit_val(c0) * 16 + hex_digit_val(c1));
            assert(hex_val(s@) == (hex_digit_val(c0) * 16 + hex_digit_val(c1)) * 16
                + hex_digit_val(c2));
            assert forall|i: int| 0 <= i < s@.len() implies is_hex_digit(s@[i]) by {
                assert(i == 0 || i == 1 || i == 2);
            }
        }
        return Some(((hexv(c0) * 16 + hexv(c1)) * 16 + hexv(c2)) as u16);
    }
    let c3 = s.get_char(3);
    if !hex_digit(c3) {
        assert(!all_hex_digits(s@)) by {
            assert(!is_hex_digit(s@[3]));
        }
        return None;
    }
    proof {
        assert(s@.drop_last() =~= seq![c0, c1, c2]);
        assert(seq![c0, c1, c2].drop_last() =~= seq![c0, c1]);
        assert(seq![c0, c1].drop_last() =~= seq![c0]);
        assert(seq![c0].drop_last() =~= Seq::<char>::empty());
        assert(hex_val(Seq::<char>::empty()) == 0);
        assert(seq![c0].last() == c0);
        assert(hex_val(seq![c0]) == hex_digit_val(c0));
        assert(seq![c0, c1].last() == c1);
        assert(hex_val(seq![c0, c1]) == hex_digit_val(c0) * 16 + hex_digit_val(c1));
        assert(seq![c0, c1, c2].last() == c2);
        assert(hex_val(seq![c0, c1, c2]) == (hex_digit_val(c0) * 16 + hex_digit_val(c1)) * 16
            + hex_digit_val(c2));
        assert(hex_val(s@) == ((hex_digit_val(c0) * 16 + hex_digit_val(c1)) * 16
            + hex_digit_val(c2)) * 16 + hex_digit_val(c3));
        assert forall|i: int| 0 <= i < s@.len() implies is_hex_digit(s@[i]) by {
            assert(i == 0 || i == 1 || i == 2 || i == 3);
        }
    }
    Some((((hexv(c0) * 16 + hexv(c1)) * 16 + hexv(c2)) * 16 + hexv(c3)) as u16)
}

/// Parse a tail; `Some` exactly on well-formed tails, carrying the group
/// values the tail stands for.
pub fn parse_tail(s: &str) -> (r: Option<Vec<u16>>)
    ensures
        (r is Some) == valid_tail(s@),
        r matches Some(v) ==> v@.len() == tail_count(s@) && (forall|i: int|
            0 <= i < v@.len() ==> v@[i] as int == tail_vals(s@)[i]),
    decreases s@.len(),
{
    let n = s.unicode_len();
    let k = str_find(s, ':', 0);
    if k == n {
        match parse_group(s) {
            Some(g) => {
                let mut v: Vec<u16> = Vec::new();
                v.push(g);
                proof {
                    assert(v@ =~= seq![g]);
                }
                Some(v)
            },
            None => {
                match parse_ipv4(s) {
                    Some((a, b, c, d)) => {
                        let mut v: Vec<u16> = Vec::new();
                        v.push(a as u16 * 256 + b as u16);
                        v.push(c as u16 * 256 + d as u16);
                        proof {
                            let o = ipv4_octets(s@);
                            assert(o[0] == a as int && o[1] == b as int && o[2] == c as int
                                && o[3] == d as int);
                            assert(v@ =~= seq![(a as u16 * 256 + b as u16) as u16, (c as u16 * 256
                                + d as u16) as u16]);
                        }
                        Some(v)
                    },
                    None => None,
                }
            },
        }
    } else {
        let head = s.substring_char(0, k);
        let rest = s.substring_char(k + 1, n);
        match parse_group(head) {
            None => None,
            Some(g) => {
                match parse_tail(rest) {
                    None => None,
                    Some(mut tail) => {
                        let ghost ts = tail@;
                        let mut v: Vec<u16> = Vec::new();
                        v.push(g);
                        v.append(&mut tail);
                        proof {
                            lemma_tail_vals_len(rest@);
                            let vals = tail_vals(s@);
                            assert(vals == seq![hex_val(s@.subrange(0, k as int))] + tail_vals(
                                s@.subrange(k as int + 1, s@.len() as int)));
                            assert(v@ =~= seq![g] + ts);
                            assert forall|i: int| 0 <= i < v@.len() implies v@[i] as int
                                == vals[i] by {
                                if i == 0 {
                                    assert(v@[0] == g);
                                    assert(vals[0] == hex_val(s@.subrange(0, k as int)));
                                } else {
                                    assert(v@[i] == ts[i - 1]);
                                    assert(vals[i] == tail_vals(rest@)[i - 1]);
                                }
                            }
                        }
                        Some(v)
                    },
                }
            },
        }
    }
}

/// Parse a head; `Some` exactly on well-formed heads, carrying the group
/// values.
pub fn parse_head(s: &str) -> (r: Option<Vec<u16>>)
    ensures
        (r is Some) == valid_head(s@),
        r matches Some(v) ==> v@.len() == head_count(s@) && (forall|i: int|
            0 <= i < v@.len() ==> v@[i] as int == head_vals(s@)[i]),
    decreases s@.len(),
{
    let n = s.unicode_len();
    let k = str_find(s, ':', 0);
    if k == n {
        match parse_group(s) {
            Some(g) => {
                let mut v: Vec<u16> = Vec::new();
                v.push(g);
                proof {
                    assert(v@ =~= seq![g]);
                }
                Some(v)
            },
            None => None,
        }
    } else {
        let head = s.substring_char(0, k);
        let rest = s.substring_char(k + 1, n);
        match parse_group(head) {
            None => None,
            Some(g) => {
                match parse_head(rest) {
                    None => None,
                    Some(mut tail) => {
                        let ghost ts = tail@;
                        let mut v: Vec<u16> = Vec::new();
                        v.push(g);
                        v.append(&mut tail);
                        proof {
                            lemma_head_vals_len(rest@);
                            let vals = head_vals(s@);
                            assert(vals == seq![hex_val(s@.subrange(0, k as int))] + head_vals(
                                s@.subrange(k as int + 1, s@.len() as int)));
                            assert(v@ =~= seq![g] + ts);
                            assert forall|i: int| 0 <= i < v@.len() implies v@[i] as int
                                == vals[i] by {
                                if i == 0 {
                                    assert(v@[0] == g);
                                    assert(vals[0] == hex_val(s@.subrange(0, k as int)));
                                } else {
                                    assert(v@[i] == ts[i - 1]);
                                    assert(vals[i] == head_vals(rest@)[i - 1]);
                                }
                            }
                        }
                        Some(v)
                    },
                }
            },
        }
    }
}

/// Index of the first `::` in `s`, as `find_dcolon` states it.
fn str_find_dcolon(s: &str) -> (r: usize)
    ensures
        r == find_dcolon(s@, 0),
        r <= s@.len(),
        r < s@.len() ==> r + 1 < s@.len() && s@[r as int] == ':' && s@[r as int + 1] == ':',
{
    let n = s.unicode_len();
    if n < 2 {
        return n;
    }
    let mut i: usize = 0;
    while i + 1 < n
        invariant
            i < n,
            n == s@.len(),
            forall|k: int|
                0 <= k < i ==> !(k + 1 < s@.len() && (#[trigger] s@[k]) == ':' && s@[k + 1]
                    == ':'),
        decreases n - i,
    {
        if s.get_char(i) == ':' && s.get_char(i + 1) == ':' {
            proof {
                lemma_find_dcolon_at(s@, 0, i as int);
            }
            return i;
        }
        i += 1;
    }
    proof {
        lemma_find_dcolon_at(s@, 0, s@.len() as int);
    }
    n
}

/// Parse an IPv6 address; `Some` exactly on well-formed addresses, carrying
/// the eight group values.
pub fn parse_ipv6(s: &str) -> (r: Option<Vec<u16>>)
    ensures
        (r is Some) == valid_ipv6(s@),
        r matches Some(v) ==> v@.len() == 8 && ipv6_groups(s@).len() == 8 && (forall|i: int|
            0 <= i < 8 ==> v@[i] as int == ipv6_groups(s@)[i]),
{
    let n = s.unicode_len();
    let d = str_find_dcolon(s);
    if d == n {
        match parse_tail(s) {
            Some(v) => {
                if v.len() == 8 {
                    proof {
                        lemma_tail_vals_len(s@);
                    }
                    Some(v)
                } else {
                    None
                }
            },
            None => None,
        }
    } else {
        let left = s.substring_char(0, d);
        let right = s.substring_char(d + 2, n);
        let lv: Vec<u16> = if d == 0 {
            Vec::new()
        } else {
            match parse_head(left) {
                Some(v) => v,
                None => {
                    return None;
                },
            }
        };
        let rv: Vec<u16> = if d + 2 == n {
            Vec::new()
        } else {
            match parse_tail(right) {
                Some(v) => v,
                None => {
                    return None;
                },
            }
        };
        if lv.len() <= 7 && rv.len() <= 7 - lv.len() {
            let fill = 8 - lv.len() - rv.len();
            let mut v: Vec<u16> = lv;
            let ghost lvs = v@;
            let mut z: usize = 0;
            while z < fill
                invariant
                    z <= fill,
                    v@.len() == lvs.len() + z,
                    v@ =~= lvs + Seq::new(z as nat, |i: int| 0u16),
                decreases fill - z,
            {
                v.push(0u16);
                proof {
                    assert(v@ =~= lvs + Seq::new((z + 1) as nat, |i: int| 0u16));
                }
                z += 1;
            }
            let mut rvm = rv;
            let ghost rvs = rvm@;
            v.append(&mut rvm);
            proof {
                let groups = ipv6_groups(s@);
                let leftv = s@.subrange(0, d as int);
                let rightv = s@.subrange(d as int + 2, s@.len() as int);
                if leftv.len() != 0 {
                    lemma_head_vals_len(leftv);
                }
                if rightv.len() != 0 {
                    lemma_tail_vals_len(rightv);
                }
                let lseq = if leftv.len() == 0 {
                    Seq::<int>::empty()
                } else {
                    head_vals(leftv)
                };
                let rseq = if rightv.len() == 0 {
                    Seq::<int>::empty()
                } else {
                    tail_vals(rightv)
                };
                assert(lvs.len() == lseq.len());
                assert(rvs.len() == rseq.len());
                assert(groups == lseq + Seq::new((8 - lseq.len() - rseq.len()) as nat,
                    |i: int| 0int) + rseq);
                assert forall|i: int| 0 <= i < 8 implies v@[i] as int == groups[i] by {
                    if i < lvs.len() {
                        assert(v@[i] == lvs[i]);
                        assert(groups[i] == lseq[i]);
                    } else if i < lvs.len() + fill {
                        assert(v@[i] == 0u16);
                        assert(groups[i] == 0int);
                    } else {
                        assert(v@[i] == rvs[i - lvs.len() - fill]);
                        assert(groups[i] == rseq[i - lseq.len() - (fill as int)]);
                    }
                }
            }
            Some(v)
        } else {
            None
        }
    }
}

/// Whether the whole input is a well-formed IPv6 address.
pub fn is_ipv6(value: &str) -> (r: bool)
    ensures
        r == valid_ipv6(value@),
{
    parse_ipv6(value).is_some()
}

} // verus!
