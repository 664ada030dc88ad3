//! Classification of network-address text: family-agnostic tests, loopback
//! detection, version tagging, and extraction of addresses embedded in
//! free-form text.

use vstd::prelude::*;
use crate::chars::{find_space, is_space, lemma_find_space_bounds, space, str_find_space};
use crate::cidr::{is_ipv4_cidr, is_ipv6_cidr, valid_ipv4_cidr, valid_ipv6_cidr};
use crate::ipv4::{ipv4_octets, is_ipv4, parse_ipv4, valid_ipv4};
use crate::ipv6::{ipv6_groups, is_ipv6, lemma_ip_families_exclusive, parse_ipv6, valid_ipv6};

verus! {

/// The address family of a classified input.
#[derive(Clone, Copy, Debug, PartialEq, Eq)]
pub enum IpVersion {
    V4,
    V6,
}

/// A loopback address: an IPv4 address whose first octet is 127, or the
/// IPv6 address whose groups read 0,...,0,1.
pub open spec fn loopback(s: Seq<char>) -> bool {
    ||| valid_ipv4(s) && ipv4_octets(s)[0] == 127
    ||| valid_ipv6(s) && ipv6_groups(s) =~= seq![0int, 0int, 0int, 0int, 0int, 0int, 0int, 1int]
}

/// Whether the whole input is an address of either family in its family's
/// loopback range.
pub fn is_ip_loopback(value: &str) -> (r: bool)
    ensures
        r == loopback(value@),
{
    match parse_ipv4(value) {
        Some((a, _b, _c, _d)) => {
            proof {
                lemma_ip_families_exclusive(value@);
            }
            a == 127
        },
        None => {
            match parse_ipv6(value) {
                Some(v) => {
                    let ok = *v.get(0).unwrap() == 0 && *v.get(1).unwrap() == 0 && *v.get(
                        2,
                    ).unwrap() == 0 && *v.get(3).unwrap() == 0 && *v.get(4).unwrap() == 0
                        && *v.get(5).unwrap() == 0 && *v.get(6).unwrap() == 0 && *v.get(
                        7,
                    ).unwrap() == 1;
                    proof {
                        let g = ipv6_groups(value@);
                        let l = seq![0int, 0int, 0int, 0int, 0int, 0int, 0int, 1int];
                        if ok {
                            assert(g =~= l);
                        } else {
                            assert(!(g =~= l));
                        }
                    }
                    ok
                },
                None => false,
            }
        },
    }
}

/// Whether the whole input is an address of either family.
pub fn is_ipv_any(value: &str) -> (r: bool)
    ensures
        r == (valid_ipv4(value@) || valid_ipv6(value@)),
{
    is_ipv4(value) || is_ipv6(value)
}

/// Whether the whole input is a CIDR range of either family.
pub fn is_ip_cidr_any(value: &str) -> (r: bool)
    ensures
        r == (valid_ipv4_cidr(value@) || valid_ipv6_cidr(value@)),
{
    is_ipv4_cidr(value) || is_ipv6_cidr(value)
}

/// Tag the input with its address family, trying IPv4 first; `None` when it
/// is an address of neither family.
pub fn which_ipv(value: &str) -> (r: Option<IpVersion>)
    ensures
        r == if valid_ipv4(value@) {
            Some(IpVersion::V4)
        } else if valid_ipv6(value@) {
            Some(IpVersion::V6)
        } else {
            None::<IpVersion>
        },
{
    if is_ipv4(value) {
        Some(IpVersion::V4)
    } else if is_ipv6(value) {
        Some(IpVersion::V6)
    } else {
        None
    }
}

/// An address or range of either family, as the whitespace-token pass
/// accepts it.
pub open spec fn ip_like(t: Seq<char>) -> bool {
    ||| valid_ipv4(t)
    ||| valid_ipv6(t)
    ||| valid_ipv4_cidr(t)
    ||| valid_ipv6_cidr(t)
}

/// The whitespace-delimited tokens of `s` from `from` on that are addresses
/// or ranges, in order.
pub open spec fn token_matches(s: Seq<char>, from: int) -> Seq<Seq<char>>
    decreases s.len() - from,
    via token_matches_dec
{
    if from < 0 || from >= s.len() {
        Seq::<Seq<char>>::empty()
    } else if is_space(s[from]) {
        token_matches(s, from + 1)
    } else {
        let e = find_space(s, from);
        let t = s.subrange(from, e);
        if ip_like(t) {
            seq![t] + token_matches(s, e)
        } else {
            token_matches(s, e)
        }
    }
}

#[via_fn]
proof fn token_matches_dec(s: Seq<char>, from: int) {
    if 0 <= from < s.len() && !is_space(s[from]) {
        lemma_find_space_bounds(s, from);
    }
}

/// Validity of a candidate under the family a scan pass looks for.
pub open spec fn sel_valid(v6: bool, t: Seq<char>) -> bool {
    if v6 {
        valid_ipv6(t)
    } else {
        valid_ipv4(t)
    }
}

/// Length of the longest prefix of `s[i..i+cap]` that is a well-formed
/// address of the selected family; 0 when none is.
pub open spec fn longest_at(s: Seq<char>, i: int, cap: int, v6: bool) -> int
    decreases cap,
{
    if cap <= 0 {
        0
    } else if i >= 0 && i + cap <= s.len() && sel_valid(v6, s.subrange(i, i + cap)) {
        cap
    } else {
        longest_at(s, i, cap - 1, v6)
    }
}

pub proof fn lemma_longest_at_bounds(s: Seq<char>, i: int, cap: int, v6: bool)
    ensures
        0 <= longest_at(s, i, cap, v6),
        longest_at(s, i, cap, v6) <= cap || longest_at(s, i, cap, v6) == 0,
    decreases cap,
{
    if cap > 0 && !(i >= 0 && i + cap <= s.len() && sel_valid(v6, s.subrange(i, i + cap))) {
        lemma_longest_at_bounds(s, i, cap - 1, v6);
    }
}

/// The structural-scan matches of the selected family from `i` on: at each
/// leftmost position where some prefix strictly validates, the longest such
/// prefix, the scan resuming after it.
pub open spec fn scan_pass(s: Seq<char>, i: int, v6: bool) -> Seq<Seq<char>>
    decreases s.len() - i,
    via scan_pass_dec
{
    if i < 0 || i >= s.len() {
        Seq::<Seq<char>>::empty()
    } else {
        let l = longest_at(s, i, s.len() - i, v6);
        if l > 0 {
            seq![s.subrange(i, i + l)] + scan_pass(s, i + l, v6)
        } else {
            scan_pass(s, i + 1, v6)
        }
    }
}

#[via_fn]
proof fn scan_pass_dec(s: Seq<char>, i: int, v6: bool) {
    if 0 <= i < s.len() {
        lemma_longest_at_bounds(s, i, s.len() - i, v6);
    }
}

/// Everything extraction reports, in order: the whitespace-token matches,
/// then the IPv4 scan matches, then the IPv6 scan matches, duplicates
/// across passes kept.
pub open spec fn find_ips_matches(s: Seq<char>) -> Seq<Seq<char>> {
    token_matches(s, 0) + scan_pass(s, 0, false) + scan_pass(s, 0, true)
}

proof fn lemma_token_matches_validated(s: Seq<char>, from: int)
    ensures
        forall|i: int|
            0 <= i < token_matches(s, from).len() ==> ip_like(
                #[trigger] token_matches(s, from)[i],
            ),
    decreases s.len() - from,
{
    if 0 <= from < s.len() {
        if is_space(s[from]) {
            lemma_token_matches_validated(s, from + 1);
            assert(token_matches(s, from) == token_matches(s, from + 1));
            assert forall|i: int|
                0 <= i < token_matches(s, from).len() implies ip_like(
                token_matches(s, from)[i],
            ) by {
                assert(token_matches(s, from)[i] == token_matches(s, from + 1)[i]);
            }
        } else {
            lemma_find_space_bounds(s, from);
            let e = find_space(s, from);
            lemma_token_matches_validated(s, e);
            let t = s.subrange(from, e);
            if ip_like(t) {
                assert(token_matches(s, from) == seq![t] + token_matches(s, e));
                assert forall|i: int|
                    0 <= i < token_matches(s, from).len() implies ip_like(
                    token_matches(s, from)[i],
                ) by {
                    if i == 0 {
                        assert(token_matches(s, from)[0] == t);
                    } else {
                        assert(token_matches(s, from)[i] == token_matches(s, e)[i - 1]);
                    }
                }
            } else {
                assert(token_matches(s, from) == token_matches(s, e));
                assert forall|i: int|
                    0 <= i < token_matches(s, from).len() implies ip_like(
                    token_matches(s, from)[i],
                ) by {
                    assert(token_matches(s, from)[i] == token_matches(s, e)[i]);
                }
            }
        }
    }
}

proof fn lemma_longest_at_valid(s: Seq<char>, i: int, cap: int, v6: bool)
    ensures
        longest_at(s, i, cap, v6) > 0 ==> sel_valid(
            v6,
            s.subrange(i, i + longest_at(s, i, cap, v6)),
        ),
    decreases cap,
{
    if cap > 0 && !(i >= 0 && i + cap <= s.len() && sel_valid(v6, s.subrange(i, i + cap))) {
        lemma_longest_at_valid(s, i, cap - 1, v6);
    }
}

proof fn lemma_scan_pass_validated(s: Seq<char>, from: int, v6: bool)
    ensures
        forall|i: int|
            0 <= i < scan_pass(s, from, v6).len() ==> ip_like(
                #[trigger] scan_pass(s, from, v6)[i],
            ),
    decreases s.len() - from,
{
    if 0 <= from < s.len() {
        let l = longest_at(s, from, s.len() - from, v6);
        lemma_longest_at_bounds(s, from, s.len() - from, v6);
        lemma_longest_at_valid(s, from, s.len() - from, v6);
        if l > 0 {
            lemma_scan_pass_validated(s, from + l, v6);
            assert(scan_pass(s, from, v6) == seq![s.subrange(from, from + l)] + scan_pass(
                s,
                from + l,
                v6,
            ));
            assert forall|i: int|
                0 <= i < scan_pass(s, from, v6).len() implies ip_like(
                scan_pass(s, from, v6)[i],
            ) by {
                if i == 0 {
                    assert(scan_pass(s, from, v6)[0] == s.subrange(from, from + l));
                } else {
                    assert(scan_pass(s, from, v6)[i] == scan_pass(s, from + l, v6)[i - 1]);
                }
            }
        } else {
            lemma_scan_pass_validated(s, from + 1, v6);
            assert(scan_pass(s, from, v6) == scan_pass(s, from + 1, v6));
            assert forall|i: int|
                0 <= i < scan_pass(s, from, v6).len() implies ip_like(
                scan_pass(s, from, v6)[i],
            ) by {
                assert(scan_pass(s, from, v6)[i] == scan_pass(s, from + 1, v6)[i]);
            }
        }
    }
}

/// Extraction reports nothing unvalidated: every match that `find_ips`
/// hands back is itself a well-formed address or range of some family.
pub proof fn lemma_find_ips_only_validated(s: Seq<char>)
    ensures
        forall|i: int|
            0 <= i < find_ips_matches(s).len() ==> ip_like(#[trigger] find_ips_matches(s)[i]),
{
    lemma_token_matches_validated(s, 0);
    lemma_scan_pass_validated(s, 0, false);
    lemma_scan_pass_validated(s, 0, true);
    let a = token_matches(s, 0);
    let b = scan_pass(s, 0, false);
    let c = scan_pass(s, 0, true);
    assert forall|i: int|
        0 <= i < find_ips_matches(s).len() implies ip_like(find_ips_matches(s)[i]) by {
        if i < a.len() {
            assert(find_ips_matches(s)[i] == a[i]);
        } else if i < a.len() + b.len() {
            assert(find_ips_matches(s)[i] == b[i - a.len()]);
        } else {
            assert(find_ips_matches(s)[i] == c[i - a.len() - b.len()]);
        }
    }
}

fn ip_like_check(t: &str) -> (r: bool)
    ensures
        r == ip_like(t@),
{
    is_ipv4(t) || is_ipv6(t) || is_ipv4_cidr(t) || is_ipv6_cidr(t)
}

/// Length of the longest valid prefix at `i`, as `longest_at` states it.
fn longest_prefix(s: &str, i: usize, v6: bool) -> (l: usize)
    requires
        i < s@.len(),
    ensures
        l as int == longest_at(s@, i as int, s@.len() - i, v6),
        l <= s@.len() - i,
{
    let n = s.unicode_len();
    let mut cap = n - i;
    while cap > 0
        invariant
            i < n,
            n == s@.len(),
            cap <= n - i,
            longest_at(s@, i as int, n - i, v6) == longest_at(s@, i as int, cap as int, v6),
        decreases cap,
    {
        let sub = s.substring_char(i, i + cap);
        let ok = if v6 {
            is_ipv6(sub)
        } else {
            is_ipv4(sub)
        };
        if ok {
            return cap;
        }
        proof {
            assert(longest_at(s@, i as int, cap as int, v6) == longest_at(
                s@,
                i as int,
                cap as int - 1,
                v6,
            ));
        }
        cap -= 1;
    }
    0
}

/// Push a token's text, keeping the sequence of views in step.
fn push_token(out: &mut Vec<String>, t: &str)
    ensures
        final(out).deep_view() =~= old(out).deep_view() + seq![t@],
{
    let ghost pre = out.deep_view();
    out.push(t.to_owned());
    proof {
        assert forall|i: int| 0 <= i < out.deep_view().len() implies out.deep_view()[i] == (pre
            + seq![t@])[i] by {
            if i < pre.len() {
                assert(out@[i] == old(out)@[i]);
            }
        }
    }
}

/// Extract the addresses and ranges embedded in free-form text: a
/// whitespace-token pass, then a structural scan for each family, each pass
/// appending its matches verbatim and independently.
pub fn find_ips(value: &str) -> (r: Vec<String>)
    ensures
        r.deep_view() =~= find_ips_matches(value@),
{
    let n = value.unicode_len();
    let mut out: Vec<String> = Vec::new();
    let mut i: usize = 0;
    while i < n
        invariant
            n == value@.len(),
            i <= n,
            out.deep_view() + token_matches(value@, i as int) =~= token_matches(value@, 0),
        decreases n - i,
    {
        let c = value.get_char(i);
        if space(c) {
            i += 1;
        } else {
            let e = str_find_space(value, i);
            let t = value.substring_char(i, e);
            let ghost pre = out.deep_view();
            if ip_like_check(t) {
                push_token(&mut out, t);
                proof {
                    assert(token_matches(value@, i as int) == seq![t@] + token_matches(
                        value@,
                        e as int,
                    ));
                    assert(out.deep_view() + token_matches(value@, e as int) =~= token_matches(
                        value@,
                        0,
                    ));
                }
            }
            i = e;
        }
    }
    proof {
        assert(out.deep_view() =~= token_matches(value@, 0));
    }
    let ghost base1 = token_matches(value@, 0);
    let mut i: usize = 0;
    while i < n
        invariant
            n == value@.len(),
            i <= n,
            out.deep_view() + scan_pass(value@, i as int, false) =~= base1 + scan_pass(
                value@,
                0,
                false,
            ),
        decreases n - i,
    {
        let l = longest_prefix(value, i, false);
        if l > 0 {
            let t = value.substring_char(i, i + l);
            push_token(&mut out, t);
            proof {
                assert(scan_pass(value@, i as int, false) == seq![t@] + scan_pass(
                    value@,
                    i + l,
                    false,
                ));
            }
            i += l;
        } else {
            i += 1;
        }
    }
    let ghost base2 = base1 + scan_pass(value@, 0, false);
    proof {
        assert(out.deep_view() =~= base2);
    }
    let mut i: usize = 0;
    while i < n
        invariant
            n == value@.len(),
            i <= n,
            out.deep_view() + scan_pass(value@, i as int, true) =~= base2 + scan_pass(
                value@,
                0,
                true,
            ),
        decreases n - i,
    {
        let l = longest_prefix(value, i, true);
        if l > 0 {
            let t = value.substring_char(i, i + l);
            push_token(&mut out, t);
            proof {
                assert(scan_pass(value@, i as int, true) == seq![t@] + scan_pass(
                    value@,
                    i + l,
                    true,
                ));
            }
            i += l;
        } else {
            i += 1;
        }
    }
    proof {
        assert(out.deep_view() =~= base2 + scan_pass(value@, 0, true));
        assert(out.deep_view() =~= find_ips_matches(value@));
    }
    out
}

} // verus!
