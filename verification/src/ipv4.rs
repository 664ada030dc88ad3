//! Strict validation of dotted-quad IPv4 address text.
//!
//! An address is four decimal octets joined by single dots. An octet has one
//! to three digits, no leading zero (except the octet `0` itself), and a
//! value of at most 255.

use vstd::prelude::*;
use crate::chars::{all_digits, dec_val, digit, digit_val, find_char, is_digit};

verus! {

/// A well-formed decimal octet: one to three digits, no superfluous leading
/// zero, value at most 255.
pub open spec fn valid_octet(s: Seq<char>) -> bool {
    &&& 1 <= s.len() <= 3
    &&& all_digits(s)
    &&& (s.len() == 1 || s[0] != '0')
    &&& dec_val(s) <= 255
}

/// A well-formed dotted-quad IPv4 address: exactly three dots, and the four
/// separated segments are all well-formed octets.
pub open spec fn valid_ipv4(s: Seq<char>) -> bool {
    let d1 = find_char(s, '.', 0);
    let d2 = find_char(s, '.', d1 + 1);
    let d3 = find_char(s, '.', d2 + 1);
    &&& d3 < s.len()
    &&& find_char(s, '.', d3 + 1) == s.len()
    &&& valid_octet(s.subrange(0, d1))
    &&& valid_octet(s.subrange(d1 + 1, d2))
    &&& valid_octet(s.subrange(d2 + 1, d3))
    &&& valid_octet(s.subrange(d3 + 1, s.len() as int))
}

/// The four octet values of a dotted-quad address, in order.
pub open spec fn ipv4_octets(s: Seq<char>) -> Seq<int> {
    let d1 = find_char(s, '.', 0);
    let d2 = find_char(s, '.', d1 + 1);
    let d3 = find_char(s, '.', d2 + 1);
    seq![
        dec_val(s.subrange(0, d1)),
        dec_val(s.subrange(d1 + 1, d2)),
        dec_val(s.subrange(d2 + 1, d3)),
        dec_val(s.subrange(d3 + 1, s.len() as int)),
    ]
}

/// A dotted-quad address consists of digits and dots alone.
pub proof fn lemma_valid_ipv4_chars(s: Seq<char>)
    requires
        valid_ipv4(s),
    ensures
        forall|i: int| 0 <= i < s.len() ==> is_digit(#[trigger] s[i]) || s[i] == '.',
{
    let d1 = find_char(s, '.', 0);
    let d2 = find_char(s, '.', d1 + 1);
    let d3 = find_char(s, '.', d2 + 1);
    crate::chars::lemma_find_char_bounds(s, '.', 0);
    assert(d1 < s.len());
    crate::chars::lemma_find_char_bounds(s, '.', d1 + 1);
    assert(d2 < s.len());
    crate::chars::lemma_find_char_bounds(s, '.', d2 + 1);
    assert forall|i: int| 0 <= i < s.len() implies is_digit(s[i]) || s[i] == '.' by {
        if i < d1 {
            assert(is_digit(s.subrange(0, d1)[i]));
        } else if i == d1 {
        } else if i < d2 {
            assert(is_digit(s.subrange(d1 + 1, d2)[i - d1 - 1]));
        } else if i == d2 {
        } else if i < d3 {
            assert(is_digit(s.subrange(d2 + 1, d3)[i - d2 - 1]));
        } else if i == d3 {
        } else {
            assert(is_digit(s.subrange(d3 + 1, s.len() as int)[i - d3 - 1]));
        }
    }
}

/// A dotted-quad address never holds a colon.
pub proof fn lemma_valid_ipv4_no_colon(s: Seq<char>)
    requires
        valid_ipv4(s),
    ensures
        forall|i: int| 0 <= i < s.len() ==> s[i] != ':',
{
    lemma_valid_ipv4_chars(s);
}

/// Four segments joined by dots.
pub open spec fn dotted(o1: Seq<char>, o2: Seq<char>, o3: Seq<char>, o4: Seq<char>) -> Seq<
    char,
> {
    o1 + seq!['.'] + o2 + seq!['.'] + o3 + seq!['.'] + o4
}

/// In a dotted joining of four non-empty digit strings, the dots found by
/// parsing are exactly the three separators, and the parsed segments are
/// the four strings.
proof fn lemma_dotted_structure(o1: Seq<char>, o2: Seq<char>, o3: Seq<char>, o4: Seq<char>)
    requires
        all_digits(o1) && o1.len() >= 1,
        all_digits(o2) && o2.len() >= 1,
        all_digits(o3) && o3.len() >= 1,
        all_digits(o4) && o4.len() >= 1,
    ensures
        find_char(dotted(o1, o2, o3, o4), '.', 0) == o1.len(),
        find_char(dotted(o1, o2, o3, o4), '.', o1.len() as int + 1) == o1.len() + 1 + o2.len(),
        find_char(dotted(o1, o2, o3, o4), '.', o1.len() as int + o2.len() + 2) == o1.len() + o2.len()
            + 2 + o3.len(),
        find_char(dotted(o1, o2, o3, o4), '.', o1.len() as int + o2.len() + o3.len() + 3) == dotted(
            o1,
            o2,
            o3,
            o4,
        ).len(),
        dotted(o1, o2, o3, o4).subrange(0, o1.len() as int) == o1,
        dotted(o1, o2, o3, o4).subrange(o1.len() as int + 1, o1.len() as int + 1 + o2.len()) == o2,
        dotted(o1, o2, o3, o4).subrange(o1.len() as int + o2.len() + 2, o1.len() as int + o2.len() + 2
            + o3.len()) == o3,
        dotted(o1, o2, o3, o4).subrange(o1.len() as int + o2.len() + o3.len() + 3, dotted(
            o1,
            o2,
            o3,
            o4,
        ).len() as int) == o4,
{
    let j = dotted(o1, o2, o3, o4);
    let l1 = o1.len() as int;
    let l2 = o2.len() as int;
    let l3 = o3.len() as int;
    let l4 = o4.len() as int;
    assert(j.len() == l1 + l2 + l3 + l4 + 3);
    assert forall|k: int| 0 <= k < l1 implies j[k] != '.' by {
        assert(j[k] == o1[k]);
        assert(is_digit(o1[k]));
    }
    assert(j[l1] == '.');
    crate::chars::lemma_find_char_at(j, '.', 0, l1);
    assert forall|k: int| l1 + 1 <= k < l1 + 1 + l2 implies j[k] != '.' by {
        assert(j[k] == o2[k - l1 - 1]);
        assert(is_digit(o2[k - l1 - 1]));
    }
    assert(j[l1 + 1 + l2] == '.');
    crate::chars::lemma_find_char_at(j, '.', l1 + 1, l1 + 1 + l2);
    assert forall|k: int| l1 + l2 + 2 <= k < l1 + l2 + 2 + l3 implies j[k] != '.' by {
        assert(j[k] == o3[k - l1 - l2 - 2]);
        assert(is_digit(o3[k - l1 - l2 - 2]));
    }
    assert(j[l1 + l2 + 2 + l3] == '.');
    crate::chars::lemma_find_char_at(j, '.', l1 + l2 + 2, l1 + l2 + 2 + l3);
    assert forall|k: int| l1 + l2 + l3 + 3 <= k < j.len() implies j[k] != '.' by {
        assert(j[k] == o4[k - l1 - l2 - l3 - 3]);
        assert(is_digit(o4[k - l1 - l2 - l3 - 3]));
    }
    crate::chars::lemma_find_char_at(j, '.', l1 + l2 + l3 + 3, j.len() as int);
    assert(j.subrange(0, l1) =~= o1);
    assert(j.subrange(l1 + 1, l1 + 1 + l2) =~= o2);
    assert(j.subrange(l1 + l2 + 2, l1 + l2 + 2 + l3) =~= o3);
    assert(j.subrange(l1 + l2 + l3 + 3, j.len() as int) =~= o4);
}

/// Four well-formed octet texts joined by dots always form a well-formed
/// address, whose octet values are theirs.
pub proof fn lemma_ipv4_joined_octets(o1: Seq<char>, o2: Seq<char>, o3: Seq<char>, o4: Seq<
    char,
>)
    requires
        valid_octet(o1),
        valid_octet(o2),
        valid_octet(o3),
        valid_octet(o4),
    ensures
        valid_ipv4(dotted(o1, o2, o3, o4)),
        ipv4_octets(dotted(o1, o2, o3, o4)) == seq![
            dec_val(o1),
            dec_val(o2),
            dec_val(o3),
            dec_val(o4),
        ],
{
    lemma_dotted_structure(o1, o2, o3, o4);
}

/// Four non-empty digit strings joined by dots never form a well-formed
/// address when any of their values exceeds 255.
pub proof fn lemma_ipv4_joined_octet_too_large(o1: Seq<char>, o2: Seq<char>, o3: Seq<char>,
    o4: Seq<char>)
    requires
        all_digits(o1) && o1.len() >= 1,
        all_digits(o2) && o2.len() >= 1,
        all_digits(o3) && o3.len() >= 1,
        all_digits(o4) && o4.len() >= 1,
        dec_val(o1) > 255 || dec_val(o2) > 255 || dec_val(o3) > 255 || dec_val(o4) > 255,
    ensures
        !valid_ipv4(dotted(o1, o2, o3, o4)),
{
    lemma_dotted_structure(o1, o2, o3, o4);
}

/// Parse one decimal octet; `Some` exactly on well-formed octets, carrying
/// the octet's numeric value.
pub fn parse_octet(s: &str) -> (r: Option<u8>)
    ensures
        (r is Some) == valid_octet(s@),
        r matches Some(v) ==> v as int == dec_val(s@),
{
    let n = s.unicode_len();
    if n < 1 || n > 3 {
        return None;
    }
    let c0 = s.get_char(0);
    if !digit(c0) {
        assert(!all_digits(s@)) by {
            assert(!is_digit(s@[0]));
        }
        return None;
    }
    if n >= 2 && c0 == '0' {
        return None;
    }
    if n == 1 {
        proof {
            assert(s@.drop_last() =~= Seq::<char>::empty());
            assert(dec_val(s@.drop_last()) == 0);
            assert(dec_val(s@) == digit_val(c0));
            assert forall|i: int| 0 <= i < s@.len() implies is_digit(s@[i]) by {
                assert(s@[i] == c0);
            }
        }
        return Some((c0 as u32 - 48) as u8);
    }
    let c1 = s.get_char(1);
    if !digit(c1) {
        assert(!all_digits(s@)) by {
            assert(!is_digit(s@[1]));
        }
        return None;
    }
    if n == 2 {
        proof {
            assert(s@.drop_last() =~= seq![c0]);
            assert(seq![c0].drop_last() =~= Seq::<char>::empty());
            assert(dec_val(Seq::<char>::empty()) == 0);
            assert(seq![c0].last() == c0);
            assert(dec_val(seq![c0]) == digit_val(c0));
            assert(dec_val(s@) == digit_val(c0) * 10 + digit_val(c1));
            assert forall|i: int| 0 <= i < s@.len() implies is_digit(s@[i]) by {
                assert(i == 0 || i == 1);
            }
        }
        return Some(((c0 as u32 - 48) * 10 + (c1 as u32 - 48)) as u8);
    }
    let c2 = s.get_char(2);
    if !digit(c2) {
        assert(!all_digits(s@)) by {
            assert(!is_digit(s@[2]));
        }
        return None;
    }
    proof {
        assert(s@.drop_last() =~= seq![c0, c1]);
        assert(seq![c0, c1].drop_last() =~= seq![c0]);
        assert(seq![c0].drop_last() =~= Seq::<char>::empty());
        assert(dec_val(Seq::<char>::empty()) == 0);
        assert(seq![c0].last() == c0);
        assert(dec_val(seq![c0]) == digit_val(c0));
        assert(seq![c0, c1].last() == c1);
        assert(dec_val(seq![c0, c1]) == digit_val(c0) * 10 + digit_val(c1));
        assert(dec_val(s@) == (digit_val(c0) * 10 + digit_val(c1)) * 10 + digit_val(c2));
        assert forall|i: int| 0 <= i < s@.len() implies is_digit(s@[i]) by {
            assert(i == 0 || i == 1 || i == 2);
        }
    }
    let v: u32 = (c0 as u32 - 48) * 100 + (c1 as u32 - 48) * 10 + (c2 as u32 - 48);
    if v <= 255 {
        Some(v as u8)
    } else {
        None
    }
}

/// Parse a dotted-quad address; `Some` exactly on well-formed addresses,
/// carrying the four octet values.
pub fn parse_ipv4(s: &str) -> (r: Option<(u8, u8, u8, u8)>)
    ensures
        (r is Some) == valid_ipv4(s@),
        r matches Some(o) ==> ipv4_octets(s@) =~= seq![
            o.0 as int,
            o.1 as int,
            o.2 as int,
            o.3 as int,
        ],
{
    let n = s.unicode_len();
    let d1 = crate::chars::str_find(s, '.', 0);
    if d1 == n {
        return None;
    }
    let d2 = crate::chars::str_find(s, '.', d1 + 1);
    if d2 == n {
        return None;
    }
    let d3 = crate::chars::str_find(s, '.', d2 + 1);
    if d3 == n {
        return None;
    }
    let d4 = crate::chars::str_find(s, '.', d3 + 1);
    if d4 != n {
        return None;
    }
    let r0 = parse_octet(s.substring_char(0, d1));
    let r1 = parse_octet(s.substring_char(d1 + 1, d2));
    let r2 = parse_octet(s.substring_char(d2 + 1, d3));
    let r3 = parse_octet(s.substring_char(d3 + 1, n));
    match (r0, r1, r2, r3) {
        (Some(a), Some(b), Some(c), Some(d)) => Some((a, b, c, d)),
        _ => None,
    }
}

/// Whether the whole input is a well-formed IPv4 address.
pub fn is_ipv4(value: &str) -> (r: bool)
    ensures
        r == valid_ipv4(value@),
{
    parse_ipv4(value).is_some()
}

} // verus!
