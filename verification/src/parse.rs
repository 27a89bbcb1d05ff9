//! Textual parsing of IP addresses: dotted-quad IPv4 and colon-separated
//! IPv6 with an optional `::` compression. The grammar is stated as spec
//! functions over the character sequence, and the parsers are proved to
//! accept exactly that grammar.

use vstd::prelude::*;
use vstd::arithmetic::power2::{pow2, lemma_pow2_adds, lemma_pow2_strictly_increases, lemma2_to64};
use crate::ip::{IpAddress, ip_value};

verus! {

/// ASCII decimal digit.
pub open spec fn is_digit(c: char) -> bool {
    48 <= c as int <= 57
}

/// The value of a decimal digit.
pub open spec fn digit_val(c: char) -> int {
    c as int - 48
}

/// The number of consecutive decimal digits of `s` starting at `i`.
pub open spec fn digits_from(s: Seq<char>, i: int) -> int
    decreases s.len() - i when 0 <= i <= s.len()
{
    if i < s.len() && is_digit(s[i]) {
        1 + digits_from(s, i + 1)
    } else {
        0
    }
}

/// The value of a string of decimal digits, most significant first.
pub open spec fn dec_val(s: Seq<char>) -> int
    decreases s.len(),
{
    if s.len() == 0 {
        0
    } else {
        dec_val(s.drop_last()) * 10 + digit_val(s.last())
    }
}

/// A valid IPv4 octet starts at `i`: one to three digits, no leading
/// zero, value at most 255.
pub open spec fn octet_ok(s: Seq<char>, i: int) -> bool {
    let d = digits_from(s, i);
    &&& 1 <= d <= 3
    &&& (d > 1 ==> s[i] != '0')
    &&& dec_val(s.subrange(i, i + d)) <= 255
}

/// The value of the octet starting at `i`.
pub open spec fn octet_val(s: Seq<char>, i: int) -> int {
    dec_val(s.subrange(i, i + digits_from(s, i)))
}

/// The whole string is a valid dotted-quad IPv4 address: four valid
/// octets separated by single dots, nothing else.
pub open spec fn ipv4_ok(s: Seq<char>) -> bool {
    let a0: int = 0;
    let a1 = a0 + digits_from(s, a0) + 1;
    let a2 = a1 + digits_from(s, a1) + 1;
    let a3 = a2 + digits_from(s, a2) + 1;
    &&& octet_ok(s, a0)
    &&& a1 - 1 < s.len() && s[a1 - 1] == '.'
    &&& octet_ok(s, a1)
    &&& a2 - 1 < s.len() && s[a2 - 1] == '.'
    &&& octet_ok(s, a2)
    &&& a3 - 1 < s.len() && s[a3 - 1] == '.'
    &&& octet_ok(s, a3)
    &&& a3 + digits_from(s, a3) == s.len()
}

/// The four octet values of a valid dotted-quad address, left to right.
pub open spec fn ipv4_octets(s: Seq<char>) -> Seq<u8>
    recommends
        ipv4_ok(s),
{
    let a0: int = 0;
    let a1 = a0 + digits_from(s, a0) + 1;
    let a2 = a1 + digits_from(s, a1) + 1;
    let a3 = a2 + digits_from(s, a2) + 1;
    seq![
        octet_val(s, a0) as u8,
        octet_val(s, a1) as u8,
        octet_val(s, a2) as u8,
        octet_val(s, a3) as u8,
    ]
}

/// Counts the consecutive decimal digits of `s` starting at `i`.
pub(crate) fn scan_digits(s: &str, i: usize) -> (r: usize)
    requires
        i <= s@.len(),
    ensures
        r as int == digits_from(s@, i as int),
        i + r <= s@.len(),
{
    let n = s.unicode_len();
    let mut j = i;
    loop
        invariant_except_break
            i <= j <= n,
            n == s@.len(),
            digits_from(s@, i as int) == j - i + digits_from(s@, j as int),
        ensures
            i <= j <= n,
            n == s@.len(),
            digits_from(s@, i as int) == j - i,
        decreases n - j,
    {
        if j >= n {
            break;
        }
        let c = s.get_char(j);
        if (c as u32) < 48 || (c as u32) > 57 {
            break;
        }
        j = j + 1;
    }
    j - i
}

/// Parses the octet starting at `i`: its value and the position just
/// after it, or nothing when no valid octet starts there.
fn parse_octet(s: &str, i: usize) -> (r: Option<(u8, usize)>)
    requires
        i <= s@.len(),
        s@.len() <= usize::MAX,
    ensures
        r matches Some(p) ==> {
            &&& octet_ok(s@, i as int)
            &&& p.0 as int == octet_val(s@, i as int)
            &&& p.1 as int == i + digits_from(s@, i as int)
            &&& i < p.1 <= s@.len()
        },
        r is None ==> !octet_ok(s@, i as int),
{
    let d = scan_digits(s, i);
    if d < 1 || d > 3 {
        return None;
    }
    let c0 = s.get_char(i);
    proof {
        assert(is_digit(s@[i as int]));
        if d >= 2 {
            assert(digits_from(s@, i + 1 as int) == d - 1);
            assert(is_digit(s@[i as int + 1]));
        }
        if d == 3 {
            assert(digits_from(s@, i + 2 as int) == 1);
            assert(is_digit(s@[i as int + 2]));
        }
    }
    if d > 1 && c0 == '0' {
        return None;
    }
    let v: u32 = if d == 1 {
        let t0 = (c0 as u32) - 48;
        proof {
            let t = s@.subrange(i as int, i + 1 as int);
            assert(dec_val(s@.subrange(i as int, i as int)) == 0);
            assert(t.drop_last() =~= s@.subrange(i as int, i as int));
            assert(t.last() == s@[i as int]);
            assert(dec_val(t) == digit_val(s@[i as int]));
        }
        t0
    } else if d == 2 {
        let c1 = s.get_char(i + 1);
        let t0 = ((c0 as u32) - 48) * 10 + ((c1 as u32) - 48);
        proof {
            let t = s@.subrange(i as int, i + 2 as int);
            assert(dec_val(s@.subrange(i as int, i as int)) == 0);
            assert(t.drop_last() =~= s@.subrange(i as int, i + 1 as int));
            assert(t.last() == s@[i + 1 as int]);
            assert(s@.subrange(i as int, i + 1 as int).drop_last() =~= s@.subrange(
                i as int,
                i as int,
            ));
            assert(s@.subrange(i as int, i + 1 as int).last() == s@[i as int]);
            assert(dec_val(s@.subrange(i as int, i + 1 as int)) == digit_val(s@[i as int]));
            assert(dec_val(t) == digit_val(s@[i as int]) * 10 + digit_val(s@[i + 1 as int]));
        }
        t0
    } else {
        let c1 = s.get_char(i + 1);
        let c2 = s.get_char(i + 2);
        let t0 = (((c0 as u32) - 48) * 10 + ((c1 as u32) - 48)) * 10 + ((c2 as u32) - 48);
        proof {
            let t = s@.subrange(i as int, i + 3 as int);
            assert(dec_val(s@.subrange(i as int, i as int)) == 0);
            assert(t.drop_last() =~= s@.subrange(i as int, i + 2 as int));
            assert(t.last() == s@[i + 2 as int]);
            let u = s@.subrange(i as int, i + 2 as int);
            assert(u.drop_last() =~= s@.subrange(i as int, i + 1 as int));
            assert(u.last() == s@[i + 1 as int]);
            assert(s@.subrange(i as int, i + 1 as int).drop_last() =~= s@.subrange(
                i as int,
                i as int,
            ));
            assert(s@.subrange(i as int, i + 1 as int).last() == s@[i as int]);
            assert(dec_val(s@.subrange(i as int, i + 1 as int)) == digit_val(s@[i as int]));
            assert(dec_val(u) == digit_val(s@[i as int]) * 10 + digit_val(s@[i + 1 as int]));
            assert(dec_val(t) == (digit_val(s@[i as int]) * 10 + digit_val(s@[i + 1 as int])) * 10
                + digit_val(s@[i + 2 as int]));
        }
        t0
    };
    if v > 255 {
        return None;
    }
    Some((v as u8, i + d))
}

/// Parses a dotted-quad IPv4 address, accepting exactly the strings that
/// [`ipv4_ok`] describes and returning their four octets.
pub fn parse_ipv4(s: &str) -> (r: Option<IpAddress>)
    ensures
        r matches Some(a) ==> {
            &&& ipv4_ok(s@)
            &&& a matches IpAddress::V4(o) && o@ == ipv4_octets(s@)
        },
        r is None ==> !ipv4_ok(s@),
{
    let n = s.unicode_len();
    let r0 = parse_octet(s, 0);
    let (v0, j0) = match r0 {
        Some(p) => p,
        None => {
            return None;
        },
    };
    if j0 >= n || s.get_char(j0) != '.' {
        return None;
    }
    let r1 = parse_octet(s, j0 + 1);
    let (v1, j1) = match r1 {
        Some(p) => p,
        None => {
            return None;
        },
    };
    if j1 >= n || s.get_char(j1) != '.' {
        return None;
    }
    let r2 = parse_octet(s, j1 + 1);
    let (v2, j2) = match r2 {
        Some(p) => p,
        None => {
            return None;
        },
    };
    if j2 >= n || s.get_char(j2) != '.' {
        return None;
    }
    let r3 = parse_octet(s, j2 + 1);
    let (v3, j3) = match r3 {
        Some(p) => p,
        None => {
            return None;
        },
    };
    if j3 != n {
        return None;
    }
    let a = IpAddress::V4([v0, v1, v2, v3]);
    proof {
        match a {
            IpAddress::V4(o) => {
                assert(o@ =~= ipv4_octets(s@));
            },
            IpAddress::V6(_) => {},
        }
    }
    Some(a)
}


/// ASCII hexadecimal digit, either case.
pub open spec fn is_hex_digit(c: char) -> bool {
    is_digit(c) || (97 <= c as int <= 102) || (65 <= c as int <= 70)
}

/// The value of a hexadecimal digit.
pub open spec fn hex_digit_val(c: char) -> int {
    if is_digit(c) {
        c as int - 48
    } else if 97 <= c as int <= 102 {
        c as int - 87
    } else {
        c as int - 55
    }
}

/// The number of consecutive hex digits of `s` starting at `i`.
pub open spec fn hex_digits_from(s: Seq<char>, i: int) -> int
    decreases s.len() - i when 0 <= i <= s.len()
{
    if i < s.len() && is_hex_digit(s[i]) {
        1 + hex_digits_from(s, i + 1)
    } else {
        0
    }
}

/// The value of a string of hex digits, most significant first.
pub open spec fn hex_val(s: Seq<char>) -> int
    decreases s.len(),
{
    if s.len() == 0 {
        0
    } else {
        hex_val(s.drop_last()) * 16 + hex_digit_val(s.last())
    }
}

/// A valid IPv6 group starts at `i`: one to four hex digits.
pub open spec fn group_ok(s: Seq<char>, i: int) -> bool {
    1 <= hex_digits_from(s, i) <= 4
}

/// The value of the group starting at `i`.
pub open spec fn group_val(s: Seq<char>, i: int) -> int {
    hex_val(s.subrange(i, i + hex_digits_from(s, i)))
}

/// A maximal run of groups separated by single colons, starting at `i`:
/// the group values and the position just after the run, or nothing when
/// no valid run starts there. The run extends past a colon only when a
/// hex digit follows it, so it stops in front of a `::`.
pub open spec fn tail_groups(s: Seq<char>, i: int) -> Option<(Seq<u16>, int)>
    decreases s.len() - i when 0 <= i <= s.len()
{
    let d = hex_digits_from(s, i);
    if 1 <= d && d <= 4 {
        let v = group_val(s, i) as u16;
        let j = i + d;
        if j + 1 < s.len() && s[j] == ':' && is_hex_digit(s[j + 1]) {
            match tail_groups(s, j + 1) {
                Some(p) => Some((seq![v] + p.0, p.1)),
                None => None,
            }
        } else {
            Some((seq![v], j))
        }
    } else {
        None
    }
}

/// `k` groups of value zero.
pub open spec fn zero_groups(k: int) -> Seq<u16> {
    Seq::new(k as nat, |x: int| 0u16)
}

/// The eight group values of a valid IPv6 address text: either eight
/// explicit groups, or at most seven groups around one `::` that stands
/// for the missing zero groups.
pub open spec fn ipv6_groups(s: Seq<char>) -> Option<Seq<u16>> {
    if s.len() >= 2 && s[0] == ':' && s[1] == ':' {
        if s.len() == 2 {
            Some(zero_groups(8))
        } else {
            match tail_groups(s, 2) {
                Some(p) => if p.1 == s.len() && p.0.len() <= 7 {
                    Some(zero_groups(8 - p.0.len()) + p.0)
                } else {
                    None
                },
                None => None,
            }
        }
    } else {
        match tail_groups(s, 0) {
            Some(p) => {
                let gs = p.0;
                let j = p.1;
                if j == s.len() && gs.len() == 8 {
                    Some(gs)
                } else if j + 1 < s.len() && s[j] == ':' && s[j + 1] == ':' {
                    if j + 2 == s.len() {
                        if gs.len() <= 7 {
                            Some(gs + zero_groups(8 - gs.len()))
                        } else {
                            None
                        }
                    } else {
                        match tail_groups(s, j + 2) {
                            Some(q) => if q.1 == s.len() && gs.len() + q.0.len() <= 7 {
                                Some(gs + zero_groups(8 - gs.len() - q.0.len()) + q.0)
                            } else {
                                None
                            },
                            None => None,
                        }
                    }
                } else {
                    None
                }
            },
            None => None,
        }
    }
}

/// The numeric value of eight groups read big-endian, 16 bits each.
pub open spec fn groups_value(gs: Seq<u16>) -> int
    decreases gs.len(),
{
    if gs.len() == 0 {
        0
    } else {
        groups_value(gs.drop_last()) * 0x10000 + gs.last()
    }
}

/// Zero groups have value zero.
pub proof fn lemma_groups_value_zeros(k: int)
    requires
        k >= 0,
    ensures
        groups_value(zero_groups(k)) == 0,
    decreases k,
{
    if k > 0 {
        lemma_groups_value_zeros(k - 1);
        assert(zero_groups(k).drop_last() =~= zero_groups(k - 1));
        assert(zero_groups(k).last() == 0u16);
    }
}

fn is_hex_digit_exec(c: char) -> (r: bool)
    ensures
        r == is_hex_digit(c),
{
    let u = c as u32;
    (48 <= u && u <= 57) || (97 <= u && u <= 102) || (65 <= u && u <= 70)
}

fn hex_char_val(c: char) -> (r: u8)
    requires
        is_hex_digit(c),
    ensures
        r as int == hex_digit_val(c),
{
    let u = c as u32;
    if u >= 97 {
        (u - 87) as u8
    } else if u >= 65 {
        (u - 55) as u8
    } else {
        (u - 48) as u8
    }
}

/// Counts the consecutive hex digits of `s` starting at `i`.
fn scan_hex_digits(s: &str, i: usize) -> (r: usize)
    requires
        i <= s@.len(),
    ensures
        r as int == hex_digits_from(s@, i as int),
        i + r <= s@.len(),
{
    let n = s.unicode_len();
    let mut j = i;
    loop
        invariant_except_break
            i <= j <= n,
            n == s@.len(),
            hex_digits_from(s@, i as int) == j - i + hex_digits_from(s@, j as int),
        ensures
            i <= j <= n,
            n == s@.len(),
            hex_digits_from(s@, i as int) == j - i,
        decreases n - j,
    {
        if j >= n {
            break;
        }
        let c = s.get_char(j);
        if !is_hex_digit_exec(c) {
            break;
        }
        j = j + 1;
    }
    j - i
}

/// Parses the group starting at `i`: its value and the position just
/// after it, or nothing when no valid group starts there.
fn parse_group(s: &str, i: usize) -> (r: Option<(u16, usize)>)
    requires
        i <= s@.len(),
        s@.len() <= usize::MAX,
    ensures
        r matches Some(p) ==> {
            &&& group_ok(s@, i as int)
            &&& p.0 as int == group_val(s@, i as int)
            &&& p.1 as int == i + hex_digits_from(s@, i as int)
            &&& i < p.1 <= s@.len()
        },
        r is None ==> !group_ok(s@, i as int),
{
    let d = scan_hex_digits(s, i);
    if d < 1 || d > 4 {
        return None;
    }
    let mut v: u32 = 0;
    let mut k = i;
    let end = i + d;
    proof {
        assert(hex_val(s@.subrange(i as int, i as int)) == 0);
    }
    while k < end
        invariant
            i <= k <= end,
            end == i + d,
            d as int == hex_digits_from(s@, i as int),
            1 <= d <= 4,
            end <= s@.len() <= usize::MAX,
            hex_digits_from(s@, k as int) == end - k,
            v as int == hex_val(s@.subrange(i as int, k as int)),
            k - i == 0 ==> v == 0,
            k - i == 1 ==> v < 16,
            k - i == 2 ==> v < 256,
            k - i == 3 ==> v < 4096,
            k - i == 4 ==> v < 65536,
        decreases end - k,
    {
        proof {
            assert(is_hex_digit(s@[k as int]));
        }
        let c = s.get_char(k);
        let hv = hex_char_val(c);
        v = v * 16 + (hv as u32);
        proof {
            assert(s@.subrange(i as int, k + 1 as int).drop_last() =~= s@.subrange(
                i as int,
                k as int,
            ));
            assert(s@.subrange(i as int, k + 1 as int).last() == s@[k as int]);
        }
        k = k + 1;
    }
    Some((v as u16, end))
}

/// Parses a maximal run of single-colon-separated groups, as
/// [`tail_groups`] describes it.
fn parse_tail(s: &str, start: usize) -> (r: Option<(Vec<u16>, usize)>)
    requires
        start <= s@.len(),
        s@.len() <= usize::MAX,
    ensures
        r matches Some(p) ==> tail_groups(s@, start as int) == Some((p.0@, p.1 as int))
            && start < p.1 <= s@.len(),
        r is None ==> tail_groups(s@, start as int) is None,
{
    let n = s.unicode_len();
    let mut acc: Vec<u16> = Vec::new();
    let mut cur = start;
    loop
        invariant
            start <= cur <= n,
            n == s@.len() <= usize::MAX,
            start < cur || acc@.len() == 0,
            (match tail_groups(s@, cur as int) {
                Some(q) => tail_groups(s@, start as int) == Some((acc@ + q.0, q.1)),
                None => tail_groups(s@, start as int) is None,
            }),
        decreases n - cur,
    {
        let g = parse_group(s, cur);
        match g {
            None => {
                return None;
            },
            Some((v, j)) => {
                let ghost old_acc = acc@;
                acc.push(v);
                if j < n && s.get_char(j) == ':' && j + 1 < n && is_hex_digit_exec(s.get_char(j + 1)) {
                    proof {
                        match tail_groups(s@, j + 1 as int) {
                            Some(q) => {
                                assert(tail_groups(s@, cur as int) == Some(
                                    (seq![v] + q.0, q.1),
                                ));
                                assert(acc@ + q.0 =~= old_acc + (seq![v] + q.0));
                            },
                            None => {},
                        }
                    }
                    cur = j + 1;
                } else {
                    proof {
                        assert(tail_groups(s@, cur as int) == Some((seq![v], j as int)));
                        assert(acc@ =~= old_acc + seq![v]);
                    }
                    return Some((acc, j));
                }
            },
        }
    }
}

/// Joins `left`, enough zero groups, and `right` into the eight groups
/// of a full address.
fn pad_groups(left: &Vec<u16>, right: &Vec<u16>) -> (r: Vec<u16>)
    requires
        left@.len() + right@.len() <= 8,
    ensures
        r@ == left@ + zero_groups(8 - left@.len() - right@.len()) + right@,
        r@.len() == 8,
{
    let mut out: Vec<u16> = Vec::new();
    let mut k: usize = 0;
    while k < left.len()
        invariant
            k <= left@.len(),
            out@ == left@.take(k as int),
        decreases left@.len() - k,
    {
        out.push(left[k]);
        proof {
            assert(out@ =~= left@.take(k + 1 as int));
        }
        k = k + 1;
    }
    proof {
        assert(left@.take(left@.len() as int) =~= left@);
    }
    let zeros = 8 - left.len() - right.len();
    let mut m: usize = 0;
    while m < zeros
        invariant
            m <= zeros,
            zeros == 8 - left@.len() - right@.len(),
            out@ == left@ + zero_groups(m as int),
        decreases zeros - m,
    {
        out.push(0);
        proof {
            assert(out@ =~= left@ + zero_groups(m + 1 as int));
        }
        m = m + 1;
    }
    let mut k2: usize = 0;
    while k2 < right.len()
        invariant
            k2 <= right@.len(),
            zeros == 8 - left@.len() - right@.len(),
            out@ == left@ + zero_groups(zeros as int) + right@.take(k2 as int),
        decreases right@.len() - k2,
    {
        out.push(right[k2]);
        proof {
            assert(out@ =~= left@ + zero_groups(zeros as int) + right@.take(k2 + 1 as int));
        }
        k2 = k2 + 1;
    }
    proof {
        assert(right@.take(right@.len() as int) =~= right@);
    }
    out
}

/// The numeric value of eight groups, as a machine integer.
fn groups_to_value(gs: &Vec<u16>) -> (r: u128)
    requires
        gs@.len() == 8,
    ensures
        r as int == groups_value(gs@),
{
    let mut acc: u128 = 0;
    let mut i: usize = 0;
    proof {
        lemma2_to64();
        lemma_pow2_adds(64, 64);
    }
    while i < 8
        invariant
            i <= 8,
            gs@.len() == 8,
            acc as int == groups_value(gs@.take(i as int)),
            acc < pow2((16 * i) as nat),
            pow2(128) == 0x100000000000000000000000000000000,
        decreases 8 - i,
    {
        proof {
            lemma_pow2_adds((16 * i) as nat, 16);
            lemma2_to64();
            if 16 * i + 16 < 128 {
                lemma_pow2_strictly_increases((16 * i + 16) as nat, 128);
            }
            let p = pow2((16 * i) as nat) as int;
            let q = pow2((16 * i + 16) as nat) as int;
            assert(acc * 0x10000 + 0xffff < q) by (nonlinear_arith)
                requires
                    0 <= acc < p,
                    p * 0x10000 == q,
            ;
        }
        let g = gs[i];
        acc = acc * 0x10000 + (g as u128);
        proof {
            assert(gs@.take(i + 1 as int).drop_last() =~= gs@.take(i as int));
            assert(gs@.take(i + 1 as int).last() == gs@[i as int]);
        }
        i = i + 1;
    }
    proof {
        assert(gs@.take(8) =~= gs@);
    }
    acc
}

/// Parses an IPv6 address text, accepting exactly the strings that
/// [`ipv6_groups`] describes; the returned address's numeric value is
/// the big-endian reading of the eight groups.
pub fn parse_ipv6(s: &str) -> (r: Option<IpAddress>)
    ensures
        r matches Some(a) ==> {
            &&& ipv6_groups(s@) matches Some(gs) && (a is V6) && ip_value(a) == groups_value(gs)
        },
        r is None ==> ipv6_groups(s@) is None,
{
    let n = s.unicode_len();
    let empty: Vec<u16> = Vec::new();
    if n >= 2 && s.get_char(0) == ':' && s.get_char(1) == ':' {
        if n == 2 {
            proof {
                lemma_groups_value_zeros(8);
                assert(zero_groups(8) =~= Seq::<u16>::empty() + zero_groups(8)
                    + Seq::<u16>::empty());
            }
            let full = pad_groups(&empty, &empty);
            let value = groups_to_value(&full);
            return Some(crate::ip::address_of_value(false, value));
        }
        match parse_tail(s, 2) {
            None => {
                return None;
            },
            Some((gs, e)) => {
                if e == n && gs.len() <= 7 {
                    let full = pad_groups(&empty, &gs);
                    let value = groups_to_value(&full);
                    proof {
                        assert(full@ =~= zero_groups(8 - gs@.len()) + gs@);
                    }
                    return Some(crate::ip::address_of_value(false, value));
                } else {
                    return None;
                }
            },
        }
    }
    match parse_tail(s, 0) {
        None => None,
        Some((gs, j)) => {
            if j == n && gs.len() == 8 {
                let full = pad_groups(&gs, &empty);
                let value = groups_to_value(&full);
                proof {
                    assert(full@ =~= gs@);
                }
                Some(crate::ip::address_of_value(false, value))
            } else if j < n && s.get_char(j) == ':' && j + 1 < n && s.get_char(j + 1) == ':' {
                if j + 2 == n {
                    if gs.len() <= 7 {
                        let full = pad_groups(&gs, &empty);
                        let value = groups_to_value(&full);
                        proof {
                            assert(full@ =~= gs@ + zero_groups(8 - gs@.len()));
                        }
                        Some(crate::ip::address_of_value(false, value))
                    } else {
                        None
                    }
                } else {
                    match parse_tail(s, j + 2) {
                        None => None,
                        Some((gs2, e)) => {
                            if e == n && gs.len() <= 7 && gs2.len() <= 7 && gs.len() + gs2.len() <= 7 {
                                let full = pad_groups(&gs, &gs2);
                                let value = groups_to_value(&full);
                                proof {
                                    assert(full@ =~= gs@ + zero_groups(
                                        8 - gs@.len() - gs2@.len(),
                                    ) + gs2@);
                                }
                                Some(crate::ip::address_of_value(false, value))
                            } else {
                                None
                            }
                        },
                    }
                }
            } else {
                None
            }
        },
    }
}


/// The address a text denotes: the octets of a dotted quad when the text
/// is IPv4, else an IPv6 address pinned by family and numeric value.
pub open spec fn text_addr(s: Seq<char>, a: IpAddress) -> bool {
    if ipv4_ok(s) {
        a matches IpAddress::V4(o) && o@ == ipv4_octets(s)
    } else if ipv6_groups(s) is Some {
        (a is V6) && ip_value(a) == groups_value(ipv6_groups(s)->Some_0)
    } else {
        false
    }
}

/// Parses an address text, dotted-quad IPv4 first, IPv6 otherwise.
pub fn parse_ip(s: &str) -> (r: Option<IpAddress>)
    ensures
        r matches Some(a) ==> text_addr(s@, a),
        (r is Some) == (ipv4_ok(s@) || ipv6_groups(s@) is Some),
{
    match parse_ipv4(s) {
        Some(a) => Some(a),
        None => {
            match parse_ipv6(s) {
                Some(a) => Some(a),
                None => None,
            }
        },
    }
}

/// An upper bound on a digit run: it cannot pass the end of the string.
pub proof fn lemma_digits_from_le(s: Seq<char>, i: int)
    requires
        0 <= i <= s.len(),
    ensures
        0 <= digits_from(s, i) <= s.len() - i,
    decreases s.len() - i,
{
    if i < s.len() && is_digit(s[i]) {
        lemma_digits_from_le(s, i + 1);
    }
}

/// A digit run reaches the end of the string exactly when everything
/// from `i` on is a digit.
pub proof fn lemma_digits_from_all(s: Seq<char>, i: int)
    requires
        0 <= i <= s.len(),
    ensures
        (digits_from(s, i) == s.len() - i) <==> (forall|j: int|
            i <= j < s.len() ==> is_digit(s[j])),
    decreases s.len() - i,
{
    lemma_digits_from_le(s, i);
    if i < s.len() {
        lemma_digits_from_all(s, i + 1);
        lemma_digits_from_le(s, i + 1);
    }
}

} // verus!
