//! Construction of the reverse-DNS (PTR) query name for an address:
//! `d.c.b.a.in-addr.arpa.` for IPv4, and the 32 reversed, zero-padded
//! hexadecimal nibbles followed by `ip6.arpa.` for IPv6.

use vstd::prelude::*;
use crate::ip::IpAddress;

verus! {

/// The ASCII decimal representation of `n`, most significant digit first,
/// with no leading zeros (`0` is written as the single digit `0`).
pub open spec fn dec_digits(n: nat) -> Seq<u8>
    decreases n,
{
    if n < 10 {
        seq![(48 + n) as u8]
    } else {
        dec_digits(n / 10) + seq![(48 + n % 10) as u8]
    }
}

/// The lowercase ASCII hexadecimal digit for a nibble value below 16.
pub open spec fn hex_digit(n: u8) -> u8 {
    if n < 10 {
        (48 + n) as u8
    } else {
        (87 + n) as u8
    }
}

/// The ASCII bytes of `in-addr.arpa.`.
pub open spec fn in_addr_suffix() -> Seq<u8> {
    seq![
        105u8, 110u8, 45u8, 97u8, 100u8, 100u8, 114u8, 46u8, 97u8, 114u8, 112u8, 97u8, 46u8,
    ]
}

/// The ASCII bytes of `ip6.arpa.`.
pub open spec fn ip6_suffix() -> Seq<u8> {
    seq![105u8, 112u8, 54u8, 46u8, 97u8, 114u8, 112u8, 97u8, 46u8]
}

/// The PTR name for the IPv4 address `o[0].o[1].o[2].o[3]`: the four
/// octets in reverse order, each in decimal, each followed by a dot,
/// then `in-addr.arpa.`.
pub open spec fn v4_name_bytes(o: Seq<u8>) -> Seq<u8>
    recommends
        o.len() == 4,
{
    dec_digits(o[3] as nat) + seq![46u8] + dec_digits(o[2] as nat) + seq![46u8]
        + dec_digits(o[1] as nat) + seq![46u8] + dec_digits(o[0] as nat) + seq![46u8]
        + in_addr_suffix()
}

/// The `k`-th nibble of the byte string `b` in forward order: the high
/// nibble of `b[0]` first.
pub open spec fn nibble_at(b: Seq<u8>, k: int) -> u8
    recommends
        0 <= k < 2 * b.len(),
{
    if k % 2 == 0 {
        (b[k / 2] / 16) as u8
    } else {
        (b[k / 2] % 16) as u8
    }
}

/// The PTR name for an IPv6 address: its 32 nibbles in reverse order,
/// each as one zero-padded lowercase hex digit followed by a dot, then
/// `ip6.arpa.`; 73 bytes in all.
pub open spec fn v6_name_bytes(b: Seq<u8>) -> Seq<u8>
    recommends
        b.len() == 16,
{
    Seq::new(
        73,
        |i: int|
            if i < 64 {
                if i % 2 == 0 {
                    hex_digit(nibble_at(b, 31 - i / 2))
                } else {
                    46u8
                }
            } else {
                ip6_suffix()[i - 64]
            },
    )
}

/// The PTR name of an address, as ASCII bytes.
pub open spec fn ptr_name_bytes(a: IpAddress) -> Seq<u8> {
    match a {
        IpAddress::V4(o) => v4_name_bytes(o@),
        IpAddress::V6(o) => v6_name_bytes(o@),
    }
}

/// The PTR name of an address, as the characters of the returned string.
pub open spec fn ptr_name_chars(a: IpAddress) -> Seq<char> {
    ptr_name_bytes(a).map_values(|b: u8| b as char)
}

/// Every byte of a decimal representation is an ASCII digit.
proof fn lemma_dec_digits_ascii(n: nat)
    ensures
        forall|i: int| 0 <= i < dec_digits(n).len() ==> 48 <= #[trigger] dec_digits(n)[i] < 58,
    decreases n,
{
    if n >= 10 {
        lemma_dec_digits_ascii(n / 10);
        assert forall|i: int| 0 <= i < dec_digits(n).len() implies 48 <= #[trigger] dec_digits(
            n,
        )[i] < 58 by {
            if i < dec_digits(n / 10).len() {
                assert(dec_digits(n)[i] == dec_digits(n / 10)[i]);
            } else {
                assert(dec_digits(n)[i] == (48 + n % 10) as u8);
            }
        }
    } else {
        assert(dec_digits(n)[0] == (48 + n) as u8);
    }
}

/// Relies on `String::from_utf8`: a byte string in which every byte is
/// ASCII is valid UTF-8, and decodes to exactly those bytes as characters.
#[verifier::external_body]
fn ascii_to_string(v: Vec<u8>) -> (r: String)
    requires
        forall|i: int| 0 <= i < v@.len() ==> v@[i] < 128,
    ensures
        r@ == v@.map_values(|b: u8| b as char),
{
    match String::from_utf8(v) {
        Ok(s) => s,
        Err(_) => String::new(),
    }
}

/// Appends the decimal representation of `n` to `out`.
fn push_decimal(out: &mut Vec<u8>, n: u8)
    ensures
        final(out)@ == old(out)@ + dec_digits(n as nat),
{
    if n >= 100 {
        out.push(48 + n / 100);
        out.push(48 + (n / 10) % 10);
        out.push(48 + n % 10);
        proof {
            assert((n as nat / 10) / 10 == n as nat / 100) by (nonlinear_arith);
            assert((n as nat / 10) % 10 == (n / 10) % 10) by (nonlinear_arith);
            assert(dec_digits(n as nat / 100) == seq![(48 + n as nat / 100) as u8]);
            assert(dec_digits(n as nat / 10) == dec_digits(n as nat / 100) + seq![
                (48 + (n as nat / 10) % 10) as u8,
            ]);
            assert(out@ =~= old(out)@ + dec_digits(n as nat));
        }
    } else if n >= 10 {
        out.push(48 + n / 10);
        out.push(48 + n % 10);
        proof {
            assert(dec_digits(n as nat / 10) == seq![(48 + n as nat / 10) as u8]);
            assert(out@ =~= old(out)@ + dec_digits(n as nat));
        }
    } else {
        out.push(48 + n);
        proof {
            assert(out@ =~= old(out)@ + dec_digits(n as nat));
        }
    }
}

/// The lowercase hex digit for a nibble value.
fn hex_digit_byte(n: u8) -> (r: u8)
    requires
        n < 16,
    ensures
        r == hex_digit(n),
{
    if n < 10 {
        48 + n
    } else {
        87 + n
    }
}

/// Builds the PTR query name for an address. Never fails: every address
/// is IPv4 or IPv6, and each family has a PTR name.
pub fn generate_ptr_domain(address: IpAddress) -> (r: Option<String>)
    ensures
        r matches Some(s) && s@ == ptr_name_chars(address),
{
    match address {
        IpAddress::V4(o) => {
            let mut out: Vec<u8> = Vec::new();
            push_decimal(&mut out, o[3]);
            out.push(46u8);
            push_decimal(&mut out, o[2]);
            out.push(46u8);
            push_decimal(&mut out, o[1]);
            out.push(46u8);
            push_decimal(&mut out, o[0]);
            out.push(46u8);
            out.push(105u8);
            out.push(110u8);
            out.push(45u8);
            out.push(97u8);
            out.push(100u8);
            out.push(100u8);
            out.push(114u8);
            out.push(46u8);
            out.push(97u8);
            out.push(114u8);
            out.push(112u8);
            out.push(97u8);
            out.push(46u8);
            proof {
                assert(out@ =~= v4_name_bytes(o@));
                lemma_dec_digits_ascii(o@[0] as nat);
                lemma_dec_digits_ascii(o@[1] as nat);
                lemma_dec_digits_ascii(o@[2] as nat);
                lemma_dec_digits_ascii(o@[3] as nat);
            }
            Some(ascii_to_string(out))
        },
        IpAddress::V6(o) => {
            let mut out: Vec<u8> = Vec::new();
            let mut i: usize = 0;
            while i < 32
                invariant
                    0 <= i <= 32,
                    out@.len() == 2 * i,
                    forall|j: int| 0 <= j < out@.len() ==> out@[j] == v6_name_bytes(o@)[j],
                    forall|j: int| 0 <= j < out@.len() ==> out@[j] < 128,
                decreases 32 - i,
            {
                let k: usize = 31 - i;
                let byte = o[k / 2];
                let nib: u8 = if k % 2 == 0 {
                    byte / 16
                } else {
                    byte % 16
                };
                proof {
                    assert(nib == nibble_at(o@, 31 - i as int));
                    assert(hex_digit(nib) < 128);
                }
                out.push(hex_digit_byte(nib));
                out.push(46u8);
                i = i + 1;
            }
            out.push(105u8);
            out.push(112u8);
            out.push(54u8);
            out.push(46u8);
            out.push(97u8);
            out.push(114u8);
            out.push(112u8);
            out.push(97u8);
            out.push(46u8);
            proof {
                assert(out@ =~= v6_name_bytes(o@));
            }
            Some(ascii_to_string(out))
        },
    }
}


/// Builds the PTR query name for an address given as text: the address
/// is parsed first, and an unparsable text yields nothing.
pub fn generate_ptr_domain_string(address: &str) -> (r: Option<String>)
    ensures
        (r is Some) == (crate::parse::ipv4_ok(address@) || crate::parse::ipv6_groups(address@)
            is Some),
        r matches Some(d) ==> exists|a: IpAddress|
            #[trigger] crate::parse::text_addr(address@, a) && d@ == ptr_name_chars(a),
{
    match crate::parse::parse_ip(address) {
        Some(a) => {
            let r = generate_ptr_domain(a);
            proof {
                assert(crate::parse::text_addr(address@, a));
            }
            r
        },
        None => None,
    }
}

} // verus!
