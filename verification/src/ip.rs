//! The IP address model: a tagged union of 4 octets (IPv4) or 16 octets
//! (IPv6), together with the numeric value of an address, which the range
//! enumerator counts through.

use vstd::prelude::*;
use vstd::arithmetic::power2::{
    pow2, lemma_pow2_adds, lemma_pow2_strictly_increases, lemma2_to64,
};
use vstd::arithmetic::div_mod::lemma_div_denominator;

verus! {

/// An IP address as plain bytes, in network (big-endian) order.
#[derive(Clone, Copy, PartialEq, Eq, Debug)]
pub enum IpAddress {
    V4([u8; 4]),
    V6([u8; 16]),
}

impl IpAddress {
    /// The bit width of the address family: 32 for IPv4, 128 for IPv6.
    pub open spec fn spec_bits(self) -> int {
        match self {
            IpAddress::V4(_) => 32,
            IpAddress::V6(_) => 128,
        }
    }

    /// The bit width of the address family, as a machine integer.
    pub fn bits(&self) -> (r: u8)
        ensures
            r as int == self.spec_bits(),
    {
        match self {
            IpAddress::V4(_) => 32,
            IpAddress::V6(_) => 128,
        }
    }

    /// Whether this is an IPv4 address.
    pub fn is_v4(&self) -> (r: bool)
        ensures
            r == (self is V4),
    {
        match self {
            IpAddress::V4(_) => true,
            IpAddress::V6(_) => false,
        }
    }
}

/// The numeric value of a big-endian byte string: the first byte is the
/// most significant.
pub open spec fn be_value(bytes: Seq<u8>) -> int
    decreases bytes.len(),
{
    if bytes.len() == 0 {
        0
    } else {
        be_value(bytes.drop_last()) * 256 + bytes.last()
    }
}

/// The numeric value of an address: its bytes read as one big-endian
/// integer.
pub open spec fn ip_value(a: IpAddress) -> int {
    match a {
        IpAddress::V4(o) => be_value(o@),
        IpAddress::V6(o) => be_value(o@),
    }
}

/// A big-endian byte string of length `n` has a value in `[0, 2^(8n))`.
pub proof fn lemma_be_value_bound(bytes: Seq<u8>)
    ensures
        0 <= be_value(bytes) < pow2((8 * bytes.len()) as nat),
    decreases bytes.len(),
{
    lemma2_to64();
    if bytes.len() > 0 {
        lemma_be_value_bound(bytes.drop_last());
        lemma_pow2_adds((8 * (bytes.len() - 1)) as nat, 8);
        let p = pow2((8 * (bytes.len() - 1)) as nat) as int;
        let q = pow2((8 * bytes.len()) as nat) as int;
        assert(be_value(bytes.drop_last()) * 256 + bytes.last() < q) by (nonlinear_arith)
            requires
                0 <= be_value(bytes.drop_last()) < p,
                p * 256 == q,
                bytes.last() < 256,
        ;
    }
}

/// An address value fits its family's bit width.
pub proof fn lemma_ip_value_bound(a: IpAddress)
    ensures
        0 <= ip_value(a) < pow2(a.spec_bits() as nat),
{
    match a {
        IpAddress::V4(o) => lemma_be_value_bound(o@),
        IpAddress::V6(o) => lemma_be_value_bound(o@),
    }
}

/// 2^e for an exponent below 128.
pub fn pow2_u128(e: u8) -> (r: u128)
    requires
        e < 128,
    ensures
        r as int == pow2(e as nat) as int,
{
    let mut r: u128 = 1;
    let mut i: u8 = 0;
    proof {
        lemma2_to64();
        lemma_pow2_adds(64, 64);
    }
    while i < e
        invariant
            i <= e < 128,
            r as int == pow2(i as nat) as int,
            pow2(128) == 0x100000000000000000000000000000000,
        decreases e - i,
    {
        proof {
            lemma_pow2_strictly_increases(i as nat + 1, 128);
            lemma_pow2_adds(i as nat, 1);
            lemma2_to64();
        }
        r = r * 2;
        i = i + 1;
    }
    r
}

/// The value of the first `n` bytes of `o`, accumulated left to right.
fn be_value_of_16(o: &[u8; 16]) -> (r: u128)
    ensures
        r as int == be_value(o@),
{
    let mut acc: u128 = 0;
    let mut i: usize = 0;
    proof {
        lemma2_to64();
        lemma_pow2_adds(64, 64);
    }
    while i < 16
        invariant
            i <= 16,
            acc as int == be_value(o@.take(i as int)),
            acc < pow2((8 * i) as nat),
            pow2(128) == 0x100000000000000000000000000000000,
        decreases 16 - i,
    {
        proof {
            lemma_pow2_adds((8 * i) as nat, 8);
            lemma2_to64();
            if 8 * i + 8 < 128 {
                lemma_pow2_strictly_increases((8 * i + 8) as nat, 128);
            }
            let p = pow2((8 * i) as nat) as int;
            let q = pow2((8 * i + 8) as nat) as int;
            assert(acc * 256 + 255 < q) by (nonlinear_arith)
                requires
                    0 <= acc < p,
                    p * 256 == q,
            ;
        }
        let b = o[i];
        acc = acc * 256 + (b as u128);
        proof {
            assert(o@.take(i + 1 as int).drop_last() =~= o@.take(i as int));
            assert(o@.take(i + 1 as int).last() == o@[i as int]);
        }
        i = i + 1;
    }
    proof {
        assert(o@.take(16) =~= o@);
    }
    acc
}

/// The value of the 4 bytes of `o`, accumulated left to right.
fn be_value_of_4(o: &[u8; 4]) -> (r: u128)
    ensures
        r as int == be_value(o@),
{
    let mut acc: u128 = 0;
    let mut i: usize = 0;
    proof {
        lemma2_to64();
    }
    while i < 4
        invariant
            i <= 4,
            acc as int == be_value(o@.take(i as int)),
            acc < pow2((8 * i) as nat),
        decreases 4 - i,
    {
        proof {
            lemma_pow2_adds((8 * i) as nat, 8);
            lemma2_to64();
            let p = pow2((8 * i) as nat) as int;
            let q = pow2((8 * i + 8) as nat) as int;
            assert(acc * 256 + 255 < q) by (nonlinear_arith)
                requires
                    0 <= acc < p,
                    p * 256 == q,
            ;
        }
        let b = o[i];
        acc = acc * 256 + (b as u128);
        proof {
            assert(o@.take(i + 1 as int).drop_last() =~= o@.take(i as int));
            assert(o@.take(i + 1 as int).last() == o@[i as int]);
        }
        i = i + 1;
    }
    proof {
        assert(o@.take(4) =~= o@);
    }
    acc
}

/// The numeric value of an address, as a machine integer.
pub fn ip_value_u128(a: &IpAddress) -> (r: u128)
    ensures
        r as int == ip_value(*a),
{
    match a {
        IpAddress::V4(o) => be_value_of_4(o),
        IpAddress::V6(o) => be_value_of_16(o),
    }
}

/// The big-endian bytes of `v`, `len` bytes long.
fn be_bytes_of_value(v: u128, len: usize) -> (r: Vec<u8>)
    requires
        len == 4 || len == 16,
        v < pow2((8 * len) as nat),
    ensures
        r@.len() == len,
        be_value(r@) == v as int,
{
    let mut out: Vec<u8> = Vec::new();
    let mut i: usize = 0;
    proof {
        lemma2_to64();
        lemma_pow2_adds(64, 64);
        vstd::arithmetic::power2::lemma_pow2_pos((8 * len) as nat);
        vstd::arithmetic::div_mod::lemma_basic_div(v as int, pow2((8 * len) as nat) as int);
    }
    while i < len
        invariant
            i <= len,
            len == 4 || len == 16,
            out@.len() == i,
            v < pow2((8 * len) as nat),
            be_value(out@) == v as int / pow2((8 * (len - i)) as nat) as int,
            pow2(128) == 0x100000000000000000000000000000000,
        decreases len - i,
    {
        let ghost old_out = out@;
        let e: u8 = (8 * (len - 1 - i)) as u8;
        proof {
            vstd::arithmetic::power2::lemma_pow2_pos(e as nat);
        }
        let d: u128 = pow2_u128(e);
        let b: u8 = ((v / d) % 256) as u8;
        out.push(b);
        proof {
            assert(out@.drop_last() =~= old_out);
            lemma_pow2_adds((8 * (len - 1 - i)) as nat, 8);
            lemma_div_denominator(v as int, pow2((8 * (len - 1 - i)) as nat) as int, 256);
            lemma2_to64();
            assert((8 * (len - i)) as nat == (8 * (len - 1 - i)) as nat + 8);
            let w = v as int / pow2((8 * (len - 1 - i)) as nat) as int;
            assert(v as int / pow2((8 * (len - i)) as nat) as int == w / 256);
            assert(be_value(out@) == (w / 256) * 256 + w % 256);
            assert((w / 256) * 256 + w % 256 == w);
        }
        i = i + 1;
    }
    proof {
        assert(pow2(0) == 1);
        assert(v as int / pow2(0) as int == v as int) by (nonlinear_arith)
            requires
                pow2(0) == 1,
        ;
    }
    out
}

/// The address of one family with the given numeric value.
pub fn address_of_value(v4: bool, v: u128) -> (r: IpAddress)
    requires
        v4 ==> v < pow2(32),
    ensures
        (r is V4) == v4,
        ip_value(r) == v as int,
{
    proof {
        lemma2_to64();
        lemma_pow2_adds(64, 64);
    }
    if v4 {
        let b = be_bytes_of_value(v, 4);
        let r = IpAddress::V4([b[0], b[1], b[2], b[3]]);
        proof {
            match r {
                IpAddress::V4(o) => {
                    assert(o@ =~= b@);
                },
                IpAddress::V6(_) => {},
            }
        }
        r
    } else {
        let b = be_bytes_of_value(v, 16);
        let r = IpAddress::V6(
            [
                b[0], b[1], b[2], b[3], b[4], b[5], b[6], b[7], b[8], b[9], b[10], b[11], b[12],
                b[13], b[14], b[15],
            ],
        );
        proof {
            match r {
                IpAddress::V6(o) => {
                    assert(o@ =~= b@);
                },
                IpAddress::V4(_) => {},
            }
        }
        r
    }
}


/// The big-endian reading is injective: byte strings of one length with
/// one value are the same bytes, so an address family together with a
/// numeric value pins the whole address.
pub proof fn lemma_be_value_injective(s1: Seq<u8>, s2: Seq<u8>)
    requires
        s1.len() == s2.len(),
        be_value(s1) == be_value(s2),
    ensures
        s1 =~= s2,
    decreases s1.len(),
{
    if s1.len() > 0 {
        lemma_be_value_bound(s1.drop_last());
        lemma_be_value_bound(s2.drop_last());
        vstd::arithmetic::div_mod::lemma_fundamental_div_mod_converse(
            be_value(s1),
            256,
            be_value(s1.drop_last()),
            s1.last() as int,
        );
        vstd::arithmetic::div_mod::lemma_fundamental_div_mod_converse(
            be_value(s2),
            256,
            be_value(s2.drop_last()),
            s2.last() as int,
        );
        lemma_be_value_injective(s1.drop_last(), s2.drop_last());
        assert forall|i: int| 0 <= i < s1.len() implies s1[i] == s2[i] by {
            if i < s1.len() - 1 {
                assert(s1[i] == s1.drop_last()[i]);
                assert(s2[i] == s2.drop_last()[i]);
            }
        }
    }
}

/// Two addresses of one family with one numeric value are one address.
pub proof fn lemma_ip_value_injective(a1: IpAddress, a2: IpAddress)
    requires
        (a1 is V4) == (a2 is V4),
        ip_value(a1) == ip_value(a2),
    ensures
        a1 == a2,
{
    match (a1, a2) {
        (IpAddress::V4(o1), IpAddress::V4(o2)) => {
            lemma_be_value_injective(o1@, o2@);
            assert(o1 =~= o2);
        },
        (IpAddress::V6(o1), IpAddress::V6(o2)) => {
            lemma_be_value_injective(o1@, o2@);
            assert(o1 =~= o2);
        },
        _ => {},
    }
}

} // verus!
