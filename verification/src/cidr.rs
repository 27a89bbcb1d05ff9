//! The CIDR network model: a base address with a prefix length, the exact
//! count of addresses in the block, and the safety gate that a bulk run
//! must pass before fanning out over a large block.

use vstd::prelude::*;
use vstd::arithmetic::power2::{pow2, lemma_pow2_strictly_increases, lemma2_to64};
use crate::ip::{IpAddress, pow2_u128};

verus! {

/// A bulk run over more addresses than this must be confirmed explicitly.
pub const MAX_SAFE: u128 = 65536;

/// A CIDR block: a base address and a prefix length no longer than the
/// address family's bit width.
#[derive(Clone, Copy, PartialEq, Eq, Debug)]
pub struct CidrNetwork {
    pub addr: IpAddress,
    pub prefix: u8,
}

impl CidrNetwork {
    /// The prefix length fits the address family: at most 32 bits for
    /// IPv4, at most 128 for IPv6.
    pub open spec fn well_formed(self) -> bool {
        self.prefix as int <= self.addr.spec_bits()
    }

    /// How many host bits the block leaves free.
    pub open spec fn spec_host_bits(self) -> int {
        self.addr.spec_bits() - self.prefix as int
    }

    /// The number of addresses in the block, network and broadcast
    /// addresses included.
    pub open spec fn spec_size(self) -> int {
        pow2(self.spec_host_bits() as nat) as int
    }
}

/// The number of addresses in a CIDR block. A full IPv6 block holds
/// 2^128 addresses, one more than `u128` can count, so that case is a
/// distinguished value.
#[derive(Clone, Copy, PartialEq, Eq, Structural, Debug)]
pub enum NetworkSize {
    /// Exactly this many addresses.
    Count(u128),
    /// The whole IPv6 space: 2^128 addresses.
    Full128,
}

impl NetworkSize {
    /// The count this value stands for.
    pub open spec fn spec_count(self) -> int {
        match self {
            NetworkSize::Count(c) => c as int,
            NetworkSize::Full128 => pow2(128) as int,
        }
    }
}

/// The exact size of a well-formed block.
pub fn network_size(net: &CidrNetwork) -> (r: NetworkSize)
    requires
        net.well_formed(),
    ensures
        r.spec_count() == net.spec_size(),
{
    let host_bits = net.addr.bits() - net.prefix;
    if host_bits == 128 {
        NetworkSize::Full128
    } else {
        NetworkSize::Count(pow2_u128(host_bits))
    }
}

/// The safety gate: a bulk run needs explicit confirmation exactly when
/// the block holds strictly more than [`MAX_SAFE`] addresses. A `/16`
/// IPv4 block (65536 addresses) passes without confirmation; a `/15`
/// block does not.
pub fn needs_confirmation(net: &CidrNetwork) -> (r: bool)
    requires
        net.well_formed(),
    ensures
        r <==> net.spec_size() > MAX_SAFE,
{
    let host_bits = net.addr.bits() - net.prefix;
    proof {
        lemma2_to64();
        if host_bits > 16 {
            lemma_pow2_strictly_increases(16, host_bits as nat);
        } else if (host_bits as int) < 16 {
            lemma_pow2_strictly_increases(host_bits as nat, 16);
        }
    }
    host_bits > 16
}

/// A block with sixteen host bits — an IPv4 `/16` — holds exactly the
/// threshold count of addresses. Since confirmation is demanded only
/// strictly above the threshold, such a block needs none.
pub proof fn lemma_threshold_block(net: CidrNetwork)
    requires
        net.well_formed(),
        net.spec_host_bits() == 16,
    ensures
        net.spec_size() == MAX_SAFE,
{
    lemma2_to64();
}

/// Whether a bulk run may go ahead: either no confirmation was needed,
/// or the confirmation channel answered yes. A declined prompt
/// (`Some(false)`) and a failed channel (`None`) both abort.
pub fn bulk_may_proceed(confirmation_needed: bool, response: Option<bool>) -> (r: bool)
    ensures
        r <==> (!confirmation_needed || response == Some(true)),
{
    if confirmation_needed {
        match response {
            Some(answer) => answer,
            None => false,
        }
    } else {
        true
    }
}

/// How many `/` characters the text holds.
pub open spec fn slash_count(s: Seq<char>) -> int
    decreases s.len(),
{
    if s.len() == 0 {
        0
    } else {
        slash_count(s.drop_last()) + if s.last() == '/' {
            1int
        } else {
            0
        }
    }
}

/// The position of the first `/` from `i` on, or the length when there
/// is none.
pub open spec fn first_slash_at(s: Seq<char>, i: int) -> int
    decreases s.len() - i when 0 <= i <= s.len()
{
    if i >= s.len() {
        i
    } else if s[i] == '/' {
        i
    } else {
        first_slash_at(s, i + 1)
    }
}

/// The position of the first `/` of the text.
pub open spec fn slash_pos(s: Seq<char>) -> int {
    first_slash_at(s, 0)
}

/// What stands before the first `/`.
pub open spec fn spec_addr_part(s: Seq<char>) -> Seq<char> {
    s.take(slash_pos(s))
}

/// What stands after the first `/`.
pub open spec fn spec_prefix_part(s: Seq<char>) -> Seq<char> {
    s.skip(slash_pos(s) + 1)
}

/// A nonempty string of decimal digits.
pub open spec fn prefix_numeric(p: Seq<char>) -> bool {
    p.len() >= 1 && forall|i: int| 0 <= i < p.len() ==> crate::parse::is_digit(p[i])
}

/// The address part parses as IPv4 or as IPv6.
pub open spec fn addr_part_ok(s: Seq<char>) -> bool {
    crate::parse::ipv4_ok(spec_addr_part(s)) || crate::parse::ipv6_groups(spec_addr_part(s))
        is Some
}

/// The bit width the address part's family allows the prefix length.
pub open spec fn spec_family_bits(s: Seq<char>) -> int {
    if crate::parse::ipv4_ok(spec_addr_part(s)) {
        32
    } else {
        128
    }
}

/// Why a CIDR text was rejected.
#[derive(Clone, Copy, PartialEq, Eq, Structural, Debug)]
pub enum CidrParseError {
    /// Not exactly one `/` separator.
    Syntax,
    /// The part before the `/` is neither an IPv4 nor an IPv6 address.
    Address,
    /// The part after the `/` is not a number.
    Prefix,
    /// The prefix length is out of range for the address family.
    Validation,
}

/// If nothing before `p` is a `/` and `p` is a `/` or the end, then `p`
/// is the first `/`.
proof fn lemma_first_slash(s: Seq<char>, i: int, p: int)
    requires
        0 <= i <= p <= s.len(),
        forall|j: int| i <= j < p ==> s[j] != '/',
        p == s.len() || s[p] == '/',
    ensures
        first_slash_at(s, i) == p,
    decreases p - i,
{
    if i < p {
        lemma_first_slash(s, i + 1, p);
    }
}

/// The saturated decimal value of a digit string: exact up to 255,
/// anything larger reported as merely "more than 255".
fn prefix_value_capped(s: &str) -> (r: u16)
    requires
        prefix_numeric(s@),
    ensures
        crate::parse::dec_val(s@) <= 255 ==> r as int == crate::parse::dec_val(s@),
        crate::parse::dec_val(s@) > 255 ==> r > 255,
{
    let n = s.unicode_len();
    let mut v: u16 = 0;
    let mut k: usize = 0;
    while k < n
        invariant
            k <= n,
            n == s@.len(),
            prefix_numeric(s@),
            v <= 2559,
            crate::parse::dec_val(s@.take(k as int)) <= 255 ==> v as int == crate::parse::dec_val(
                s@.take(k as int),
            ),
            crate::parse::dec_val(s@.take(k as int)) > 255 ==> v > 255,
        decreases n - k,
    {
        let c = s.get_char(k);
        proof {
            assert(crate::parse::is_digit(s@[k as int]));
        }
        let d = ((c as u32) - 48) as u16;
        proof {
            assert(s@.take(k + 1 as int).drop_last() =~= s@.take(k as int));
            assert(s@.take(k + 1 as int).last() == s@[k as int]);
        }
        if v <= 255 {
            v = v * 10 + d;
        }
        k = k + 1;
    }
    proof {
        assert(s@.take(n as int) =~= s@);
    }
    v
}

/// Splits and validates a CIDR text into a network: exactly one `/`,
/// an IPv4 or IPv6 address before it, a numeric prefix length after it,
/// within the family's bit width. Each rejection names the first rule
/// broken, in that order.
pub fn from_cidr(cidr: &str) -> (r: Result<CidrNetwork, CidrParseError>)
    ensures
        (r == Err::<CidrNetwork, CidrParseError>(CidrParseError::Syntax) <==> slash_count(cidr@)
            != 1),
        (r == Err::<CidrNetwork, CidrParseError>(CidrParseError::Address) <==> slash_count(cidr@)
            == 1 && !addr_part_ok(cidr@)),
        (r == Err::<CidrNetwork, CidrParseError>(CidrParseError::Prefix) <==> slash_count(cidr@)
            == 1 && addr_part_ok(cidr@) && !prefix_numeric(spec_prefix_part(cidr@))),
        (r == Err::<CidrNetwork, CidrParseError>(CidrParseError::Validation) <==> slash_count(
            cidr@,
        ) == 1 && addr_part_ok(cidr@) && prefix_numeric(spec_prefix_part(cidr@))
            && crate::parse::dec_val(spec_prefix_part(cidr@)) > spec_family_bits(cidr@)),
        r matches Ok(net) ==> {
            &&& slash_count(cidr@) == 1
            &&& addr_part_ok(cidr@)
            &&& prefix_numeric(spec_prefix_part(cidr@))
            &&& net.prefix as int == crate::parse::dec_val(spec_prefix_part(cidr@))
            &&& net.prefix as int <= spec_family_bits(cidr@)
            &&& crate::parse::text_addr(spec_addr_part(cidr@), net.addr)
            &&& net.well_formed()
        },
{
    let n = cidr.unicode_len();
    let mut count: usize = 0;
    let mut first: usize = n;
    let mut i: usize = 0;
    while i < n
        invariant
            i <= n,
            n == cidr@.len(),
            count as int == slash_count(cidr@.take(i as int)),
            count <= i,
            count == 0 ==> first == n && (forall|j: int| 0 <= j < i ==> cidr@[j] != '/'),
            count > 0 ==> first < i && cidr@[first as int] == '/' && (forall|j: int|
                0 <= j < first ==> cidr@[j] != '/'),
        decreases n - i,
    {
        let c = cidr.get_char(i);
        proof {
            assert(cidr@.take(i + 1 as int).drop_last() =~= cidr@.take(i as int));
            assert(cidr@.take(i + 1 as int).last() == cidr@[i as int]);
        }
        if c == '/' {
            if count == 0 {
                first = i;
            }
            count = count + 1;
        }
        i = i + 1;
    }
    proof {
        assert(cidr@.take(n as int) =~= cidr@);
    }
    if count != 1 {
        return Err(CidrParseError::Syntax);
    }
    proof {
        lemma_first_slash(cidr@, 0, first as int);
    }
    let addr_text = cidr.substring_char(0, first);
    let prefix_text = cidr.substring_char(first + 1, n);
    proof {
        assert(addr_text@ =~= spec_addr_part(cidr@));
        assert(prefix_text@ =~= spec_prefix_part(cidr@));
    }
    let addr = match crate::parse::parse_ip(addr_text) {
        Some(a) => a,
        None => {
            return Err(CidrParseError::Address);
        },
    };
    let plen = prefix_text.unicode_len();
    let d = crate::parse::scan_digits(prefix_text, 0);
    proof {
        crate::parse::lemma_digits_from_all(prefix_text@, 0);
    }
    if plen == 0 || d != plen {
        return Err(CidrParseError::Prefix);
    }
    let value = prefix_value_capped(prefix_text);
    let bits = addr.bits();
    if value > bits as u16 {
        return Err(CidrParseError::Validation);
    }
    let net = CidrNetwork { addr, prefix: value as u8 };
    Ok(net)
}

} // verus!
