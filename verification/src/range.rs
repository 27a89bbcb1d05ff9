//! Lazy enumeration of every address in a CIDR block, in ascending
//! numeric order, from the network address to the broadcast address,
//! without materializing the block.

use vstd::prelude::*;
use vstd::arithmetic::power2::{pow2, lemma_pow2_adds, lemma_pow2_strictly_increases, lemma2_to64};
use vstd::arithmetic::div_mod::lemma_fundamental_div_mod;
use crate::cidr::CidrNetwork;
use crate::ip::{
    address_of_value, ip_value, ip_value_u128, lemma_ip_value_bound, pow2_u128, IpAddress,
};

verus! {

/// The numeric value of the first address of a block: the base address
/// with its host bits cleared.
pub open spec fn spec_base_value(net: CidrNetwork) -> int {
    ip_value(net.addr) - ip_value(net.addr) % net.spec_size()
}

/// The numeric value of the `k`-th address a block enumerates, counting
/// from zero.
pub open spec fn spec_addr_value_at(net: CidrNetwork, k: int) -> int {
    spec_base_value(net) + k
}

/// A restartable cursor over the addresses of one CIDR block. `cur` is
/// the value of the next address to yield, `last` the value of the final
/// one; `done` is set once `last` has been yielded.
pub struct AddressRangeEnumerator {
    pub v4: bool,
    pub cur: u128,
    pub last: u128,
    pub done: bool,
    pub base: Ghost<u128>,
}

impl AddressRangeEnumerator {
    /// The cursor is consistent: it sits between the first and the last
    /// address, and an IPv4 block stays below 2^32.
    pub open spec fn wf(self) -> bool {
        &&& self.base@ <= self.cur <= self.last
        &&& (self.done ==> self.cur == self.last)
        &&& (self.v4 ==> (self.last as int) < pow2(32))
    }

    /// How many addresses have been yielded so far.
    pub open spec fn emitted(self) -> int {
        if self.done {
            self.last - self.base@ + 1
        } else {
            self.cur - self.base@
        }
    }

    /// The cursor enumerates exactly the given block.
    pub open spec fn for_network(self, net: CidrNetwork) -> bool {
        &&& net.well_formed()
        &&& (self.v4 <==> net.addr is V4)
        &&& self.base@ as int == spec_base_value(net)
        &&& self.last as int == spec_base_value(net) + net.spec_size() - 1
    }

    /// Starts the enumeration of a block at its network address.
    pub fn from_network(net: &CidrNetwork) -> (r: AddressRangeEnumerator)
        requires
            net.well_formed(),
        ensures
            r.wf(),
            r.for_network(*net),
            r.emitted() == 0,
            !r.done,
    {
        let value = ip_value_u128(&net.addr);
        let host_bits = net.addr.bits() - net.prefix;
        proof {
            lemma_ip_value_bound(net.addr);
            lemma2_to64();
            lemma_pow2_adds(64, 64);
        }
        if host_bits == 128 {
            proof {
                vstd::arithmetic::div_mod::lemma_small_mod(value as nat, pow2(128));
            }
            AddressRangeEnumerator {
                v4: false,
                cur: 0,
                last: u128::MAX,
                done: false,
                base: Ghost(0),
            }
        } else {
            proof {
                vstd::arithmetic::power2::lemma_pow2_pos(host_bits as nat);
                if (host_bits as int) < 128 {
                    lemma_pow2_strictly_increases(host_bits as nat, 128);
                }
            }
            let block = pow2_u128(host_bits);
            let offset = value % block;
            proof {
                lemma_fundamental_div_mod(value as int, block as int);
                assert(value as int % block as int <= value as int) by (nonlinear_arith)
                    requires
                        block as int * (value as int / block as int) + value as int % block
                            as int == value as int,
                        0 <= (value as int) % (block as int),
                        ((value as int) % (block as int)) < (block as int),
                        0 < block as int,
                        0 <= value as int,
                ;
            }
            let base = value - offset;
            proof {
                let b = block as int;
                let v = value as int;
                let bits = net.addr.spec_bits();
                lemma_fundamental_div_mod(v, b);
                lemma_pow2_adds(host_bits as nat, (bits - host_bits) as nat);
                let cap = pow2((bits - host_bits) as nat) as int;
                // base is a multiple of the block size below the family cap,
                // so a whole block still fits above it
                assert(v / b < cap) by (nonlinear_arith)
                    requires
                        b * (v / b) + v % b == v,
                        0 <= v % b < b,
                        0 < b,
                        0 <= v,
                        v < b * cap,
                ;
                assert(b * (v / b) + b <= b * cap) by (nonlinear_arith)
                    requires
                        v / b < cap,
                        0 < b,
                ;
            }
            let last = base + (block - 1);
            AddressRangeEnumerator {
                v4: net.addr.is_v4(),
                cur: base,
                last,
                done: false,
                base: Ghost(base),
            }
        }
    }

    /// Yields the next address of the block, or nothing once the block
    /// is exhausted. The `k`-th yielded address is the one whose numeric
    /// value is the block's base value plus `k`.
    pub fn next_address(&mut self) -> (r: Option<IpAddress>)
        requires
            old(self).wf(),
        ensures
            final(self).wf(),
            final(self).v4 == old(self).v4,
            final(self).base == old(self).base,
            final(self).last == old(self).last,
            old(self).done ==> r is None && *final(self) == *old(self),
            !old(self).done ==> {
                &&& r matches Some(a)
                &&& (a is V4) == old(self).v4
                &&& ip_value(a) == old(self).cur as int
                &&& ip_value(a) == old(self).base@ + old(self).emitted()
                &&& final(self).emitted() == old(self).emitted() + 1
                &&& (final(self).done <==> old(self).cur == old(self).last)
            },
    {
        if self.done {
            return None;
        }
        let v = self.cur;
        if self.cur < self.last {
            self.cur = self.cur + 1;
        } else {
            self.done = true;
        }
        proof {
            if old(self).v4 {
                assert(v < pow2(32));
            }
        }
        Some(address_of_value(self.v4, v))
    }
}

/// The enumeration order is ascending: within one block, an earlier
/// position holds a numerically smaller address than a later one — so
/// the enumerated addresses are pairwise distinct.
pub proof fn lemma_enumeration_ascending(net: CidrNetwork, i: int, j: int)
    requires
        net.well_formed(),
        0 <= i < j < net.spec_size(),
    ensures
        spec_addr_value_at(net, i) < spec_addr_value_at(net, j),
{
}

/// An enumerator for a block never yields more addresses than the block
/// holds: the count of yielded addresses stays within the block size, and
/// reaches it exactly when the enumerator is done.
pub proof fn lemma_enumerator_bounds(e: AddressRangeEnumerator, net: CidrNetwork)
    requires
        e.wf(),
        e.for_network(net),
    ensures
        0 <= e.emitted() <= net.spec_size(),
        e.done ==> e.emitted() == net.spec_size(),
        !e.done ==> e.emitted() < net.spec_size(),
{
}

/// Addresses with different numeric values are different addresses.
pub proof fn lemma_distinct_values_distinct_addresses(a1: IpAddress, a2: IpAddress)
    requires
        ip_value(a1) != ip_value(a2),
    ensures
        a1 != a2,
{
}

/// The block's first address is its base value and its final address is
/// base value plus size minus one, so every enumerated position lies
/// within the block.
pub proof fn lemma_enumeration_in_block(net: CidrNetwork, k: int)
    requires
        net.well_formed(),
        0 <= k < net.spec_size(),
    ensures
        spec_base_value(net) <= spec_addr_value_at(net, k) < spec_base_value(net)
            + net.spec_size(),
{
}

} // verus!
