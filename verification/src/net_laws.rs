//! What holds of addresses and prefixes.

use crate::net::{IpAddr, Prefix};
use vstd::arithmetic::div_mod::*;
use vstd::arithmetic::power2::*;
use vstd::prelude::*;

verus! {

/// A prefix holds the addresses of its family that start with its leading bits: all of them where
/// it has none.
pub proof fn prefixes_hold_by_their_leading_bits(prefix: Prefix, ip: IpAddr)
    requires
        prefix.valid(),
    ensures
        match (prefix.addr, ip) {
            (IpAddr::V4(a), IpAddr::V4(b)) => prefix.contains(ip) <==> prefix.len == 0 || a >> (32
                - prefix.len) as u32 == b >> (32 - prefix.len) as u32,
            (IpAddr::V6(a), IpAddr::V6(b)) => prefix.contains(ip) <==> prefix.len == 0 || a >> (128
                - prefix.len) as u128 == b >> (128 - prefix.len) as u128,
            _ => !prefix.contains(ip),
        },
{
    let rest = (prefix.addr.width() - prefix.len) as nat;
    lemma_pow2_pos(rest);
    match (prefix.addr, ip) {
        (IpAddr::V4(a), IpAddr::V4(b)) => {
            if prefix.len == 0 {
                lemma2_to64();
                lemma_basic_div(a as int, pow2(32) as int);
                lemma_basic_div(b as int, pow2(32) as int);
            } else {
                vstd::bits::lemma_u32_shr_is_div(a, rest as u32);
                vstd::bits::lemma_u32_shr_is_div(b, rest as u32);
            }
        },
        (IpAddr::V6(a), IpAddr::V6(b)) => {
            if prefix.len == 0 {
                lemma2_to64();
                lemma_pow2_adds(64, 64);
                lemma_basic_div(a as int, pow2(128) as int);
                lemma_basic_div(b as int, pow2(128) as int);
            } else {
                vstd::bits::lemma_u128_shr_is_div(a, rest as u128);
                vstd::bits::lemma_u128_shr_is_div(b, rest as u128);
            }
        },
        _ => {},
    }
}

/// The prefix of a host holds that host and no other address.
pub proof fn a_host_prefix_holds_one_address(ip: IpAddr, prefix: Prefix, other: IpAddr)
    requires
        call_ensures(IpAddr::host, (ip,), prefix),
    ensures
        prefix.valid(),
        prefix.contains(other) <==> other == ip,
{
    lemma2_to64();
    assert(pow2(0) == 1);
    lemma_div_basics(ip.number() as int);
    lemma_div_basics(other.number() as int);
}

/// A prefix holds its own address, and is a network exactly where that address is the least one
/// that it holds.
pub proof fn a_network_is_its_least_address(prefix: Prefix)
    requires
        prefix.valid(),
    ensures
        prefix.contains(prefix.addr),
        prefix.is_network() <==> forall|ip: IpAddr| #[trigger]
            prefix.contains(ip) ==> prefix.addr.number() <= ip.number(),
{
    let rest = pow2((prefix.addr.width() - prefix.len) as nat) as int;
    lemma_pow2_pos((prefix.addr.width() - prefix.len) as nat);
    let number = prefix.addr.number() as int;
    lemma_fundamental_div_mod(number, rest);
    lemma_mod_bound(number, rest);
    if prefix.is_network() {
        assert forall|ip: IpAddr| #[trigger] prefix.contains(ip) implies number
            <= ip.number() by {
            lemma_fundamental_div_mod(ip.number() as int, rest);
            lemma_mod_bound(ip.number() as int, rest);
        }
    } else {
        let least = (number / rest) * rest;
        assert(least == rest * (number / rest)) by (nonlinear_arith)
            requires
                least == (number / rest) * rest,
        ;
        assert(0 <= least) by (nonlinear_arith)
            requires
                least == (number / rest) * rest,
                number >= 0,
                rest > 0,
        ;
        let ip = match prefix.addr {
            IpAddr::V4(_) => IpAddr::V4(least as u32),
            IpAddr::V6(_) => IpAddr::V6(least as u128),
        };
        assert(ip.number() == least);
        lemma_div_multiples_vanish(number / rest, rest);
        assert(prefix.contains(ip));
    }
}

/// A prefix is valid where it has no more leading bits than its address has bits.
pub proof fn no_prefix_is_longer_than_its_address(prefix: Prefix)
    ensures
        prefix.valid() <==> match prefix.addr {
            IpAddr::V4(_) => prefix.len <= 32,
            IpAddr::V6(_) => prefix.len <= 128,
        },
{
}

} // verus!
