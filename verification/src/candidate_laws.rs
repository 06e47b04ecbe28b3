//! What makes the best candidate, and which host is the target, told by the flows themselves.

use crate::config::Direction;
use crate::double::{double_of, product_of, quotient_of, ratio_of, Double};
use crate::flow::FlowRecord;
use crate::mitigation::{
    best_candidate, bytes_fit, bytes_in, compute_destination_prefix, coverage, destination, earlier,
    find_best_candidate, group_bytes, heavier, heaviest, host_bytes, hosts, is_best, is_option,
    key_of, keys, labelled_bytes, preferred, seen_first, weight, Candidate, FieldSet, GroupKey,
};
use crate::mitigation_laws::{
    a_heaviest_host_exists, an_option_gives_a_best_one, dominant_host_is_the_target,
};
use crate::net::{IpAddr, Prefix};
use crate::rule_laws::alone;
use vstd::prelude::*;

verus! {

/// The bytes that the flows of a kind stand for, each sampled byte for as many as the sampling rate
/// says.
pub open spec fn bytes_where(flows: Seq<FlowRecord>, kind: spec_fn(FlowRecord) -> bool) -> nat
    decreases flows.len(),
{
    if flows.len() == 0 {
        0
    } else {
        let last = flows.last();
        bytes_where(flows.drop_last(), kind) + if kind(last) {
            last.bytes as nat * last.sampling_rate as nat
        } else {
            0
        }
    }
}

/// Whether a candidate has a value for exactly those fields that are in its set: source address,
/// destination port, source port, protocol and TCP flags, one bit for each.
pub open spec fn is_formed(candidate: Candidate) -> bool {
    let bits = candidate.fields.0;
    &&& bits & 1 != 0 <==> candidate.src_ip is Some
    &&& bits & 2 != 0 <==> candidate.dst_port is Some
    &&& bits & 4 != 0 <==> candidate.src_port is Some
    &&& bits & 8 != 0 <==> candidate.protocol is Some
    &&& bits & 16 != 0 <==> candidate.tcp_flags is Some
}

/// Whether a flow has exactly the values of a candidate. A zero is no value of a port, a protocol
/// or the TCP flags.
pub open spec fn is_in_group(flow: FlowRecord, candidate: Candidate) -> bool {
    &&& candidate.src_ip matches Some(ip) ==> flow.src_ip == ip
    &&& candidate.dst_port matches Some(port) ==> flow.dst_port == port && port != 0
    &&& candidate.src_port matches Some(port) ==> flow.src_port == port && port != 0
    &&& candidate.protocol matches Some(protocol) ==> flow.protocol == protocol && protocol != 0
    &&& candidate.tcp_flags matches Some(flags) ==> flow.tcp_flags == flags && flags != 0
}

/// The share of a candidate's group in the bytes of the flows.
pub open spec fn share_of(flows: Seq<FlowRecord>, candidate: Candidate) -> Double {
    quotient_of(
        double_of(bytes_where(flows, |flow: FlowRecord| is_in_group(flow, candidate))),
        double_of(bytes_where(flows, |flow: FlowRecord| true)),
    )
}

/// How many values a candidate has.
pub open spec fn values_of(candidate: Candidate) -> nat {
    (if candidate.src_ip is Some {
        1nat
    } else {
        0
    }) + (if candidate.dst_port is Some {
        1nat
    } else {
        0
    }) + (if candidate.src_port is Some {
        1nat
    } else {
        0
    }) + (if candidate.protocol is Some {
        1nat
    } else {
        0
    }) + (if candidate.tcp_flags is Some {
        1nat
    } else {
        0
    })
}

/// Whether a candidate may be suggested: it has at least one value and none of an excluded field,
/// some flow is in its group, and its share does not lie below the least one.
pub open spec fn may_be_suggested(
    flows: Seq<FlowRecord>,
    least: Double,
    excluded: u8,
    candidate: Candidate,
) -> bool {
    &&& is_formed(candidate)
    &&& 1 <= candidate.fields.0 <= 31
    &&& candidate.fields.0 & excluded == 0
    &&& exists|i: int| 0 <= i < flows.len() && is_in_group(#[trigger] flows[i], candidate)
    &&& !share_of(flows, candidate).less(least)
}

/// The score of a candidate: its share, and a bonus for each of its values.
pub open spec fn score_of(flows: Seq<FlowRecord>, candidate: Candidate) -> Double {
    product_of(share_of(flows, candidate), weight(values_of(candidate)))
}

/// Whether one candidate comes before another: it has fewer values, or as many and the lower bits,
/// or the same fields and a flow of its group comes before all of the other's.
pub open spec fn comes_first(flows: Seq<FlowRecord>, one: Candidate, other: Candidate) -> bool {
    ||| values_of(one) < values_of(other)
    ||| values_of(one) == values_of(other) && one.fields.0 < other.fields.0
    ||| one.fields == other.fields && exists|i: int|
        0 <= i < flows.len() && is_in_group(#[trigger] flows[i], one) && forall|j: int|
            0 <= j <= i ==> !is_in_group(#[trigger] flows[j], other)
}

/// Whether a candidate may be suggested and wins against all others that may: by a higher score, or
/// by one that is no lower where it comes before.
pub open spec fn is_top(
    flows: Seq<FlowRecord>,
    least: Double,
    excluded: u8,
    candidate: Candidate,
) -> bool {
    &&& may_be_suggested(flows, least, excluded, candidate)
    &&& forall|other: Candidate|
        other != candidate && #[trigger] may_be_suggested(flows, least, excluded, other)
            ==> score_of(flows, other).less(score_of(flows, candidate)) || !score_of(
            flows,
            candidate,
        ).less(score_of(flows, other)) && comes_first(flows, candidate, other)
}

/// The best candidate is one that may be suggested, and of these the one with the highest score:
/// its share of the bytes, with a bonus for each value. Of equal scores the first one is taken.
/// None is found only where the flows have no bytes or no candidate may be suggested.
pub proof fn the_best_candidate_is_found(
    flows: Vec<FlowRecord>,
    least: Double,
    excluded: u8,
    found: Option<Candidate>,
)
    requires
        call_ensures(find_best_candidate, (&flows, least, excluded), found),
    ensures
        match found {
            Some(best) => bytes_where(flows@, |flow: FlowRecord| true) > 0 && is_top(
                flows@,
                least,
                excluded,
                best,
            ),
            None => bytes_where(flows@, |flow: FlowRecord| true) == 0 || forall|other: Candidate|
                !#[trigger] may_be_suggested(flows@, least, excluded, other),
        },
{
    lemma_best_is_top(flows@, least, excluded);
}

pub(crate) proof fn lemma_best_is_top(flows: Seq<FlowRecord>, least: Double, excluded: u8)
    ensures
        match best_candidate(flows, least, excluded) {
            Some(best) => bytes_where(flows, |flow: FlowRecord| true) > 0 && is_top(
                flows,
                least,
                excluded,
                best,
            ),
            None => bytes_where(flows, |flow: FlowRecord| true) == 0 || forall|other: Candidate|
                !#[trigger] may_be_suggested(flows, least, excluded, other),
        },
{
    lemma_all_bytes(flows);
    assert forall|c: Candidate| #[trigger] may_be_suggested(
        flows,
        least,
        excluded,
        c,
    ) == is_option(flows, least, excluded, c) by {
        lemma_option(flows, least, excluded, c);
    }
    match best_candidate(flows, least, excluded) {
        Some(best) => {
            assert(is_best(flows, least, excluded, best));
            assert(may_be_suggested(flows, least, excluded, best));
            assert forall|other: Candidate|
                other != best && #[trigger] may_be_suggested(
                    flows,
                    least,
                    excluded,
                    other,
                ) implies score_of(flows, other).less(score_of(flows, best)) || !score_of(
                flows,
                best,
            ).less(score_of(flows, other)) && comes_first(flows, best, other) by {
                assert(is_option(flows, least, excluded, other));
                assert(preferred(flows, best, other));
                lemma_group(flows, best);
                lemma_group(flows, other);
                lemma_values(best);
                lemma_values(other);
                if !score_of(flows, other).less(score_of(flows, best)) {
                    assert(earlier(flows, best, other));
                    if best.fields == other.fields {
                        lemma_first(flows, best, other);
                    }
                }
            }
        },
        None => {
            if bytes_in(flows) > 0 {
                assert forall|other: Candidate| !#[trigger] may_be_suggested(
                    flows,
                    least,
                    excluded,
                    other,
                ) by {
                    if is_option(flows, least, excluded, other) {
                        an_option_gives_a_best_one(flows, least, excluded, other);
                    }
                }
            }
        },
    }
}

pub(crate) proof fn lemma_all_bytes(flows: Seq<FlowRecord>)
    ensures
        bytes_in(flows) == bytes_where(flows, |flow: FlowRecord| true),
    decreases flows.len(),
{
    if flows.len() > 0 {
        lemma_all_bytes(flows.drop_last());
    }
}

proof fn lemma_key(flow: FlowRecord, candidate: Candidate)
    ensures
        key_of(flow, candidate.fields) == Some(candidate.key()) <==> is_formed(candidate)
            && is_in_group(flow, candidate),
{
}

proof fn lemma_group_of_first(flows: Seq<FlowRecord>, candidate: Candidate, n: int)
    requires
        is_formed(candidate),
        0 <= n <= flows.len(),
    ensures
        labelled_bytes(keys(flows, candidate.fields), flows.take(n), candidate.key())
            == bytes_where(flows.take(n), |flow: FlowRecord| is_in_group(flow, candidate)),
    decreases n,
{
    if n > 0 {
        lemma_group_of_first(flows, candidate, n - 1);
        assert(flows.take(n).drop_last() =~= flows.take(n - 1));
        lemma_key(flows[n - 1], candidate);
    }
}

proof fn lemma_group(flows: Seq<FlowRecord>, candidate: Candidate)
    requires
        is_formed(candidate),
    ensures
        group_bytes(flows, candidate) == bytes_where(
            flows,
            |flow: FlowRecord| is_in_group(flow, candidate),
        ),
        coverage(flows, candidate) == share_of(flows, candidate),
{
    assert(flows.take(flows.len() as int) =~= flows);
    lemma_group_of_first(flows, candidate, flows.len() as int);
    lemma_all_bytes(flows);
}

proof fn lemma_option(flows: Seq<FlowRecord>, least: Double, excluded: u8, candidate: Candidate)
    ensures
        may_be_suggested(flows, least, excluded, candidate) == is_option(
            flows,
            least,
            excluded,
            candidate,
        ),
{
    let labels = keys(flows, candidate.fields);
    if is_option(flows, least, excluded, candidate) {
        let i = choose|i: int| 0 <= i < labels.len() && labels[i] == Some(candidate.key());
        lemma_key(flows[i], candidate);
        assert(is_in_group(flows[i], candidate));
        lemma_group(flows, candidate);
    }
    if may_be_suggested(flows, least, excluded, candidate) {
        let i = choose|i: int| 0 <= i < flows.len() && is_in_group(#[trigger] flows[i], candidate);
        lemma_key(flows[i], candidate);
        assert(labels[i] == Some(candidate.key()));
        lemma_group(flows, candidate);
    }
}

proof fn lemma_values(candidate: Candidate)
    requires
        is_formed(candidate),
        candidate.fields.0 <= 31,
    ensures
        candidate.fields.size() == values_of(candidate),
{
    let bits = candidate.fields.0;
    assert(bits & 32 == 0 && bits & 64 == 0 && bits & 128 == 0) by (bit_vector)
        requires
            bits <= 31,
    ;
}

proof fn lemma_first(flows: Seq<FlowRecord>, one: Candidate, other: Candidate)
    requires
        is_formed(one),
        is_formed(other),
        one.fields == other.fields,
        seen_first(keys(flows, one.fields), one.key(), other.key()),
    ensures
        exists|i: int|
            0 <= i < flows.len() && is_in_group(#[trigger] flows[i], one) && forall|j: int|
                0 <= j <= i ==> !is_in_group(#[trigger] flows[j], other),
{
    let labels = keys(flows, one.fields);
    let i = choose|i: int|
        0 <= i < labels.len() && #[trigger] labels[i] == Some(one.key()) && forall|j: int|
            0 <= j <= i ==> #[trigger] labels[j] != Some(other.key());
    lemma_key(flows[i], one);
    assert forall|j: int| 0 <= j <= i implies !is_in_group(#[trigger] flows[j], other) by {
        assert(labels[j] != Some(other.key()));
        lemma_key(flows[j], other);
    }
}

/// More values weigh more, and a candidate without any would keep its share as it is.
pub proof fn each_value_is_a_bonus(n: nat, m: nat)
    requires
        n < m <= 5,
    ensures
        weight(n).less(weight(m)),
        weight(0).bits == 0x3FF0_0000_0000_0000,
{
}

/// The address of a flow at the side of the watched prefix: where it goes to if it is inbound, and
/// where it comes from if it is outbound.
pub open spec fn inner_end(flow: FlowRecord, direction: Direction) -> IpAddr {
    match direction {
        Direction::Inbound => flow.dst_ip,
        Direction::Outbound => flow.src_ip,
    }
}

/// The share of a host in the bytes of the flows.
pub open spec fn share_of_host(flows: Seq<FlowRecord>, direction: Direction, ip: IpAddr) -> Double {
    quotient_of(
        double_of(bytes_where(flows, |flow: FlowRecord| inner_end(flow, direction) == ip)),
        double_of(bytes_where(flows, |flow: FlowRecord| true)),
    )
}

/// Whether a host has the dominant share, and more bytes than each other host, or as many and was
/// seen before.
pub open spec fn is_dominant(
    flows: Seq<FlowRecord>,
    direction: Direction,
    dominant: Double,
    ip: IpAddr,
) -> bool {
    &&& share_of_host(flows, direction, ip).no_less(dominant)
    &&& exists|i: int| 0 <= i < flows.len() && inner_end(#[trigger] flows[i], direction) == ip
    &&& forall|k: int|
        0 <= k < flows.len() && inner_end(#[trigger] flows[k], direction) != ip ==> is_outweighed(
            flows,
            direction,
            inner_end(flows[k], direction),
            ip,
        )
}

/// Whether a host has fewer bytes than another one, or as many and was seen after it.
pub open spec fn is_outweighed(
    flows: Seq<FlowRecord>,
    direction: Direction,
    ip: IpAddr,
    by: IpAddr,
) -> bool {
    let mine = bytes_where(flows, |flow: FlowRecord| inner_end(flow, direction) == ip);
    let other = bytes_where(flows, |flow: FlowRecord| inner_end(flow, direction) == by);
    mine < other || mine == other && exists|i: int|
        0 <= i < flows.len() && inner_end(#[trigger] flows[i], direction) == by && forall|j: int|
            0 <= j <= i ==> inner_end(#[trigger] flows[j], direction) != ip
}

/// Whether some host has the dominant share of the bytes.
pub open spec fn is_dominated(
    flows: Seq<FlowRecord>,
    direction: Direction,
    dominant: Double,
) -> bool {
    bytes_where(flows, |flow: FlowRecord| true) > 0 && exists|i: int|
        0 <= i < flows.len() && share_of_host(
            flows,
            direction,
            inner_end(#[trigger] flows[i], direction),
        ).no_less(dominant)
}

/// Flows aim at the one host that has the dominant share of the bytes and more than each other one,
/// and at the watched prefix where no host has the dominant share.
pub proof fn the_target_is_the_dominant_host(
    flows: Vec<FlowRecord>,
    direction: Direction,
    prefix: Prefix,
    dominant: Double,
    target: Prefix,
)
    requires
        bytes_fit(flows@),
        call_ensures(compute_destination_prefix, (&flows, direction, prefix, dominant), target),
    ensures
        is_dominated(flows@, direction, dominant) ==> target == alone(target.addr) && is_dominant(
            flows@,
            direction,
            dominant,
            target.addr,
        ),
        !is_dominated(flows@, direction, dominant) ==> target == prefix,
{
    assert(flows@.len() == flows.len());
    lemma_bytes_bound(flows@);
    lemma_target(flows@, direction, prefix, dominant);
}

pub(crate) proof fn lemma_target(
    all: Seq<FlowRecord>,
    direction: Direction,
    prefix: Prefix,
    dominant: Double,
)
    requires
        bytes_in(all) <= u128::MAX,
    ensures
        ({
            let target = destination(all, direction, prefix, dominant);
            &&& is_dominated(all, direction, dominant) ==> target == alone(target.addr)
                && is_dominant(all, direction, dominant, target.addr)
            &&& !is_dominated(all, direction, dominant) ==> target == prefix
        }),
{
    lemma_all_bytes(all);
    if bytes_in(all) > 0 {
        a_heaviest_host_exists(all, direction);
        let ip = heaviest(all, direction);
        let labels = hosts(all, direction);
        let h = choose|h: int| 0 <= h < labels.len() && labels[h] == Some(ip);
        assert(inner_end(all[h], direction) == ip);
        lemma_host(all, direction, ip);
        dominant_host_is_the_target(all, direction, prefix, dominant, ip);
        assert(ip.host_prefix() == alone(ip));
        assert forall|i: int| 0 <= i < all.len() && share_of_host(
            all,
            direction,
            inner_end(#[trigger] all[i], direction),
        ).no_less(dominant) implies share_of_host(all, direction, ip).no_less(dominant) by {
            let other = inner_end(all[i], direction);
            assert(labels[i] == Some(other));
            assert(labels.contains(Some(other)));
            lemma_host(all, direction, other);
            dominant_host_is_the_target(all, direction, prefix, dominant, other);
        }
        assert forall|k: int|
            0 <= k < all.len() && inner_end(#[trigger] all[k], direction)
                != ip implies is_outweighed(all, direction, inner_end(all[k], direction), ip) by {
            let other = inner_end(all[k], direction);
            assert(labels[k] == Some(other));
            assert(labels.contains(Some(other)));
            assert(heavier(all, direction, ip, other));
            lemma_host(all, direction, other);
            if host_bytes(all, direction, other) == host_bytes(all, direction, ip) {
                let i = choose|i: int|
                    0 <= i < labels.len() && #[trigger] labels[i] == Some(ip) && forall|j: int|
                        0 <= j <= i ==> #[trigger] labels[j] != Some(other);
                assert(inner_end(all[i], direction) == ip);
                assert forall|j: int| 0 <= j <= i implies inner_end(#[trigger] all[j], direction)
                    != other by {
                    assert(labels[j] != Some(other));
                }
            }
        }
    }
}

proof fn lemma_bytes_bound(flows: Seq<FlowRecord>)
    requires
        bytes_fit(flows),
        flows.len() <= usize::MAX,
    ensures
        bytes_in(flows) <= flows.len() * u64::MAX,
        bytes_in(flows) <= u128::MAX,
    decreases flows.len(),
{
    let n = flows.len();
    if n > 0 {
        let m = (n - 1) as nat;
        assert(bytes_fit(flows.drop_last()));
        lemma_bytes_bound(flows.drop_last());
        assert(flows.last() == flows[m as int]);
        assert(n * u64::MAX == m * u64::MAX + u64::MAX) by (nonlinear_arith)
            requires
                n == m + 1,
        ;
    }
    assert(n * u64::MAX <= 0xffff_ffff_ffff_ffff * u64::MAX) by (nonlinear_arith)
        requires
            n <= 0xffff_ffff_ffff_ffff,
    ;
}

proof fn lemma_host_of_first(flows: Seq<FlowRecord>, direction: Direction, ip: IpAddr, n: int)
    requires
        0 <= n <= flows.len(),
    ensures
        labelled_bytes(hosts(flows, direction), flows.take(n), ip) == bytes_where(
            flows.take(n),
            |flow: FlowRecord| inner_end(flow, direction) == ip,
        ),
    decreases n,
{
    if n > 0 {
        lemma_host_of_first(flows, direction, ip, n - 1);
        assert(flows.take(n).drop_last() =~= flows.take(n - 1));
    }
}

proof fn lemma_host(flows: Seq<FlowRecord>, direction: Direction, ip: IpAddr)
    ensures
        host_bytes(flows, direction, ip) == bytes_where(
            flows,
            |flow: FlowRecord| inner_end(flow, direction) == ip,
        ),
        ratio_of(host_bytes(flows, direction, ip), bytes_in(flows))
            == share_of_host(flows, direction, ip),
{
    assert(flows.take(flows.len() as int) =~= flows);
    lemma_host_of_first(flows, direction, ip, flows.len() as int);
    lemma_all_bytes(flows);
}

/// A flow has a group for a set of fields where it has a value in each of them. The group is that
/// of the flow's own values in those fields, and of no others.
pub proof fn a_flow_is_in_its_own_group(flow: FlowRecord, fields: FieldSet, key: Option<GroupKey>)
    requires
        call_ensures(GroupKey::from_flow, (&flow, fields), key),
    ensures
        key is None <==> (fields.0 & 2 != 0 && flow.dst_port == 0) || (fields.0 & 4 != 0
            && flow.src_port == 0) || (fields.0 & 8 != 0 && flow.protocol == 0) || (fields.0 & 16
            != 0 && flow.tcp_flags == 0),
        key matches Some(values) ==> {
            &&& values.src_ip == if fields.0 & 1 != 0 {
                Some(flow.src_ip)
            } else {
                None
            }
            &&& values.dst_port == if fields.0 & 2 != 0 {
                Some(flow.dst_port)
            } else {
                None
            }
            &&& values.src_port == if fields.0 & 4 != 0 {
                Some(flow.src_port)
            } else {
                None
            }
            &&& values.protocol == if fields.0 & 8 != 0 {
                Some(flow.protocol)
            } else {
                None
            }
            &&& values.tcp_flags == if fields.0 & 16 != 0 {
                Some(flow.tcp_flags)
            } else {
                None
            }
        },
{
}

/// The sets of fields to try are all that have at least one of the five fields and none of the
/// excluded ones. Smaller sets come first, and of one size those with the lower bits.
pub proof fn all_sets_are_tried(excluded: u8, sets: Vec<FieldSet>, counts: Seq<u32>)
    requires
        call_ensures(FieldSet::all_combinations, (excluded,), sets),
        counts.len() == sets@.len(),
        forall|i: int|
            0 <= i < sets@.len() ==> call_ensures(
                FieldSet::count,
                (sets@[i],),
                #[trigger] counts[i],
            ),
    ensures
        forall|bits: u8|
            #[trigger] sets@.contains(FieldSet(bits)) <==> 1 <= bits <= 31 && bits & excluded == 0,
        forall|i: int, j: int|
            0 <= i < j < sets@.len() ==> counts[i] < counts[j] || counts[i] == counts[j] && (
            #[trigger] sets@[i]).0 < (#[trigger] sets@[j]).0,
{
    assert forall|i: int, j: int| 0 <= i < j < sets@.len() implies counts[i] < counts[j]
        || counts[i] == counts[j] && (#[trigger] sets@[i]).0 < (#[trigger] sets@[j]).0 by {
        assert(sets@[i].before(sets@[j]));
        assert(counts[i] == sets@[i].size() && counts[j] == sets@[j].size());
    }
}

/// A set has one field more where one is added to it, and the empty set has none.
pub proof fn fields_are_counted(bits: u8, flag: u8, less: u32, more: u32, none: u32)
    requires
        flag == 1 || flag == 2 || flag == 4 || flag == 8 || flag == 16,
        bits & flag == 0,
        call_ensures(FieldSet::count, (FieldSet(bits),), less),
        call_ensures(FieldSet::count, (FieldSet(bits | flag),), more),
        call_ensures(FieldSet::count, (FieldSet(0),), none),
    ensures
        more == less + 1,
        none == 0,
{
    let sum = bits | flag;
    lemma_bit_of_sum(bits, flag, 1);
    lemma_bit_of_sum(bits, flag, 2);
    lemma_bit_of_sum(bits, flag, 4);
    lemma_bit_of_sum(bits, flag, 8);
    lemma_bit_of_sum(bits, flag, 16);
    lemma_bit_of_sum(bits, flag, 32);
    lemma_bit_of_sum(bits, flag, 64);
    lemma_bit_of_sum(bits, flag, 128);
    assert(0u8 & 1 == 0 && 0u8 & 2 == 0 && 0u8 & 4 == 0 && 0u8 & 8 == 0 && 0u8 & 16 == 0 && 0u8 & 32
        == 0 && 0u8 & 64 == 0 && 0u8 & 128 == 0) by (bit_vector);
}

proof fn lemma_bit_of_sum(bits: u8, flag: u8, other: u8)
    requires
        flag == 1 || flag == 2 || flag == 4 || flag == 8 || flag == 16,
        other == 1 || other == 2 || other == 4 || other == 8 || other == 16 || other == 32 || other
            == 64 || other == 128,
    ensures
        (bits | flag) & other != 0 <==> bits & other != 0 || other == flag,
{
    assert((bits | flag) & other != 0 <==> bits & other != 0 || other == flag) by (bit_vector)
        requires
            flag == 1 || flag == 2 || flag == 4 || flag == 8 || flag == 16,
            other == 1 || other == 2 || other == 4 || other == 8 || other == 16 || other == 32
                || other == 64 || other == 128,
    ;
}

} // verus!
