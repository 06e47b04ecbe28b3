//! How the suggested rules follow one another.

use crate::candidate_laws::{
    bytes_where, is_dominant, is_dominated, is_in_group, is_top, lemma_all_bytes, lemma_best_is_top,
    lemma_target, may_be_suggested,
};
use crate::config::{in_category, Direction, ProtocolCategory};
use crate::double::{double_of, product_of, quotient_of, Double};
use crate::flow::FlowRecord;
use crate::mitigation::{
    analyze_flows, best_candidate, bytes_in, destination, flag_texts, forced_fields, is_calm,
    of_category, protocol_text, rule_for, rule_texts, rules_for, suggested, uncovered, Candidate,
    MitigationRule, RuleText, MAX_RULES, MIN_COVERAGE,
};
use crate::mitigation_laws::best_candidate_covers;
use crate::net::{text_of_prefix, IpAddr, Prefix};
use crate::rule_laws::{alone, has_values, the_next_round_has_the_other_flows};
use vstd::prelude::*;

verus! {

/// Whether the rate that the remaining flows stand for is estimated to lie below a threshold: the
/// current rate, cut down to their share in all the bytes.
pub open spec fn is_quiet(
    remaining: Seq<FlowRecord>,
    all: Seq<FlowRecord>,
    current_rate: Double,
    threshold: Double,
) -> bool {
    let share = quotient_of(
        double_of(bytes_where(remaining, |flow: FlowRecord| true)),
        double_of(bytes_where(all, |flow: FlowRecord| true)),
    );
    &&& bytes_where(all, |flow: FlowRecord| true) > 0
    &&& (Double { bits: 0 }).less(threshold)
    &&& product_of(current_rate, share).less(threshold)
}

/// The fields in which all flows of a category have one value, and by which they are not told
/// apart: the protocol where the category has one number, and the port where it has one.
pub open spec fn fixed_fields(category: ProtocolCategory) -> u8 {
    match category {
        ProtocolCategory::Any => 0,
        ProtocolCategory::Dns => 2,
        ProtocolCategory::Https => 10,
        _ => 8,
    }
}

/// The least share of the remaining bytes for which a rule is suggested: a tenth.
pub open spec fn a_tenth() -> Double {
    Double { bits: 0x3FB9_9999_9999_999A }
}

/// The share of the remaining bytes from which on one host is the target: four fifths.
pub open spec fn four_fifths() -> Double {
    Double { bits: 0x3FE9_9999_9999_999A }
}

/// Whether a text is that of the prefix at which the remaining flows aim: the dominant host, or the
/// watched prefix where there is none.
pub open spec fn is_target_text(
    text: Seq<char>,
    remaining: Seq<FlowRecord>,
    prefix: Prefix,
    direction: Direction,
) -> bool {
    if is_dominated(remaining, direction, four_fifths()) {
        exists|ip: IpAddr|
            text == text_of_prefix(alone(ip)) && #[trigger] is_dominant(
                remaining,
                direction,
                four_fifths(),
                ip,
            )
    } else {
        text == text_of_prefix(prefix)
    }
}

/// Whether a rule says what a candidate found. It names the values of the candidate. Of what the
/// candidate leaves open, it names the protocols and the port of the category, and SYN for
/// handshakes. It aims at the target of the remaining flows: inbound that is the destination,
/// outbound the source.
pub open spec fn says(
    rule: RuleText,
    candidate: Candidate,
    remaining: Seq<FlowRecord>,
    prefix: Prefix,
    direction: Direction,
    category: ProtocolCategory,
) -> bool {
    &&& match direction {
        Direction::Inbound => {
            &&& is_target_text(rule.destination_prefix, remaining, prefix, direction)
            &&& match candidate.src_ip {
                Some(ip) => rule.source_prefix == Some(text_of_prefix(alone(ip))),
                None => rule.source_prefix is None,
            }
        },
        Direction::Outbound => {
            &&& rule.source_prefix matches Some(text) && is_target_text(
                text,
                remaining,
                prefix,
                direction,
            )
            &&& match candidate.src_ip {
                Some(ip) => rule.destination_prefix == text_of_prefix(alone(ip)),
                None => rule.destination_prefix == text_of_prefix(prefix),
            }
        },
    }
    &&& match candidate.dst_port {
        Some(port) => rule.destination_ports == seq![port],
        None => match category {
            ProtocolCategory::Dns => rule.destination_ports == seq![53u16],
            ProtocolCategory::Https => rule.destination_ports == seq![443u16],
            _ => rule.destination_ports.len() == 0,
        },
    }
    &&& match candidate.src_port {
        Some(port) => rule.source_ports == seq![port],
        None => rule.source_ports.len() == 0,
    }
    &&& match candidate.protocol {
        Some(protocol) => rule.protocols == seq![protocol_text(protocol)],
        None => match category {
            ProtocolCategory::Any => rule.protocols.len() == 0,
            ProtocolCategory::Dns => rule.protocols == seq!["tcp"@, "udp"@],
            ProtocolCategory::Tcp => rule.protocols == seq!["tcp"@],
            ProtocolCategory::TcpSyn => rule.protocols == seq!["tcp"@],
            ProtocolCategory::Https => rule.protocols == seq!["tcp"@],
            ProtocolCategory::Udp => rule.protocols == seq!["udp"@],
            ProtocolCategory::Icmp => rule.protocols == seq!["icmp"@],
            ProtocolCategory::Gre => rule.protocols == seq!["gre"@],
            ProtocolCategory::Esp => rule.protocols == seq!["esp"@],
        },
    }
    &&& match candidate.tcp_flags {
        Some(flags) if flag_texts(flags).len() > 0 => rule.tcp_flags == flag_texts(flags),
        _ => if category == ProtocolCategory::TcpSyn {
            rule.tcp_flags == seq!["syn"@]
        } else {
            rule.tcp_flags.len() == 0
        },
    }
}

/// Whether a round turns the best candidate of the remaining flows into a rule, and leaves the
/// flows that lack one of its values for the next round.
pub open spec fn is_round(
    remaining: Seq<FlowRecord>,
    next: Seq<FlowRecord>,
    best: Candidate,
    rule: RuleText,
    prefix: Prefix,
    direction: Direction,
    category: ProtocolCategory,
) -> bool {
    &&& is_top(remaining, a_tenth(), fixed_fields(category), best)
    &&& says(rule, best, remaining, prefix, direction, category)
    &&& next == remaining.filter(|flow: FlowRecord| !has_values(flow, best))
}

/// Whether nothing more is to be suggested for the remaining flows: there are none, their rate is
/// estimated to lie below the threshold, or no candidate may be suggested.
pub open spec fn is_the_end(
    remaining: Seq<FlowRecord>,
    all: Seq<FlowRecord>,
    category: ProtocolCategory,
    current_rate: Double,
    threshold: Double,
) -> bool {
    ||| remaining.len() == 0
    ||| is_quiet(remaining, all, current_rate, threshold)
    ||| bytes_where(remaining, |flow: FlowRecord| true) == 0
    ||| forall|c: Candidate|
        !#[trigger] may_be_suggested(remaining, a_tenth(), fixed_fields(category), c)
}

/// Whether more is to be suggested for the remaining flows.
pub open spec fn goes_on(
    remaining: Seq<FlowRecord>,
    all: Seq<FlowRecord>,
    category: ProtocolCategory,
    current_rate: Double,
    threshold: Double,
) -> bool {
    !is_the_end(remaining, all, category, current_rate, threshold)
}

/// Whether rules come from rounds: the first one has all flows, each next one those that the one
/// before has left, and they end only where nothing more is to be suggested, or at the limit.
pub open spec fn are_rounds(
    rest: Seq<Seq<FlowRecord>>,
    best: Seq<Candidate>,
    rules: Seq<RuleText>,
    all: Seq<FlowRecord>,
    prefix: Prefix,
    direction: Direction,
    category: ProtocolCategory,
    current_rate: Double,
    threshold: Double,
    limit: nat,
) -> bool {
    &&& rules.len() <= limit
    &&& best.len() == rules.len()
    &&& rest.len() == rules.len() + 1
    &&& forall|k: int|
        0 <= k < rules.len() ==> {
            &&& goes_on(#[trigger] rest[k], all, category, current_rate, threshold)
            &&& is_round(rest[k], rest[k + 1], best[k], rules[k], prefix, direction, category)
        }
    &&& rules.len() < limit ==> is_the_end(rest.last(), all, category, current_rate, threshold)
}

/// The rules come from rounds over the captured flows of the alert's category. Each round suggests
/// the rule of the best candidate and sets aside the flows that have its values, so that the rest
/// goes on to the next one. There are at most ten rounds, and fewer only where what is left is
/// nothing, is estimated to lie below the threshold, or has no candidate for a tenth of its bytes.
pub proof fn rules_come_in_rounds(
    flows: &[FlowRecord],
    prefix: Prefix,
    direction: Direction,
    category: ProtocolCategory,
    current_rate: Double,
    threshold: Double,
    rules: Vec<MitigationRule>,
)
    requires
        bytes_where(flows@, |flow: FlowRecord| true) <= u128::MAX,
        call_ensures(
            analyze_flows,
            (flows, prefix, direction, category, current_rate, threshold),
            rules,
        ),
    ensures
        ({
            let chosen = flows@.filter(
                |flow: FlowRecord|
                    in_category(category, flow.protocol, flow.tcp_flags, flow.dst_port),
            );
            exists|rest: Seq<Seq<FlowRecord>>, best: Seq<Candidate>|
                rest.len() > 0 && rest[0] == chosen && #[trigger] are_rounds(
                    rest,
                    best,
                    rule_texts(rules@),
                    chosen,
                    prefix,
                    direction,
                    category,
                    current_rate,
                    threshold,
                    10,
                )
        }),
{
    let chosen = of_category(flows@, category);
    lemma_all_bytes(flows@);
    lemma_category_is_no_more(flows@, category);
    lemma_rounds(
        chosen,
        chosen,
        prefix,
        direction,
        category,
        current_rate,
        threshold,
        MAX_RULES as nat,
    );
}

/// A flow that a round sets aside agrees with the ports that its rule names: its destination port
/// is one of the rule's destination ports where it names any, and its source port one of the rule's
/// source ports. So a flow to or from another port is still there in the next round.
pub proof fn a_round_keeps_the_other_ports(
    remaining: Seq<FlowRecord>,
    next: Seq<FlowRecord>,
    best: Candidate,
    rule: RuleText,
    prefix: Prefix,
    direction: Direction,
    category: ProtocolCategory,
    i: int,
)
    requires
        is_round(remaining, next, best, rule, prefix, direction, category),
        0 <= i < remaining.len(),
        in_category(
            category,
            remaining[i].protocol,
            remaining[i].tcp_flags,
            remaining[i].dst_port,
        ),
        !next.contains(remaining[i]),
    ensures
        rule.destination_ports.len() > 0 ==> rule.destination_ports.contains(remaining[i].dst_port),
        rule.source_ports.len() > 0 ==> rule.source_ports.contains(remaining[i].src_port),
{
    let flow = remaining[i];
    the_next_round_has_the_other_flows(remaining, best);
    if rule.destination_ports.len() > 0 {
        assert(rule.destination_ports[0] == flow.dst_port);
    }
    if rule.source_ports.len() > 0 {
        assert(rule.source_ports[0] == flow.src_port);
    }
}

proof fn lemma_category_is_no_more(flows: Seq<FlowRecord>, category: ProtocolCategory)
    ensures
        bytes_in(of_category(flows, category)) <= bytes_in(flows),
    decreases flows.len(),
{
    reveal(Seq::filter);
    if flows.len() > 0 {
        let shorter = of_category(flows.drop_last(), category);
        lemma_category_is_no_more(flows.drop_last(), category);
        assert(shorter.push(flows.last()).drop_last() =~= shorter);
    }
}

proof fn lemma_fixed(category: ProtocolCategory)
    ensures
        forced_fields(category) == fixed_fields(category),
{
    assert(8u8 | 2u8 == 10 && 8u8 | 0u8 == 8 && 0u8 | 2u8 == 2 && 0u8 | 0u8 == 0) by (bit_vector);
}

proof fn lemma_end(
    remaining: Seq<FlowRecord>,
    all: Seq<FlowRecord>,
    category: ProtocolCategory,
    current_rate: Double,
    threshold: Double,
)
    ensures
        is_the_end(remaining, all, category, current_rate, threshold) <==> remaining.len() == 0
            || is_calm(remaining, bytes_in(all), current_rate, threshold) || best_candidate(
            remaining,
            Double { bits: MIN_COVERAGE },
            forced_fields(category),
        ) is None,
{
    lemma_all_bytes(remaining);
    lemma_all_bytes(all);
    lemma_fixed(category);
    lemma_best_is_top(remaining, a_tenth(), fixed_fields(category));
}

proof fn lemma_says(
    candidate: Candidate,
    remaining: Seq<FlowRecord>,
    prefix: Prefix,
    direction: Direction,
    category: ProtocolCategory,
)
    requires
        bytes_in(remaining) <= u128::MAX,
        is_top(remaining, a_tenth(), fixed_fields(category), candidate),
    ensures
        says(
            rule_for(candidate, remaining, prefix, direction, category),
            candidate,
            remaining,
            prefix,
            direction,
            category,
        ),
{
    let rule = rule_for(candidate, remaining, prefix, direction, category);
    lemma_target(remaining, direction, prefix, four_fifths());
    let target = destination(remaining, direction, prefix, four_fifths());
    if is_dominated(remaining, direction, four_fifths()) {
        assert(is_dominant(remaining, direction, four_fifths(), target.addr));
    }
    assert(is_target_text(text_of_prefix(target), remaining, prefix, direction));
    if let Some(ip) = candidate.src_ip {
        assert(ip.host_prefix() == alone(ip));
    }
    let i = choose|i: int|
        0 <= i < remaining.len() && is_in_group(
            #[trigger] remaining[i],
            candidate,
        );
    assert(is_in_group(remaining[i], candidate));
}

proof fn lemma_rounds(
    remaining: Seq<FlowRecord>,
    all: Seq<FlowRecord>,
    prefix: Prefix,
    direction: Direction,
    category: ProtocolCategory,
    current_rate: Double,
    threshold: Double,
    rounds: nat,
)
    requires
        bytes_in(remaining) <= u128::MAX,
    ensures
        exists|rest: Seq<Seq<FlowRecord>>, best: Seq<Candidate>|
            rest.len() > 0 && rest[0] == remaining && #[trigger] are_rounds(
                rest,
                best,
                rules_for(
                    remaining,
                    bytes_in(all),
                    prefix,
                    direction,
                    category,
                    current_rate,
                    threshold,
                    rounds,
                ),
                all,
                prefix,
                direction,
                category,
                current_rate,
                threshold,
                rounds,
            ),
    decreases rounds,
{
    let total = bytes_in(all);
    let rules = rules_for(
        remaining,
        total,
        prefix,
        direction,
        category,
        current_rate,
        threshold,
        rounds,
    );
    lemma_end(remaining, all, category, current_rate, threshold);
    if rounds == 0 || is_the_end(remaining, all, category, current_rate, threshold) {
        let rest = seq![remaining];
        let best = Seq::<Candidate>::empty();
        assert(rules.len() == 0);
        assert(are_rounds(
            rest,
            best,
            rules,
            all,
            prefix,
            direction,
            category,
            current_rate,
            threshold,
            rounds,
        ));
    } else {
        let candidate = best_candidate(
            remaining,
            Double { bits: MIN_COVERAGE },
            forced_fields(category),
        )->Some_0;
        let next = uncovered(remaining, candidate);
        let rule = rule_for(candidate, remaining, prefix, direction, category);
        let fewer = (rounds - 1) as nat;
        lemma_one_round(remaining, all, prefix, direction, category, current_rate, threshold);
        lemma_rounds(
            next,
            all,
            prefix,
            direction,
            category,
            current_rate,
            threshold,
            fewer,
        );
        let more = rules_for(
            next,
            total,
            prefix,
            direction,
            category,
            current_rate,
            threshold,
            fewer,
        );
        let (later, others) = choose|rest: Seq<Seq<FlowRecord>>, best: Seq<Candidate>|
            rest.len() > 0 && rest[0] == next && #[trigger] are_rounds(
                rest,
                best,
                more,
                all,
                prefix,
                direction,
                category,
                current_rate,
                threshold,
                fewer,
            );
        assert(rules == seq![rule] + more);
        lemma_one_more_round(
            remaining,
            candidate,
            rule,
            later,
            others,
            more,
            all,
            prefix,
            direction,
            category,
            current_rate,
            threshold,
            fewer,
        );
        assert((seq![remaining] + later)[0] == remaining);
    }
}

proof fn lemma_one_round(
    remaining: Seq<FlowRecord>,
    all: Seq<FlowRecord>,
    prefix: Prefix,
    direction: Direction,
    category: ProtocolCategory,
    current_rate: Double,
    threshold: Double,
)
    requires
        bytes_in(remaining) <= u128::MAX,
        !is_the_end(remaining, all, category, current_rate, threshold),
    ensures
        best_candidate(
            remaining,
            Double { bits: MIN_COVERAGE },
            forced_fields(category),
        ) matches Some(candidate) && is_round(
            remaining,
            uncovered(remaining, candidate),
            candidate,
            rule_for(candidate, remaining, prefix, direction, category),
            prefix,
            direction,
            category,
        ) && bytes_in(uncovered(remaining, candidate)) <= u128::MAX,
{
    let min = Double { bits: MIN_COVERAGE };
    lemma_end(remaining, all, category, current_rate, threshold);
    let candidate = best_candidate(remaining, min, forced_fields(category))->Some_0;
    lemma_fixed(category);
    lemma_best_is_top(remaining, min, forced_fields(category));
    lemma_says(candidate, remaining, prefix, direction, category);
    best_candidate_covers(remaining, min, forced_fields(category));
    the_next_round_has_the_other_flows(remaining, candidate);
}

proof fn lemma_one_more_round(
    remaining: Seq<FlowRecord>,
    candidate: Candidate,
    rule: RuleText,
    later: Seq<Seq<FlowRecord>>,
    others: Seq<Candidate>,
    more: Seq<RuleText>,
    all: Seq<FlowRecord>,
    prefix: Prefix,
    direction: Direction,
    category: ProtocolCategory,
    current_rate: Double,
    threshold: Double,
    fewer: nat,
)
    requires
        !is_the_end(remaining, all, category, current_rate, threshold),
        later.len() > 0,
        is_round(remaining, later[0], candidate, rule, prefix, direction, category),
        are_rounds(
            later,
            others,
            more,
            all,
            prefix,
            direction,
            category,
            current_rate,
            threshold,
            fewer,
        ),
    ensures
        are_rounds(
            seq![remaining] + later,
            seq![candidate] + others,
            seq![rule] + more,
            all,
            prefix,
            direction,
            category,
            current_rate,
            threshold,
            fewer + 1,
        ),
{
    let rest = seq![remaining] + later;
    let best = seq![candidate] + others;
    let rules = seq![rule] + more;
    assert forall|k: int| 0 <= k < rules.len() implies {
        &&& goes_on(#[trigger] rest[k], all, category, current_rate, threshold)
        &&& is_round(rest[k], rest[k + 1], best[k], rules[k], prefix, direction, category)
    } by {
        if k == 0 {
            assert(rest[0] == remaining && rest[1] == later[0]);
            assert(best[0] == candidate && rules[0] == rule);
        } else {
            let m = k - 1;
            assert(rules[k] == more[m]);
            assert(rest[k] == later[m] && rest[k + 1] == later[m + 1] && best[k] == others[m]);
            assert(goes_on(later[m], all, category, current_rate, threshold));
        }
    }
    assert(rest.last() == later.last());
    assert(rules.len() == more.len() + 1 && best.len() == rules.len() && rest.len() == rules.len()
        + 1);
    if rules.len() < fewer + 1 {
        assert(more.len() < fewer);
        assert(is_the_end(later.last(), all, category, current_rate, threshold));
        assert(is_the_end(rest.last(), all, category, current_rate, threshold));
    }
}

} // verus!
