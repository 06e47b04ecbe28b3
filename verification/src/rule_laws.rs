//! What a suggested rule says of the flows for which it stands.

use crate::config::{in_category, Direction, ProtocolCategory};
use crate::double::Double;
use crate::flow::FlowRecord;
use crate::mitigation::{
    analyze_flows, best_candidate, bytes_in, flag_texts, forced_fields, forced_port,
    forced_protocol_names, forced_protocols, heaviest, host_of, hosts, is_best, is_calm, key_of,
    keys, name_if, number_of, of_category, protocol_name, protocol_text, rule_for, rule_texts,
    rules_for, suggested, tcp_flag_names, uncovered, Candidate, MitigationRule, RuleText, MAX_RULES,
    MIN_COVERAGE,
};
use crate::mitigation_laws::{
    a_heaviest_host_exists, left_over, lemma_group_is_covered, lemma_uncovered_from,
};
use crate::net::{text_of_prefix, IpAddr, Prefix};
use crate::text::{decimal_reads_back, texts, value_of};
use vstd::prelude::*;

verus! {

/// Whether a flow has each value that a candidate names, and of the TCP flags at least those.
pub open spec fn has_values(flow: FlowRecord, candidate: Candidate) -> bool {
    &&& candidate.src_ip is None || candidate.src_ip == Some(flow.src_ip)
    &&& candidate.dst_port is None || candidate.dst_port == Some(flow.dst_port)
    &&& candidate.src_port is None || candidate.src_port == Some(flow.src_port)
    &&& candidate.protocol is None || candidate.protocol == Some(flow.protocol)
    &&& candidate.tcp_flags is None || candidate.tcp_flags->Some_0 & !flow.tcp_flags == 0
}

/// A candidate matches a flow exactly where the flow has each value that the candidate names: the
/// source address, both ports, the protocol, and of the TCP flags at least those.
pub proof fn a_match_is_by_all_values(candidate: Candidate, flow: FlowRecord, matched: bool)
    requires
        call_ensures(Candidate::matches, (&candidate, &flow), matched),
    ensures
        matched <==> has_values(flow, candidate),
{
    lemma_covers_is_by_values(candidate, flow);
}

proof fn lemma_covers_is_by_values(candidate: Candidate, flow: FlowRecord)
    ensures
        candidate.covers(flow) <==> has_values(flow, candidate),
{
    if let Some(flags) = candidate.tcp_flags {
        let set_flags = flow.tcp_flags;
        assert((set_flags & flags == flags) == (flags & !set_flags == 0)) by (bit_vector);
    }
}

/// The flows of the next round are those that lack a value which the candidate names, in their
/// order. So a flow to another port than the one that the candidate names is still there.
pub proof fn the_next_round_has_the_other_flows(flows: Seq<FlowRecord>, candidate: Candidate)
    ensures
        uncovered(flows, candidate) == flows.filter(
            |flow: FlowRecord| !has_values(flow, candidate),
        ),
        forall|i: int|
            0 <= i < flows.len() && candidate.dst_port is Some && candidate.dst_port != Some(
                (#[trigger] flows[i]).dst_port,
            ) ==> uncovered(flows, candidate).contains(flows[i]),
        forall|i: int|
            0 <= i < flows.len() && candidate.src_port is Some && candidate.src_port != Some(
                (#[trigger] flows[i]).src_port,
            ) ==> uncovered(flows, candidate).contains(flows[i]),
{
    lemma_filter_by_values(flows, candidate);
    assert forall|i: int| 0 <= i < flows.len() && !has_values(
        #[trigger] flows[i],
        candidate,
    ) implies uncovered(flows, candidate).contains(flows[i]) by {
        lemma_covers_is_by_values(candidate, flows[i]);
        lemma_uncovered_stays(flows, candidate, i);
    }
}

proof fn lemma_filter_by_values(flows: Seq<FlowRecord>, candidate: Candidate)
    ensures
        uncovered(flows, candidate) == flows.filter(
            |flow: FlowRecord| !has_values(flow, candidate),
        ),
    decreases flows.len(),
{
    reveal(Seq::filter);
    if flows.len() > 0 {
        lemma_filter_by_values(flows.drop_last(), candidate);
        lemma_covers_is_by_values(candidate, flows.last());
    }
}

proof fn lemma_uncovered_stays(flows: Seq<FlowRecord>, candidate: Candidate, i: int)
    requires
        0 <= i < flows.len(),
        !candidate.covers(flows[i]),
    ensures
        uncovered(flows, candidate).contains(flows[i]),
    decreases flows.len(),
{
    reveal(Seq::filter);
    let shorter = flows.drop_last();
    let earlier = uncovered(shorter, candidate);
    let kept = uncovered(flows, candidate);
    if i < shorter.len() {
        lemma_uncovered_stays(shorter, candidate, i);
        let k = choose|k: int| 0 <= k < earlier.len() && earlier[k] == flows[i];
        assert(kept[k] == flows[i]);
    } else {
        assert(kept[earlier.len() as int] == flows[i]);
    }
}

/// The names of the TCP flags are listed exactly where the flags are set, each once.
pub proof fn flag_names_are_those_that_are_set(flags: u8)
    ensures
        flag_texts(flags).contains("fin"@) <==> flags & 0x01 != 0,
        flag_texts(flags).contains("syn"@) <==> flags & 0x02 != 0,
        flag_texts(flags).contains("rst"@) <==> flags & 0x04 != 0,
        flag_texts(flags).contains("psh"@) <==> flags & 0x08 != 0,
        flag_texts(flags).contains("ack"@) <==> flags & 0x10 != 0,
        flag_texts(flags).contains("urg"@) <==> flags & 0x20 != 0,
        flag_texts(flags).no_duplicates(),
        forall|i: int|
            0 <= i < flag_texts(flags).len() ==> is_flag_name(#[trigger] flag_texts(flags)[i]),
{
    reveal_strlit("fin");
    reveal_strlit("syn");
    reveal_strlit("rst");
    reveal_strlit("psh");
    reveal_strlit("ack");
    reveal_strlit("urg");
    assert("fin"@[0] == 'f' && "syn"@[0] == 's' && "rst"@[0] == 'r' && "psh"@[0] == 'p' && "ack"@[0]
        == 'a' && "urg"@[0] == 'u');
    let fin = name_if(flags, 0x01, "fin"@);
    let syn = name_if(flags, 0x02, "syn"@);
    let rst = name_if(flags, 0x04, "rst"@);
    let psh = name_if(flags, 0x08, "psh"@);
    let ack = name_if(flags, 0x10, "ack"@);
    let urg = name_if(flags, 0x20, "urg"@);
    let all = flag_texts(flags);
    let a = fin.len() as int;
    let b = a + syn.len();
    let c = b + rst.len();
    let d = c + psh.len();
    let e = d + ack.len();
    assert(all.len() == e + urg.len());
    assert(flags & 0x01 != 0 ==> all[0] == "fin"@);
    assert(flags & 0x02 != 0 ==> all[a] == "syn"@);
    assert(flags & 0x04 != 0 ==> all[b] == "rst"@);
    assert(flags & 0x08 != 0 ==> all[c] == "psh"@);
    assert(flags & 0x10 != 0 ==> all[d] == "ack"@);
    assert(flags & 0x20 != 0 ==> all[e] == "urg"@);
    assert forall|i: int| 0 <= i < all.len() implies {
        ||| i == 0 && flags & 0x01 != 0 && #[trigger] all[i] == "fin"@
        ||| i == a && flags & 0x02 != 0 && all[i] == "syn"@
        ||| i == b && flags & 0x04 != 0 && all[i] == "rst"@
        ||| i == c && flags & 0x08 != 0 && all[i] == "psh"@
        ||| i == d && flags & 0x10 != 0 && all[i] == "ack"@
        ||| i == e && flags & 0x20 != 0 && all[i] == "urg"@
    } by {}
}

/// Whether a text is the name of one of the six TCP flags.
pub open spec fn is_flag_name(name: Seq<char>) -> bool {
    name == "fin"@ || name == "syn"@ || name == "rst"@ || name == "psh"@ || name == "ack"@ || name
        == "urg"@
}

/// A protocol is told by its usual name, or by its number.
pub proof fn protocols_are_told_by_name(protocol: u8, name: String)
    requires
        call_ensures(protocol_name, (protocol,), name),
    ensures
        match protocol {
            1 => name@ == "icmp"@,
            6 => name@ == "tcp"@,
            17 => name@ == "udp"@,
            47 => name@ == "gre"@,
            50 => name@ == "esp"@,
            58 => name@ == "icmp6"@,
            _ => value_of(name@) == protocol,
        },
{
    decimal_reads_back(protocol as nat);
}

/// The names of the protocols that a rule for a category names of itself, and the port: those of
/// all flows of the category. Of the two ICMP versions the older one is named.
pub proof fn a_category_stands_for_its_protocols(
    category: ProtocolCategory,
    protocol: u8,
    tcp_flags: u8,
    dst_port: u16,
)
    requires
        in_category(category, protocol, tcp_flags, dst_port),
    ensures
        category == ProtocolCategory::Any <==> forced_protocols(category).len() == 0,
        category == ProtocolCategory::Icmp ==> forced_protocols(category) == seq!["icmp"@],
        category != ProtocolCategory::Any && category != ProtocolCategory::Icmp
            ==> forced_protocols(category).contains(protocol_text(protocol)),
        forced_port(category) is Some <==> category == ProtocolCategory::Dns || category
            == ProtocolCategory::Https,
        forced_port(category) matches Some(port) ==> port == dst_port,
        number_of(category) != 0 <==> category != ProtocolCategory::Any && category
            != ProtocolCategory::Dns,
        number_of(category) != 0 && category != ProtocolCategory::Icmp ==> number_of(category)
            == protocol,
{
    let names = forced_protocols(category);
    if category == ProtocolCategory::Dns {
        assert(names[0] == "tcp"@ && names[1] == "udp"@);
    } else if category != ProtocolCategory::Any {
        assert(names[0] == protocol_text(number_of(category)));
    }
}

/// The prefix of an address alone.
pub open spec fn alone(ip: IpAddr) -> Prefix {
    Prefix {
        addr: ip,
        len: match ip {
            IpAddr::V4(_) => 32,
            IpAddr::V6(_) => 128,
        },
    }
}

/// Whether a flow agrees with all that a rule names: its ports, its protocol, its TCP flags and,
/// where the rule names one of its own beside the watched prefix, its source. The rules for ICMP
/// name its older version alone.
pub open spec fn agrees(
    flow: FlowRecord,
    rule: RuleText,
    prefix: Prefix,
    direction: Direction,
    category: ProtocolCategory,
) -> bool {
    &&& rule.destination_ports.len() > 0 ==> rule.destination_ports.contains(flow.dst_port)
    &&& rule.source_ports.len() > 0 ==> rule.source_ports.contains(flow.src_port)
    &&& rule.protocols.len() > 0 && category != ProtocolCategory::Icmp ==> rule.protocols.contains(
        protocol_text(flow.protocol),
    )
    &&& rule.tcp_flags.contains("fin"@) ==> flow.tcp_flags & 0x01 != 0
    &&& rule.tcp_flags.contains("syn"@) ==> flow.tcp_flags & 0x02 != 0
    &&& rule.tcp_flags.contains("rst"@) ==> flow.tcp_flags & 0x04 != 0
    &&& rule.tcp_flags.contains("psh"@) ==> flow.tcp_flags & 0x08 != 0
    &&& rule.tcp_flags.contains("ack"@) ==> flow.tcp_flags & 0x10 != 0
    &&& rule.tcp_flags.contains("urg"@) ==> flow.tcp_flags & 0x20 != 0
    &&& match direction {
        Direction::Inbound => rule.source_prefix matches Some(text) ==> text == text_of_prefix(
            alone(flow.src_ip),
        ),
        Direction::Outbound => rule.destination_prefix == text_of_prefix(prefix)
            || rule.destination_prefix == text_of_prefix(alone(flow.src_ip)),
    }
}

/// Whether a rule names at most one port of each kind, none of them 0, and aims at the watched
/// prefix or at the host of one of the flows in it.
pub open spec fn aims_at(
    rule: RuleText,
    flows: Seq<FlowRecord>,
    prefix: Prefix,
    direction: Direction,
) -> bool {
    &&& rule.destination_ports.len() <= 1
    &&& rule.source_ports.len() <= 1
    &&& !rule.destination_ports.contains(0)
    &&& !rule.source_ports.contains(0)
    &&& match direction {
        Direction::Inbound => rule.destination_prefix == text_of_prefix(prefix) || exists|j: int|
            0 <= j < flows.len() && rule.destination_prefix == text_of_prefix(
                alone((#[trigger] flows[j]).dst_ip),
            ),
        Direction::Outbound => rule.source_prefix == Some(text_of_prefix(prefix)) || exists|j: int|
            0 <= j < flows.len() && rule.source_prefix == Some(
                text_of_prefix(alone((#[trigger] flows[j]).src_ip)),
            ),
    }
}

/// A flow of the alert's category that is set aside agrees with the ports, and all else, that one
/// of the suggested rules names. So a flow to another port than those of all rules is left over.
pub proof fn what_is_set_aside_agrees_with_a_rule(
    flows: &[FlowRecord],
    prefix: Prefix,
    direction: Direction,
    category: ProtocolCategory,
    current_rate: Double,
    threshold: Double,
    rules: Vec<MitigationRule>,
    i: int,
)
    requires
        call_ensures(
            analyze_flows,
            (flows, prefix, direction, category, current_rate, threshold),
            rules,
        ),
        0 <= i < flows@.len(),
        in_category(category, flows@[i].protocol, flows@[i].tcp_flags, flows@[i].dst_port),
    ensures
        ({
            let chosen = of_category(flows@, category);
            let rest = left_over(
                chosen,
                bytes_in(chosen),
                category,
                current_rate,
                threshold,
                MAX_RULES as nat,
            );
            rest.contains(flows@[i]) || exists|k: int|
                0 <= k < rules@.len() && agrees(
                    flows@[i],
                    (#[trigger] rules@[k])@,
                    prefix,
                    direction,
                    category,
                )
        }),
{
    let chosen = of_category(flows@, category);
    let total = bytes_in(chosen);
    let texts = suggested(flows@, prefix, direction, category, current_rate, threshold);
    lemma_chosen(flows@, category, i);
    lemma_all_of_category(flows@, category);
    lemma_set_aside_agrees(
        chosen,
        total,
        prefix,
        direction,
        category,
        current_rate,
        threshold,
        MAX_RULES as nat,
        flows@[i],
    );
    let rest = left_over(chosen, total, category, current_rate, threshold, MAX_RULES as nat);
    if !rest.contains(flows@[i]) {
        let k = choose|k: int|
            0 <= k < texts.len() && agrees(
                flows@[i],
                #[trigger] texts[k],
                prefix,
                direction,
                category,
            );
        assert(rule_texts(rules@)[k] == rules@[k]@);
        assert(agrees(flows@[i], rules@[k]@, prefix, direction, category));
    }
}

/// Each suggested rule stands for a captured flow of the alert's category, which agrees with all
/// that the rule names, and aims at the watched prefix or a host of such flows.
pub proof fn each_rule_stands_for_a_flow(
    flows: &[FlowRecord],
    prefix: Prefix,
    direction: Direction,
    category: ProtocolCategory,
    current_rate: Double,
    threshold: Double,
    rules: Vec<MitigationRule>,
    k: int,
)
    requires
        call_ensures(
            analyze_flows,
            (flows, prefix, direction, category, current_rate, threshold),
            rules,
        ),
        0 <= k < rules@.len(),
    ensures
        exists|i: int|
            {
                &&& 0 <= i < flows@.len()
                &&& in_category(
                    category,
                    (#[trigger] flows@[i]).protocol,
                    flows@[i].tcp_flags,
                    flows@[i].dst_port,
                )
                &&& agrees(flows@[i], rules@[k]@, prefix, direction, category)
            },
        aims_at(rules@[k]@, flows@, prefix, direction),
{
    let chosen = of_category(flows@, category);
    let texts = suggested(flows@, prefix, direction, category, current_rate, threshold);
    assert(rule_texts(rules@)[k] == rules@[k]@);
    lemma_all_of_category(flows@, category);
    lemma_rule_stands(
        chosen,
        bytes_in(chosen),
        prefix,
        direction,
        category,
        current_rate,
        threshold,
        MAX_RULES as nat,
        k,
    );
    let rule = texts[k];
    let j = choose|j: int|
        0 <= j < chosen.len() && agrees(#[trigger] chosen[j], rule, prefix, direction, category);
    assert(chosen.contains(chosen[j]));
    let i = choose|i: int| 0 <= i < flows@.len() && flows@[i] == chosen[j];
    assert(agrees(flows@[i], rule, prefix, direction, category));
    assert(fits(category, chosen[j]));
    match direction {
        Direction::Inbound => if rule.destination_prefix != text_of_prefix(prefix) {
            let m = choose|m: int|
                0 <= m < chosen.len() && rule.destination_prefix == text_of_prefix(
                    alone((#[trigger] chosen[m]).dst_ip),
                );
            assert(chosen.contains(chosen[m]));
            let n = choose|n: int| 0 <= n < flows@.len() && flows@[n] == chosen[m];
            assert(rule.destination_prefix == text_of_prefix(alone(flows@[n].dst_ip)));
        },
        Direction::Outbound => if rule.source_prefix != Some(text_of_prefix(prefix)) {
            let m = choose|m: int|
                0 <= m < chosen.len() && rule.source_prefix == Some(
                    text_of_prefix(alone((#[trigger] chosen[m]).src_ip)),
                );
            assert(chosen.contains(chosen[m]));
            let n = choose|n: int| 0 <= n < flows@.len() && flows@[n] == chosen[m];
            assert(rule.source_prefix == Some(text_of_prefix(alone(flows@[n].src_ip))));
        },
    }
}

spec fn fits(category: ProtocolCategory, flow: FlowRecord) -> bool {
    in_category(category, flow.protocol, flow.tcp_flags, flow.dst_port)
}

proof fn lemma_chosen(flows: Seq<FlowRecord>, category: ProtocolCategory, i: int)
    requires
        0 <= i < flows.len(),
        fits(category, flows[i]),
    ensures
        of_category(flows, category).contains(flows[i]),
    decreases flows.len(),
{
    reveal(Seq::filter);
    let shorter = flows.drop_last();
    let earlier = of_category(shorter, category);
    let chosen = of_category(flows, category);
    if i < shorter.len() {
        lemma_chosen(shorter, category, i);
        let k = choose|k: int| 0 <= k < earlier.len() && earlier[k] == flows[i];
        assert(chosen[k] == flows[i]);
    } else {
        assert(chosen[earlier.len() as int] == flows[i]);
    }
}

proof fn lemma_all_of_category(flows: Seq<FlowRecord>, category: ProtocolCategory)
    ensures
        forall|j: int|
            0 <= j < of_category(flows, category).len() ==> fits(
                category,
                #[trigger] of_category(flows, category)[j],
            ) && flows.contains(of_category(flows, category)[j]),
    decreases flows.len(),
{
    reveal(Seq::filter);
    if flows.len() > 0 {
        let shorter = flows.drop_last();
        let earlier = of_category(shorter, category);
        let chosen = of_category(flows, category);
        lemma_all_of_category(shorter, category);
        assert forall|j: int| 0 <= j < chosen.len() implies fits(category, #[trigger] chosen[j])
            && flows.contains(chosen[j]) by {
            if j < earlier.len() {
                assert(chosen[j] == earlier[j]);
                let k = choose|k: int| 0 <= k < shorter.len() && shorter[k] == earlier[j];
                assert(flows[k] == chosen[j]);
            } else {
                assert(flows[flows.len() - 1] == chosen[j]);
            }
        }
    }
}

proof fn lemma_bits_stay(flags: u8, set_flags: u8, mask: u8)
    requires
        flags & !set_flags == 0,
        flags & mask != 0,
    ensures
        set_flags & mask != 0,
{
    assert(set_flags & mask != 0) by (bit_vector)
        requires
            flags & !set_flags == 0,
            flags & mask != 0,
    ;
}

/// A flow that the best candidate covers agrees with its rule.
proof fn lemma_covered_agrees(
    candidate: Candidate,
    remaining: Seq<FlowRecord>,
    prefix: Prefix,
    direction: Direction,
    category: ProtocolCategory,
    flow: FlowRecord,
)
    requires
        forall|j: int| 0 <= j < remaining.len() ==> fits(category, #[trigger] remaining[j]),
        candidate.fields.is_choice(forced_fields(category)),
        keys(remaining, candidate.fields).contains(Some(candidate.key())),
        fits(category, flow),
        candidate.covers(flow),
    ensures
        agrees(
            flow,
            rule_for(candidate, remaining, prefix, direction, category),
            prefix,
            direction,
            category,
        ),
{
    let rule = rule_for(candidate, remaining, prefix, direction, category);
    let labels = keys(remaining, candidate.fields);
    let j = choose|j: int| 0 <= j < labels.len() && labels[j] == Some(candidate.key());
    let one = remaining[j];
    assert(fits(category, one));
    assert(key_of(one, candidate.fields) == Some(candidate.key()));
    lemma_covers_is_by_values(candidate, flow);
    a_category_stands_for_its_protocols(category, flow.protocol, flow.tcp_flags, flow.dst_port);
    if let Some(port) = candidate.dst_port {
        assert(rule.destination_ports[0] == port);
    } else if let Some(port) = forced_port(category) {
        assert(rule.destination_ports[0] == port);
    }
    if let Some(port) = candidate.src_port {
        assert(rule.source_ports[0] == port);
    }
    if let Some(protocol) = candidate.protocol {
        assert(rule.protocols[0] == protocol_text(protocol));
    }
    if let Some(flags) = candidate.tcp_flags {
        flag_names_are_those_that_are_set(flags);
        let set_flags = flow.tcp_flags;
        if flags & 0x01 != 0 {
            lemma_bits_stay(flags, set_flags, 0x01);
        }
        if flags & 0x02 != 0 {
            lemma_bits_stay(flags, set_flags, 0x02);
        }
        if flags & 0x04 != 0 {
            lemma_bits_stay(flags, set_flags, 0x04);
        }
        if flags & 0x08 != 0 {
            lemma_bits_stay(flags, set_flags, 0x08);
        }
        if flags & 0x10 != 0 {
            lemma_bits_stay(flags, set_flags, 0x10);
        }
        if flags & 0x20 != 0 {
            lemma_bits_stay(flags, set_flags, 0x20);
        }
    }
    flag_names_are_those_that_are_set(0x02);
    lemma_one_name();
}

proof fn lemma_one_name()
    ensures
        seq!["syn"@].contains("syn"@),
        !seq!["syn"@].contains("fin"@),
        !seq!["syn"@].contains("rst"@),
        !seq!["syn"@].contains("psh"@),
        !seq!["syn"@].contains("ack"@),
        !seq!["syn"@].contains("urg"@),
{
    reveal_strlit("fin");
    reveal_strlit("syn");
    reveal_strlit("rst");
    reveal_strlit("psh");
    reveal_strlit("ack");
    reveal_strlit("urg");
    assert(seq!["syn"@][0] == "syn"@);
    assert("fin"@[0] == 'f' && "syn"@[0] == 's' && "rst"@[0] == 'r' && "psh"@[0] == 'p' && "ack"@[0]
        == 'a' && "urg"@[0] == 'u');
}

proof fn lemma_set_aside_agrees(
    remaining: Seq<FlowRecord>,
    total: nat,
    prefix: Prefix,
    direction: Direction,
    category: ProtocolCategory,
    current_rate: Double,
    threshold: Double,
    rounds: nat,
    flow: FlowRecord,
)
    requires
        forall|j: int| 0 <= j < remaining.len() ==> fits(category, #[trigger] remaining[j]),
        remaining.contains(flow),
    ensures
        left_over(remaining, total, category, current_rate, threshold, rounds).contains(flow)
            || exists|k: int|
            0 <= k < rules_for(
                remaining,
                total,
                prefix,
                direction,
                category,
                current_rate,
                threshold,
                rounds,
            ).len() && agrees(
                flow,
                #[trigger] rules_for(
                    remaining,
                    total,
                    prefix,
                    direction,
                    category,
                    current_rate,
                    threshold,
                    rounds,
                )[k],
                prefix,
                direction,
                category,
            ),
    decreases rounds,
{
    let exclude = forced_fields(category);
    let min = Double { bits: MIN_COVERAGE };
    let rules = rules_for(
        remaining,
        total,
        prefix,
        direction,
        category,
        current_rate,
        threshold,
        rounds,
    );
    if rounds > 0 && remaining.len() > 0 && !is_calm(remaining, total, current_rate, threshold) {
        if let Some(candidate) = best_candidate(remaining, min, exclude) {
            assert(is_best(remaining, min, exclude, candidate));
            let i = choose|i: int| 0 <= i < remaining.len() && remaining[i] == flow;
            assert(fits(category, remaining[i]));
            if candidate.covers(flow) {
                lemma_covered_agrees(candidate, remaining, prefix, direction, category, flow);
                assert(rules[0] == rule_for(candidate, remaining, prefix, direction, category));
            } else {
                let rest = uncovered(remaining, candidate);
                lemma_uncovered_stays(remaining, candidate, i);
                assert forall|j: int| 0 <= j < rest.len() implies fits(
                    category,
                    #[trigger] rest[j],
                ) by {
                    lemma_uncovered_from(remaining, candidate, j);
                    let k = choose|k: int| 0 <= k < remaining.len() && remaining[k] == rest[j];
                    assert(fits(category, remaining[k]));
                }
                let fewer = (rounds - 1) as nat;
                lemma_set_aside_agrees(
                    rest,
                    total,
                    prefix,
                    direction,
                    category,
                    current_rate,
                    threshold,
                    fewer,
                    flow,
                );
                let more = rules_for(
                    rest,
                    total,
                    prefix,
                    direction,
                    category,
                    current_rate,
                    threshold,
                    fewer,
                );
                if !left_over(rest, total, category, current_rate, threshold, fewer).contains(
                    flow,
                ) {
                    let k = choose|k: int|
                        0 <= k < more.len() && agrees(
                            flow,
                            #[trigger] more[k],
                            prefix,
                            direction,
                            category,
                        );
                    assert(rules[k + 1] == more[k]);
                }
            }
        }
    }
}

proof fn lemma_rule_stands(
    remaining: Seq<FlowRecord>,
    total: nat,
    prefix: Prefix,
    direction: Direction,
    category: ProtocolCategory,
    current_rate: Double,
    threshold: Double,
    rounds: nat,
    k: int,
)
    requires
        forall|j: int| 0 <= j < remaining.len() ==> fits(category, #[trigger] remaining[j]),
        0 <= k < rules_for(
            remaining,
            total,
            prefix,
            direction,
            category,
            current_rate,
            threshold,
            rounds,
        ).len(),
    ensures
        ({
            let rule = rules_for(
                remaining,
                total,
                prefix,
                direction,
                category,
                current_rate,
                threshold,
                rounds,
            )[k];
            &&& exists|j: int|
                0 <= j < remaining.len() && agrees(
                    #[trigger] remaining[j],
                    rule,
                    prefix,
                    direction,
                    category,
                )
            &&& aims_at(rule, remaining, prefix, direction)
        }),
    decreases rounds,
{
    let exclude = forced_fields(category);
    let min = Double { bits: MIN_COVERAGE };
    let candidate = best_candidate(remaining, min, exclude)->Some_0;
    assert(is_best(remaining, min, exclude, candidate));
    let rule = rules_for(
        remaining,
        total,
        prefix,
        direction,
        category,
        current_rate,
        threshold,
        rounds,
    )[k];
    if k == 0 {
        let labels = keys(remaining, candidate.fields);
        let j = choose|j: int| 0 <= j < labels.len() && labels[j] == Some(candidate.key());
        assert(key_of(remaining[j], candidate.fields) == Some(candidate.key()));
        lemma_group_is_covered(remaining[j], candidate);
        assert(fits(category, remaining[j]));
        lemma_covered_agrees(candidate, remaining, prefix, direction, category, remaining[j]);
        a_heaviest_host_exists(remaining, direction);
        let labelled = hosts(remaining, direction);
        let ip = heaviest(remaining, direction);
        let h = choose|h: int| 0 <= h < labelled.len() && labelled[h] == Some(ip);
        assert(host_of(remaining[h], direction) == ip);
        assert(ip.host_prefix() == alone(ip));
    } else {
        let rest = uncovered(remaining, candidate);
        assert forall|j: int| 0 <= j < rest.len() implies fits(category, #[trigger] rest[j])
            && remaining.contains(rest[j]) by {
            lemma_uncovered_from(remaining, candidate, j);
            let n = choose|n: int| 0 <= n < remaining.len() && remaining[n] == rest[j];
            assert(fits(category, remaining[n]));
        }
        lemma_rule_stands(
            rest,
            total,
            prefix,
            direction,
            category,
            current_rate,
            threshold,
            (rounds - 1) as nat,
            k - 1,
        );
        let j = choose|j: int|
            0 <= j < rest.len() && agrees(#[trigger] rest[j], rule, prefix, direction, category);
        let n = choose|n: int| 0 <= n < remaining.len() && remaining[n] == rest[j];
        assert(agrees(remaining[n], rule, prefix, direction, category));
        match direction {
            Direction::Inbound => if rule.destination_prefix != text_of_prefix(prefix) {
                let m = choose|m: int|
                    0 <= m < rest.len() && rule.destination_prefix == text_of_prefix(
                        alone((#[trigger] rest[m]).dst_ip),
                    );
                assert(remaining.contains(rest[m]));
                let h = choose|h: int| 0 <= h < remaining.len() && remaining[h] == rest[m];
                assert(rule.destination_prefix == text_of_prefix(alone(remaining[h].dst_ip)));
            },
            Direction::Outbound => if rule.source_prefix != Some(text_of_prefix(prefix)) {
                let m = choose|m: int|
                    0 <= m < rest.len() && rule.source_prefix == Some(
                        text_of_prefix(alone((#[trigger] rest[m]).src_ip)),
                    );
                assert(remaining.contains(rest[m]));
                let h = choose|h: int| 0 <= h < remaining.len() && remaining[h] == rest[m];
                assert(rule.source_prefix == Some(text_of_prefix(alone(remaining[h].src_ip))));
            },
        }
    }
}

/// What a rule says is what stands in its fields.
pub proof fn a_rule_says_what_its_fields_hold(rule: MitigationRule)
    ensures
        match rule.source_prefix {
            Some(text) => rule@.source_prefix == Some(text@),
            None => rule@.source_prefix is None,
        },
        rule@.destination_prefix == rule.destination_prefix@,
        rule@.destination_ports == rule.destination_ports@,
        rule@.source_ports == rule.source_ports@,
        rule@.protocols.len() == rule.protocols@.len(),
        forall|i: int|
            0 <= i < rule.protocols@.len() ==> #[trigger] rule@.protocols[i] == rule.protocols@[i]@,
        rule@.tcp_flags.len() == rule.tcp_flags@.len(),
        forall|i: int|
            0 <= i < rule.tcp_flags@.len() ==> #[trigger] rule@.tcp_flags[i] == rule.tcp_flags@[i]@,
{
}

/// The listed names of flags and protocols are those that a rule has of them.
pub proof fn names_are_listed_in_order(
    flags: u8,
    flag_names: Vec<String>,
    category: ProtocolCategory,
    protocol_names: Vec<String>,
)
    requires
        call_ensures(tcp_flag_names, (flags,), flag_names),
        call_ensures(forced_protocol_names, (category,), protocol_names),
    ensures
        flag_names@.len() == flag_texts(flags).len(),
        forall|i: int|
            0 <= i < flag_names@.len() ==> (#[trigger] flag_names@[i])@ == flag_texts(flags)[i],
        protocol_names@.len() == forced_protocols(category).len(),
        forall|i: int|
            0 <= i < protocol_names@.len() ==> (#[trigger] protocol_names@[i])@
                == forced_protocols(category)[i],
{
    assert(texts(flag_names@) == flag_texts(flags));
    assert(texts(protocol_names@) == forced_protocols(category));
    assert forall|i: int| 0 <= i < flag_names@.len() implies (#[trigger] flag_names@[i])@
        == flag_texts(flags)[i] by {
        assert(texts(flag_names@)[i] == flag_names@[i]@);
    }
    assert forall|i: int| 0 <= i < protocol_names@.len() implies (#[trigger] protocol_names@[i])@
        == forced_protocols(category)[i] by {
        assert(texts(protocol_names@)[i] == protocol_names@[i]@);
    }
}

/// Flows can be analyzed where each of those of the category stands for fewer than two to the power
/// of 64 bytes.
pub proof fn flows_can_be_analyzed(
    flows: &[FlowRecord],
    prefix: Prefix,
    direction: Direction,
    category: ProtocolCategory,
    current_rate: Double,
    threshold: Double,
)
    requires
        prefix.valid(),
        forall|i: int|
            0 <= i < flows@.len() && in_category(
                category,
                (#[trigger] flows@[i]).protocol,
                flows@[i].tcp_flags,
                flows@[i].dst_port,
            ) ==> flows@[i].bytes * flows@[i].sampling_rate <= u64::MAX,
    ensures
        call_requires(
            analyze_flows,
            (flows, prefix, direction, category, current_rate, threshold),
        ),
{
    let chosen = of_category(flows@, category);
    lemma_all_of_category(flows@, category);
    assert forall|j: int| 0 <= j < chosen.len() implies (#[trigger] chosen[j]).byte_count()
        <= u64::MAX by {
        assert(fits(category, chosen[j]));
        let i = choose|i: int| 0 <= i < flows@.len() && flows@[i] == chosen[j];
        assert(flows@[i].bytes * flows@[i].sampling_rate <= u64::MAX);
    }
}

} // verus!
