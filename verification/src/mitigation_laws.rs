//! What holds of all suggested rules.

use crate::config::{in_category, Direction, ProtocolCategory};
use crate::double::{larger_part_larger_ratio, ratio_of, Double};
use crate::flow::FlowRecord;
use crate::mitigation::{
    best_candidate, bytes_in, coverage, destination, earlier, flag_texts, forced_fields,
    forced_port, forced_protocols, group_bytes, heavier, heaviest, host_bytes, host_of, hosts,
    is_best, is_calm, is_heaviest, is_option, key_of, keys, labelled_bytes, name_if, number_of,
    of_category, preferred, protocol_text, rule_for, rules_for, score, seen_first, suggested,
    uncovered, Candidate, FieldSet, GroupKey, RuleText, DST_PORT, MAX_RULES, MIN_COVERAGE, PROTOCOL,
};
use crate::net::{IpAddr, Prefix};
use vstd::prelude::*;

verus! {

/// At most ten rules are suggested.
pub proof fn few_rules(
    flows: Seq<FlowRecord>,
    prefix: Prefix,
    direction: Direction,
    category: ProtocolCategory,
    current_rate: Double,
    threshold: Double,
)
    ensures
        suggested(flows, prefix, direction, category, current_rate, threshold).len() <= MAX_RULES,
{
    let chosen = of_category(flows, category);
    lemma_few_rules(
        chosen,
        bytes_in(chosen),
        prefix,
        direction,
        category,
        current_rate,
        threshold,
        MAX_RULES as nat,
    );
}

proof fn lemma_few_rules(
    remaining: Seq<FlowRecord>,
    total: nat,
    prefix: Prefix,
    direction: Direction,
    category: ProtocolCategory,
    current_rate: Double,
    threshold: Double,
    rounds: nat,
)
    ensures
        rules_for(
            remaining,
            total,
            prefix,
            direction,
            category,
            current_rate,
            threshold,
            rounds,
        ).len() <= rounds,
    decreases rounds,
{
    if rounds > 0 {
        if let Some(candidate) = best_candidate(
            remaining,
            Double { bits: MIN_COVERAGE },
            forced_fields(category),
        ) {
            lemma_few_rules(
                uncovered(remaining, candidate),
                total,
                prefix,
                direction,
                category,
                current_rate,
                threshold,
                (rounds - 1) as nat,
            );
        }
    }
}

/// The best candidate covers at least the share of the bytes that is asked for, and some flow.
/// Setting aside the flows that it covers takes away at least the bytes of its group.
pub proof fn best_candidate_covers(
    flows: Seq<FlowRecord>,
    min_coverage_ratio: Double,
    exclude_fields: u8,
)
    ensures
        best_candidate(flows, min_coverage_ratio, exclude_fields) matches Some(candidate) ==> {
            &&& !coverage(flows, candidate).less(min_coverage_ratio)
            &&& exists|i: int| 0 <= i < flows.len() && candidate.covers(#[trigger] flows[i])
            &&& uncovered(flows, candidate).len() < flows.len()
            &&& bytes_in(uncovered(flows, candidate)) + group_bytes(flows, candidate) <= bytes_in(
                flows,
            )
        },
{
    if let Some(candidate) = best_candidate(flows, min_coverage_ratio, exclude_fields) {
        assert(is_best(flows, min_coverage_ratio, exclude_fields, candidate));
        let labels = keys(flows, candidate.fields);
        let i = choose|i: int| 0 <= i < labels.len() && labels[i] == Some(candidate.key());
        assert(key_of(flows[i], candidate.fields) == Some(candidate.key()));
        lemma_group_is_covered(flows[i], candidate);
        assert(candidate.covers(flows[i]));
        lemma_uncovered_is_less(flows, candidate, i);
        assert(flows.take(flows.len() as int) =~= flows);
        lemma_uncovered_bytes(labels, flows, flows, candidate);
    }
}

pub(crate) proof fn lemma_group_is_covered(flow: FlowRecord, candidate: Candidate)
    requires
        key_of(flow, candidate.fields) == Some(candidate.key()),
    ensures
        candidate.covers(flow),
{
    let flags = flow.tcp_flags;
    assert(flags & flags == flags) by (bit_vector);
}

proof fn lemma_uncovered_is_less(flows: Seq<FlowRecord>, candidate: Candidate, i: int)
    requires
        0 <= i < flows.len(),
        candidate.covers(flows[i]),
    ensures
        uncovered(flows, candidate).len() < flows.len(),
    decreases flows.len(),
{
    reveal(Seq::filter);
    let earlier = flows.drop_last();
    if i < earlier.len() {
        lemma_uncovered_is_less(earlier, candidate, i);
    } else {
        lemma_uncovered_is_no_more(earlier, candidate);
    }
}

proof fn lemma_uncovered_is_no_more(flows: Seq<FlowRecord>, candidate: Candidate)
    ensures
        uncovered(flows, candidate).len() <= flows.len(),
    decreases flows.len(),
{
    reveal(Seq::filter);
    if flows.len() > 0 {
        lemma_uncovered_is_no_more(flows.drop_last(), candidate);
    }
}

proof fn lemma_uncovered_bytes(
    labels: Seq<Option<GroupKey>>,
    all: Seq<FlowRecord>,
    flows: Seq<FlowRecord>,
    candidate: Candidate,
)
    requires
        labels == keys(all, candidate.fields),
        flows.len() <= all.len(),
        flows == all.take(flows.len() as int),
    ensures
        bytes_in(uncovered(flows, candidate)) + labelled_bytes(labels, flows, candidate.key())
            <= bytes_in(flows),
    decreases flows.len(),
{
    reveal(Seq::filter);
    if flows.len() > 0 {
        let shorter = flows.drop_last();
        assert(shorter =~= all.take(shorter.len() as int));
        lemma_uncovered_bytes(labels, all, shorter, candidate);
        let last = flows.last();
        assert(last == all[flows.len() - 1]);
        if labels[flows.len() - 1] == Some(candidate.key()) {
            lemma_group_is_covered(last, candidate);
        }
        let kept = uncovered(shorter, candidate);
        if !candidate.covers(last) {
            assert(kept.push(last).drop_last() =~= kept);
        }
    }
}


/// Whether a rule names what a category stands for: its protocol, or for name lookups at least one
/// of the two, its port, and of TCP handshakes the SYN flag.
pub open spec fn names_category(rule: RuleText, category: ProtocolCategory) -> bool {
    &&& number_of(category) != 0 ==> rule.protocols == forced_protocols(category)
    &&& category != ProtocolCategory::Any ==> rule.protocols.len() > 0
    &&& category != ProtocolCategory::Any ==> forall|i: int|
        0 <= i < rule.protocols.len() ==> forced_protocols(category).contains(
            #[trigger] rule.protocols[i],
        )
    &&& forced_port(category) matches Some(port) ==> rule.destination_ports == seq![port]
    &&& category == ProtocolCategory::TcpSyn ==> rule.tcp_flags.contains("syn"@)
}

/// Each suggested rule names what the alert's category stands for.
pub proof fn category_is_always_named(
    flows: Seq<FlowRecord>,
    prefix: Prefix,
    direction: Direction,
    category: ProtocolCategory,
    current_rate: Double,
    threshold: Double,
    i: int,
)
    requires
        0 <= i < suggested(
            flows,
            prefix,
            direction,
            category,
            current_rate,
            threshold,
        ).len(),
    ensures
        names_category(
            suggested(flows, prefix, direction, category, current_rate, threshold)[i],
            category,
        ),
{
    let chosen = of_category(flows, category);
    assert forall|j: int| 0 <= j < chosen.len() implies is_of(category, #[trigger] chosen[j]) by {
        flows.lemma_filter_pred(
            |flow: FlowRecord|
                in_category(category, flow.protocol, flow.tcp_flags, flow.dst_port),
            j,
        );
    }
    lemma_category_named(
        chosen,
        bytes_in(chosen),
        prefix,
        direction,
        category,
        current_rate,
        threshold,
        MAX_RULES as nat,
        i,
    );
}

spec fn is_of(category: ProtocolCategory, flow: FlowRecord) -> bool {
    in_category(category, flow.protocol, flow.tcp_flags, flow.dst_port)
}

proof fn lemma_category_named(
    remaining: Seq<FlowRecord>,
    total: nat,
    prefix: Prefix,
    direction: Direction,
    category: ProtocolCategory,
    current_rate: Double,
    threshold: Double,
    rounds: nat,
    i: int,
)
    requires
        forall|j: int| 0 <= j < remaining.len() ==> is_of(category, #[trigger] remaining[j]),
        0 <= i < rules_for(
            remaining,
            total,
            prefix,
            direction,
            category,
            current_rate,
            threshold,
            rounds,
        ).len(),
    ensures
        names_category(
            rules_for(
                remaining,
                total,
                prefix,
                direction,
                category,
                current_rate,
                threshold,
                rounds,
            )[i],
            category,
        ),
    decreases rounds,
{
    let exclude = forced_fields(category);
    let min = Double { bits: MIN_COVERAGE };
    let candidate = best_candidate(remaining, min, exclude)->Some_0;
    assert(is_best(remaining, min, exclude, candidate));
    if i == 0 {
        lemma_rule_names_category(candidate, remaining, prefix, direction, category);
    } else {
        let rest = uncovered(remaining, candidate);
        assert forall|j: int| 0 <= j < rest.len() implies is_of(category, #[trigger] rest[j]) by {
            lemma_uncovered_from(remaining, candidate, j);
            let k = choose|k: int| 0 <= k < remaining.len() && remaining[k] == rest[j];
            assert(is_of(category, remaining[k]));
        }
        lemma_category_named(
            rest,
            total,
            prefix,
            direction,
            category,
            current_rate,
            threshold,
            (rounds - 1) as nat,
            i - 1,
        );
    }
}

pub(crate) proof fn lemma_uncovered_from(flows: Seq<FlowRecord>, candidate: Candidate, j: int)
    requires
        0 <= j < uncovered(flows, candidate).len(),
    ensures
        flows.contains(uncovered(flows, candidate)[j]),
    decreases flows.len(),
{
    reveal(Seq::filter);
    let shorter = flows.drop_last();
    let kept = uncovered(shorter, candidate);
    if j < kept.len() {
        lemma_uncovered_from(shorter, candidate, j);
        let k = choose|k: int| 0 <= k < shorter.len() && shorter[k] == kept[j];
        assert(flows[k] == kept[j]);
    } else {
        assert(flows[flows.len() - 1] == flows.last());
    }
}

proof fn lemma_rule_names_category(
    candidate: Candidate,
    remaining: Seq<FlowRecord>,
    prefix: Prefix,
    direction: Direction,
    category: ProtocolCategory,
)
    requires
        forall|j: int| 0 <= j < remaining.len() ==> is_of(category, #[trigger] remaining[j]),
        candidate.fields.is_choice(forced_fields(category)),
        keys(remaining, candidate.fields).contains(Some(candidate.key())),
    ensures
        names_category(rule_for(candidate, remaining, prefix, direction, category), category),
{
    let rule = rule_for(candidate, remaining, prefix, direction, category);
    let labels = keys(remaining, candidate.fields);
    let j = choose|j: int| 0 <= j < labels.len() && labels[j] == Some(candidate.key());
    let flow = remaining[j];
    assert(is_of(category, flow));
    assert(key_of(flow, candidate.fields) == Some(candidate.key()));
    let bits = candidate.fields.0;
    let other: u8 = if forced_port(category) is Some {
        DST_PORT
    } else {
        0
    };
    let first: u8 = if number_of(category) != 0 {
        PROTOCOL
    } else {
        0
    };
    assert(bits & first == 0 && bits & other == 0) by (bit_vector)
        requires
            bits & (first | other) == 0,
    ;
    let expected = forced_protocols(category);
    if category == ProtocolCategory::Dns {
        assert(expected[0] == "tcp"@ && expected[1] == "udp"@);
        if candidate.protocol is Some {
            assert(rule.protocols == seq![protocol_text(flow.protocol)]);
        }
    }
    if category != ProtocolCategory::Any {
        assert forall|i: int| 0 <= i < rule.protocols.len() implies expected.contains(
            #[trigger] rule.protocols[i],
        ) by {
            if category != ProtocolCategory::Dns {
                assert(rule.protocols[i] == expected[i]);
            }
        }
    }
    if category == ProtocolCategory::TcpSyn {
        if let Some(flags) = candidate.tcp_flags {
            assert(flags & 0x02 != 0);
            let lower = name_if(flags, 0x01, "fin"@);
            assert(flag_texts(flags)[lower.len() as int] == "syn"@);
        } else {
            assert(rule.tcp_flags[0] == "syn"@);
        }
    }
}

/// A flow of another category, wherever it stands, does not change what is suggested.
pub proof fn other_traffic_does_not_matter(
    flows: Seq<FlowRecord>,
    prefix: Prefix,
    direction: Direction,
    category: ProtocolCategory,
    current_rate: Double,
    threshold: Double,
    i: int,
)
    requires
        0 <= i < flows.len(),
        !in_category(category, flows[i].protocol, flows[i].tcp_flags, flows[i].dst_port),
    ensures
        suggested(flows.remove(i), prefix, direction, category, current_rate, threshold)
            == suggested(flows, prefix, direction, category, current_rate, threshold),
{
    let is_in = |flow: FlowRecord|
        in_category(category, flow.protocol, flow.tcp_flags, flow.dst_port);
    let (before, after) = (flows.take(i), flows.skip(i + 1));
    assert(flows.remove(i) =~= before + after);
    assert(flows =~= before + (seq![flows[i]] + after));
    Seq::filter_distributes_over_add(before, after, is_in);
    Seq::filter_distributes_over_add(before, seq![flows[i]] + after, is_in);
    Seq::filter_distributes_over_add(seq![flows[i]], after, is_in);
    assert(seq![flows[i]].filter(is_in) =~= Seq::empty()) by {
        reveal_with_fuel(Seq::filter, 2);
        assert(seq![flows[i]].last() == flows[i]);
    }
    assert(Seq::empty() + after.filter(is_in) =~= after.filter(is_in));
}

/// What is suggested for captured flows is what is suggested for those of the alert's category
/// alone.
pub proof fn only_the_category_matters(
    flows: Seq<FlowRecord>,
    prefix: Prefix,
    direction: Direction,
    category: ProtocolCategory,
    current_rate: Double,
    threshold: Double,
)
    ensures
        suggested(
            of_category(flows, category),
            prefix,
            direction,
            category,
            current_rate,
            threshold,
        ) == suggested(flows, prefix, direction, category, current_rate, threshold),
{
    lemma_chosen_once(flows, category);
}

/// All flows of a category are of it.
proof fn lemma_chosen_once(flows: Seq<FlowRecord>, category: ProtocolCategory)
    ensures
        of_category(of_category(flows, category), category) == of_category(flows, category),
    decreases flows.len(),
{
    reveal(Seq::filter);
    if flows.len() > 0 {
        let shorter = of_category(flows.drop_last(), category);
        lemma_chosen_once(flows.drop_last(), category);
        assert(shorter.push(flows.last()).drop_last() =~= shorter);
    }
}

/// The flows that no suggested rule covers.
pub open spec fn left_over(
    remaining: Seq<FlowRecord>,
    total: nat,
    category: ProtocolCategory,
    current_rate: Double,
    threshold: Double,
    rounds: nat,
) -> Seq<FlowRecord>
    decreases rounds,
{
    if rounds == 0 || remaining.len() == 0 || is_calm(remaining, total, current_rate, threshold) {
        remaining
    } else {
        match best_candidate(remaining, Double { bits: MIN_COVERAGE }, forced_fields(category)) {
            None => remaining,
            Some(candidate) => left_over(
                uncovered(remaining, candidate),
                total,
                category,
                current_rate,
                threshold,
                (rounds - 1) as nat,
            ),
        }
    }
}

/// Fewer than ten rules are enough: what they leave over is nothing, or is estimated to lie below
/// the threshold, or holds no pattern that covers its share. Traffic that is below the threshold
/// from the start gets no rule.
pub proof fn rules_go_on_until_calm(
    flows: Seq<FlowRecord>,
    prefix: Prefix,
    direction: Direction,
    category: ProtocolCategory,
    current_rate: Double,
    threshold: Double,
)
    ensures
        ({
            let chosen = of_category(flows, category);
            let total = bytes_in(chosen);
            let rules = suggested(flows, prefix, direction, category, current_rate, threshold);
            let rest = left_over(
                chosen,
                total,
                category,
                current_rate,
                threshold,
                MAX_RULES as nat,
            );
            &&& rules.len() < MAX_RULES ==> rest.len() == 0 || is_calm(
                rest,
                total,
                current_rate,
                threshold,
            ) || best_candidate(
                rest,
                Double { bits: MIN_COVERAGE },
                forced_fields(category),
            ) is None
            &&& is_calm(chosen, total, current_rate, threshold) ==> rules.len() == 0
        }),
{
    let chosen = of_category(flows, category);
    lemma_until_calm(
        chosen,
        bytes_in(chosen),
        prefix,
        direction,
        category,
        current_rate,
        threshold,
        MAX_RULES as nat,
    );
}

proof fn lemma_until_calm(
    remaining: Seq<FlowRecord>,
    total: nat,
    prefix: Prefix,
    direction: Direction,
    category: ProtocolCategory,
    current_rate: Double,
    threshold: Double,
    rounds: nat,
)
    ensures
        ({
            let rest = left_over(remaining, total, category, current_rate, threshold, rounds);
            rules_for(
                remaining,
                total,
                prefix,
                direction,
                category,
                current_rate,
                threshold,
                rounds,
            ).len() < rounds ==> rest.len() == 0 || is_calm(
                rest,
                total,
                current_rate,
                threshold,
            ) || best_candidate(
                rest,
                Double { bits: MIN_COVERAGE },
                forced_fields(category),
            ) is None
        }),
    decreases rounds,
{
    if rounds > 0 {
        if let Some(candidate) = best_candidate(
            remaining,
            Double { bits: MIN_COVERAGE },
            forced_fields(category),
        ) {
            lemma_until_calm(
                uncovered(remaining, candidate),
                total,
                prefix,
                direction,
                category,
                current_rate,
                threshold,
                (rounds - 1) as nat,
            );
        }
    }
}


/// Some host of the flows is preferred to all others.
pub proof fn a_heaviest_host_exists(flows: Seq<FlowRecord>, direction: Direction)
    requires
        flows.len() > 0,
    ensures
        is_heaviest(flows, direction, heaviest(flows, direction)),
{
    let labels = hosts(flows, direction);
    lemma_heaviest_of_first(flows, direction, flows.len() as int);
    let ip = choose|ip: IpAddr| is_heaviest_of_first(flows, direction, flows.len() as int, ip);
    let i = choose|i: int| 0 <= i < flows.len() && #[trigger] labels[i] == Some(ip);
    assert(labels[i] == Some(ip));
    assert forall|other: IpAddr| other != ip && #[trigger] labels.contains(Some(other)) implies
    heavier(flows, direction, ip, other) by {
        let k = choose|k: int| 0 <= k < labels.len() && labels[k] == Some(other);
        assert(labels[k] == Some(other));
    }
    assert(is_heaviest(flows, direction, ip));
}

spec fn is_heaviest_of_first(
    flows: Seq<FlowRecord>,
    direction: Direction,
    n: int,
    ip: IpAddr,
) -> bool {
    let labels = hosts(flows, direction);
    &&& exists|i: int| 0 <= i < n && #[trigger] labels[i] == Some(ip)
    &&& forall|i: int|
        0 <= i < n && #[trigger] labels[i] != Some(ip) ==> heavier(
            flows,
            direction,
            ip,
            labels[i]->Some_0,
        )
}

proof fn lemma_heaviest_of_first(flows: Seq<FlowRecord>, direction: Direction, n: int)
    requires
        0 < n <= flows.len(),
    ensures
        exists|ip: IpAddr| is_heaviest_of_first(flows, direction, n, ip),
    decreases n,
{
    let labels = hosts(flows, direction);
    let new = host_of(flows[n - 1], direction);
    assert(labels[n - 1] == Some(new));
    if n == 1 {
        assert(is_heaviest_of_first(flows, direction, n, new));
    } else {
        let m = n - 1;
        lemma_heaviest_of_first(flows, direction, m);
        let old_ip = choose|ip: IpAddr| is_heaviest_of_first(flows, direction, m, ip);
        let k = choose|k: int| 0 <= k < m && #[trigger] labels[k] == Some(old_ip);
        assert(labels[k] == Some(old_ip));
        if host_bytes(flows, direction, old_ip) < host_bytes(flows, direction, new) {
            assert(is_heaviest_of_first(flows, direction, n, new));
        } else {
            if new != old_ip && !heavier(flows, direction, old_ip, new) {
                assert forall|j: int| 0 <= j <= k implies #[trigger] labels[j] != Some(new) by {
                    if labels[j] == Some(new) {
                        assert(heavier(flows, direction, old_ip, labels[j]->Some_0));
                    }
                }
                assert(seen_first(labels, old_ip, new));
            }
            assert(is_heaviest_of_first(flows, direction, n, old_ip));
        }
    }
}

proof fn lemma_part_is_no_more<K>(labels: Seq<Option<K>>, flows: Seq<FlowRecord>, label: K)
    ensures
        labelled_bytes(labels, flows, label) <= bytes_in(flows),
    decreases flows.len(),
{
    if flows.len() > 0 {
        lemma_part_is_no_more(labels, flows.drop_last(), label);
    }
}

/// A single host is the target exactly where some host has the dominant share of the bytes: then
/// it is the heaviest one, which is a host of the flows and has that share too.
pub proof fn dominant_host_is_the_target(
    flows: Seq<FlowRecord>,
    direction: Direction,
    prefix: Prefix,
    dominant_ratio: Double,
    ip: IpAddr,
)
    requires
        0 < bytes_in(flows) <= u128::MAX,
        hosts(flows, direction).contains(Some(ip)),
    ensures
        ({
            let target = heaviest(flows, direction);
            let share = ratio_of(host_bytes(flows, direction, target), bytes_in(flows));
            &&& hosts(flows, direction).contains(Some(target))
            &&& ratio_of(host_bytes(flows, direction, ip), bytes_in(flows)).no_less(dominant_ratio)
                ==> share.no_less(dominant_ratio) && destination(
                flows,
                direction,
                prefix,
                dominant_ratio,
            ) == target.host_prefix()
            &&& !share.no_less(dominant_ratio) ==> destination(
                flows,
                direction,
                prefix,
                dominant_ratio,
            ) == prefix
        }),
{
    let target = heaviest(flows, direction);
    let labels = hosts(flows, direction);
    a_heaviest_host_exists(flows, direction);
    lemma_part_is_no_more(labels, flows, target);
    lemma_part_is_no_more(labels, flows, ip);
    if ip != target {
        assert(heavier(flows, direction, target, ip));
    }
    larger_part_larger_ratio(
        host_bytes(flows, direction, ip) as u128,
        host_bytes(flows, direction, target) as u128,
        bytes_in(flows) as u128,
    );
}

/// Where all flows aim at hosts of the watched prefix, so does each rule: its target is the
/// watched prefix, or a host in it.
pub proof fn target_lies_in_the_prefix(
    flows: Seq<FlowRecord>,
    direction: Direction,
    prefix: Prefix,
    dominant_ratio: Double,
)
    requires
        forall|i: int|
            0 <= i < flows.len() ==> prefix.contains(host_of(#[trigger] flows[i], direction)),
    ensures
        ({
            let target = destination(flows, direction, prefix, dominant_ratio);
            target == prefix || (target == target.addr.host_prefix() && prefix.contains(
                target.addr,
            ))
        }),
{
    if bytes_in(flows) > 0 {
        a_heaviest_host_exists(flows, direction);
        let labels = hosts(flows, direction);
        let ip = heaviest(flows, direction);
        let i = choose|i: int| 0 <= i < labels.len() && labels[i] == Some(ip);
        assert(host_of(flows[i], direction) == ip);
    }
}


/// Where some candidate covers its share of the bytes, a best one is found.
pub proof fn an_option_gives_a_best_one(
    flows: Seq<FlowRecord>,
    min_coverage_ratio: Double,
    exclude_fields: u8,
    option: Candidate,
)
    requires
        bytes_in(flows) > 0,
        is_option(flows, min_coverage_ratio, exclude_fields, option),
    ensures
        best_candidate(flows, min_coverage_ratio, exclude_fields) matches Some(best) && is_best(
            flows,
            min_coverage_ratio,
            exclude_fields,
            best,
        ),
{
    let end = 32 * flows.len() as int;
    let p = lemma_option_is_pattern(flows, min_coverage_ratio, exclude_fields, option);
    lemma_best_pattern(flows, min_coverage_ratio, exclude_fields, end, p);
    let best = choose|c: Candidate|
        is_best_pattern(flows, min_coverage_ratio, exclude_fields, end, c);
    assert forall|other: Candidate|
        other != best && #[trigger] is_option(
            flows,
            min_coverage_ratio,
            exclude_fields,
            other,
        ) implies preferred(flows, best, other) by {
        let q = lemma_option_is_pattern(flows, min_coverage_ratio, exclude_fields, other);
        assert(pattern(flows, q) == Some(other));
    }
    assert(is_best(flows, min_coverage_ratio, exclude_fields, best));
}

/// The candidate of one flow and one set of fields.
spec fn pattern(flows: Seq<FlowRecord>, p: int) -> Option<Candidate> {
    let fields = FieldSet((p % 32) as u8);
    match key_of(flows[p / 32], fields) {
        Some(key) => Some(Candidate::of(fields, key)),
        None => None,
    }
}

spec fn is_best_pattern(
    flows: Seq<FlowRecord>,
    min_coverage_ratio: Double,
    exclude_fields: u8,
    end: int,
    candidate: Candidate,
) -> bool {
    &&& is_option(flows, min_coverage_ratio, exclude_fields, candidate)
    &&& forall|q: int|
        0 <= q < end && is_option_at(flows, min_coverage_ratio, exclude_fields, q) && (
        #[trigger] pattern(flows, q))->Some_0 != candidate ==> preferred(
            flows,
            candidate,
            pattern(flows, q)->Some_0,
        )
}

proof fn lemma_option_is_pattern(
    flows: Seq<FlowRecord>,
    min_coverage_ratio: Double,
    exclude_fields: u8,
    option: Candidate,
) -> (p: int)
    requires
        is_option(flows, min_coverage_ratio, exclude_fields, option),
    ensures
        0 <= p < 32 * flows.len(),
        pattern(flows, p) == Some(option),
{
    let labels = keys(flows, option.fields);
    let i = choose|i: int| 0 <= i < labels.len() && labels[i] == Some(option.key());
    assert(key_of(flows[i], option.fields) == Some(option.key()));
    let p = 32 * i + option.fields.0;
    assert(p % 32 == option.fields.0);
    assert(p / 32 == i);
    assert(Candidate::of(option.fields, option.key()) == option);
    p
}

/// Whether the pattern at a place is a candidate that may be suggested.
spec fn is_option_at(
    flows: Seq<FlowRecord>,
    min_coverage_ratio: Double,
    exclude_fields: u8,
    q: int,
) -> bool {
    pattern(flows, q) is Some && is_option(
        flows,
        min_coverage_ratio,
        exclude_fields,
        pattern(flows, q)->Some_0,
    )
}

proof fn lemma_best_pattern(
    flows: Seq<FlowRecord>,
    min_coverage_ratio: Double,
    exclude_fields: u8,
    end: int,
    p: int,
)
    requires
        0 <= p < end,
        is_option_at(flows, min_coverage_ratio, exclude_fields, p),
    ensures
        exists|c: Candidate| is_best_pattern(flows, min_coverage_ratio, exclude_fields, end, c),
    decreases end,
{
    let last = end - 1;
    let new = pattern(flows, last)->Some_0;
    if exists|q: int|
        0 <= q < last && #[trigger] is_option_at(flows, min_coverage_ratio, exclude_fields, q) {
        let q = choose|q: int|
            0 <= q < last && #[trigger] is_option_at(flows, min_coverage_ratio, exclude_fields, q);
        lemma_best_pattern(flows, min_coverage_ratio, exclude_fields, last, q);
        let c = choose|c: Candidate|
            is_best_pattern(flows, min_coverage_ratio, exclude_fields, last, c);
        if !is_option_at(flows, min_coverage_ratio, exclude_fields, last) || new == c || preferred(
            flows,
            c,
            new,
        ) {
            lemma_best_pattern_stays(flows, min_coverage_ratio, exclude_fields, last, c);
        } else {
            lemma_preferred_total(flows, min_coverage_ratio, exclude_fields, c, new);
            lemma_best_pattern_changes(flows, min_coverage_ratio, exclude_fields, last, c);
        }
    } else {
        assert(p == last);
        assert forall|q: int| 0 <= q < end && q != p implies !#[trigger] is_option_at(
            flows,
            min_coverage_ratio,
            exclude_fields,
            q,
        ) by {}
        assert(is_best_pattern(flows, min_coverage_ratio, exclude_fields, end, new));
    }
}

proof fn lemma_best_pattern_stays(
    flows: Seq<FlowRecord>,
    min_coverage_ratio: Double,
    exclude_fields: u8,
    last: int,
    c: Candidate,
)
    requires
        is_best_pattern(flows, min_coverage_ratio, exclude_fields, last, c),
        is_option_at(flows, min_coverage_ratio, exclude_fields, last) ==> pattern(flows, last)
            == Some(c) || preferred(flows, c, pattern(flows, last)->Some_0),
    ensures
        is_best_pattern(flows, min_coverage_ratio, exclude_fields, last + 1, c),
{
}

proof fn lemma_best_pattern_changes(
    flows: Seq<FlowRecord>,
    min_coverage_ratio: Double,
    exclude_fields: u8,
    last: int,
    c: Candidate,
)
    requires
        is_best_pattern(flows, min_coverage_ratio, exclude_fields, last, c),
        is_option_at(flows, min_coverage_ratio, exclude_fields, last),
        preferred(flows, pattern(flows, last)->Some_0, c),
    ensures
        is_best_pattern(
            flows,
            min_coverage_ratio,
            exclude_fields,
            last + 1,
            pattern(flows, last)->Some_0,
        ),
{
    let new = pattern(flows, last)->Some_0;
    assert forall|q: int|
        0 <= q < last + 1 && is_option_at(flows, min_coverage_ratio, exclude_fields, q) && (
        #[trigger] pattern(flows, q))->Some_0 != new implies preferred(
        flows,
        new,
        pattern(flows, q)->Some_0,
    ) by {
        let d = pattern(flows, q)->Some_0;
        if d != c {
            lemma_preferred_transitive(flows, new, c, d);
        }
    }
}

proof fn lemma_preferred_total(
    flows: Seq<FlowRecord>,
    min_coverage_ratio: Double,
    exclude_fields: u8,
    a: Candidate,
    b: Candidate,
)
    requires
        a != b,
        is_option(flows, min_coverage_ratio, exclude_fields, a),
        is_option(flows, min_coverage_ratio, exclude_fields, b),
    ensures
        preferred(flows, a, b) || preferred(flows, b, a),
{
    if a.fields == b.fields {
        assert(a.key() != b.key());
        lemma_seen_first_total(keys(flows, a.fields), a.key(), b.key());
    } else {
        assert(a.fields.0 != b.fields.0);
    }
}

proof fn lemma_seen_first_total<K>(labels: Seq<Option<K>>, a: K, b: K)
    requires
        a != b,
        labels.contains(Some(a)),
        labels.contains(Some(b)),
    ensures
        seen_first(labels, a, b) || seen_first(labels, b, a),
{
    let i = lemma_first_place(labels, a);
    let k = lemma_first_place(labels, b);
    assert(labels[i] == Some(a) && labels[k] == Some(b));
}

proof fn lemma_first_place<K>(labels: Seq<Option<K>>, label: K) -> (i: int)
    requires
        labels.contains(Some(label)),
    ensures
        0 <= i < labels.len(),
        labels[i] == Some(label),
        forall|j: int| 0 <= j < i ==> #[trigger] labels[j] != Some(label),
    decreases labels.len(),
{
    let shorter = labels.drop_last();
    if shorter.contains(Some(label)) {
        let i = lemma_first_place(shorter, label);
        assert forall|j: int| 0 <= j < i implies #[trigger] labels[j] != Some(label) by {
            assert(shorter[j] == labels[j]);
        }
        i
    } else {
        let i = choose|i: int| 0 <= i < labels.len() && labels[i] == Some(label);
        assert forall|j: int| 0 <= j < labels.len() - 1 implies #[trigger] labels[j] != Some(
            label,
        ) by {
            assert(shorter[j] == labels[j]);
        }
        i
    }
}

proof fn lemma_seen_first_transitive<K>(labels: Seq<Option<K>>, a: K, b: K, c: K)
    requires
        seen_first(labels, a, b),
        seen_first(labels, b, c),
    ensures
        seen_first(labels, a, c),
{
    let i = choose|i: int|
        0 <= i < labels.len() && #[trigger] labels[i] == Some(a) && forall|j: int|
            0 <= j <= i ==> #[trigger] labels[j] != Some(b);
    let k = choose|i: int|
        0 <= i < labels.len() && #[trigger] labels[i] == Some(b) && forall|j: int|
            0 <= j <= i ==> #[trigger] labels[j] != Some(c);
    assert(labels[i] == Some(a) && labels[k] == Some(b));
}

proof fn lemma_preferred_transitive(
    flows: Seq<FlowRecord>,
    a: Candidate,
    b: Candidate,
    c: Candidate,
)
    requires
        preferred(flows, a, b),
        preferred(flows, b, c),
    ensures
        preferred(flows, a, c),
{
    assert(!score(flows, a).is_nan() && !score(flows, b).is_nan() && !score(flows, c).is_nan());
    if earlier(flows, a, b) && earlier(flows, b, c) && a.fields == b.fields && b.fields
        == c.fields {
        lemma_seen_first_transitive(keys(flows, a.fields), a.key(), b.key(), c.key());
    }
}

} // verus!
