//! What holds of the watched rules: how flows are counted, captured and drained.

use crate::config::{in_category, Config, Direction, DirectionMetrics, ProtocolCategory, RuleConfig};
use crate::double::Double;
use crate::flow::FlowRecord;
use crate::maps::label_map;
use crate::mitigation::host_of;
use crate::net::{text_of_prefix, IpAddr, Prefix};
use crate::processor::{
    are_drained_to, buffer_keys, buffers_in, drained, flow_direction, is_counted, is_first_refused,
    lemma_cut, place_of, threshold_keys, watches_before, with_captured, BufferKey, CapturedFlow,
    FlowProcessor, HostBitsSet, ProcessedRule, RateSnapshot,
};
use crate::ring_buffer::{after_flows, Bucket, Counted, RingBuffer};
use vstd::arithmetic::div_mod::*;
use vstd::prelude::*;

verus! {

/// The flow of the answers: source and destination have changed places.
pub open spec fn reversed(flow: FlowRecord) -> FlowRecord {
    FlowRecord {
        src_ip: flow.dst_ip,
        dst_ip: flow.src_ip,
        src_port: flow.dst_port,
        dst_port: flow.src_port,
        ..flow
    }
}

/// The other direction.
pub open spec fn opposite(direction: Direction) -> Direction {
    match direction {
        Direction::Inbound => Direction::Outbound,
        Direction::Outbound => Direction::Inbound,
    }
}

/// What is inbound one way is outbound the other way. What stays in a network, or outside it, has
/// no direction either way.
pub proof fn answers_go_the_other_way(network: Prefix, flow: FlowRecord)
    ensures
        flow_direction(network, reversed(flow)) == match flow_direction(network, flow) {
            Some(direction) => Some(opposite(direction)),
            None => None,
        },
        flow_direction(network, flow) is None <==> network.contains(flow.src_ip)
            == network.contains(flow.dst_ip),
{
}

/// The captured flows after some more, in their order.
pub open spec fn with_all_captured(
    captured: Seq<CapturedFlow>,
    size: usize,
    new: Seq<CapturedFlow>,
) -> Seq<CapturedFlow>
    decreases new.len(),
{
    if new.len() == 0 {
        captured
    } else {
        with_captured(with_all_captured(captured, size, new.drop_last()), size, new.last())
    }
}

/// The last `n` flows.
pub open spec fn latest(flows: Seq<CapturedFlow>, n: nat) -> Seq<CapturedFlow> {
    if flows.len() <= n {
        flows
    } else {
        flows.skip(flows.len() - n)
    }
}

/// A capture buffer holds the latest flows, and never more than it is for.
pub proof fn capture_keeps_the_latest(
    captured: Seq<CapturedFlow>,
    size: usize,
    new: Seq<CapturedFlow>,
)
    requires
        captured.len() <= size,
    ensures
        with_all_captured(captured, size, new) == latest(captured + new, size as nat),
        with_all_captured(captured, size, new).len() <= size,
    decreases new.len(),
{
    if new.len() > 0 {
        let earlier = new.drop_last();
        capture_keeps_the_latest(captured, size, earlier);
        let all = captured + new;
        assert(all.drop_last() =~= captured + earlier);
        assert(with_captured(latest(captured + earlier, size as nat), size, new.last()) =~= latest(
            all,
            size as nat,
        ));
    } else {
        assert(captured + new =~= captured);
    }
}

/// What was drained is gone: draining again gives nothing. What is captured for another prefix or
/// in the other direction stays.
pub proof fn draining_takes_exactly_what_it_gives(
    before: Seq<ProcessedRule>,
    after: Seq<ProcessedRule>,
    prefix: Seq<char>,
    direction: Direction,
    other_prefix: Seq<char>,
    other_direction: Direction,
)
    requires
        are_drained_to(before, after, prefix, direction),
    ensures
        drained(after, prefix, direction).len() == 0,
        other_prefix != prefix || other_direction != direction ==> drained(
            after,
            other_prefix,
            other_direction,
        ) == drained(before, other_prefix, other_direction),
    decreases before.len(),
{
    if before.len() > 0 {
        let (a, b) = (before.drop_last(), after.drop_last());
        assert forall|r: int| 0 <= r < a.len() implies if text_of_prefix((#[trigger] a[r]).prefix)
            == prefix {
            a[r].is_drained_to(b[r], direction)
        } else {
            b[r] == a[r]
        } by {
            assert(a[r] == before[r] && b[r] == after[r]);
        }
        draining_takes_exactly_what_it_gives(
            a,
            b,
            prefix,
            direction,
            other_prefix,
            other_direction,
        );
        let (x, y) = (before[before.len() - 1], after[before.len() - 1]);
        assert(before.last() == x && after.last() == y);
        if text_of_prefix(x.prefix) == prefix {
            lemma_filter_splits(x.capture_buffer@, direction, other_direction);
        }
    }
}

proof fn lemma_filter_splits(
    captured: Seq<CapturedFlow>,
    direction: Direction,
    other: Direction,
)
    ensures
        ({
            let kept = captured.filter(|c: CapturedFlow| c.direction != direction);
            &&& kept.filter(|c: CapturedFlow| c.direction == direction).len() == 0
            &&& other != direction ==> kept.filter(|c: CapturedFlow| c.direction == other)
                == captured.filter(|c: CapturedFlow| c.direction == other)
        }),
    decreases captured.len(),
{
    reveal(Seq::filter);
    if captured.len() > 0 {
        let shorter = captured.drop_last();
        lemma_filter_splits(shorter, direction, other);
        let kept = shorter.filter(|c: CapturedFlow| c.direction != direction);
        let last = captured.last();
        if last.direction != direction {
            assert(kept.push(last).drop_last() =~= kept);
        }
    }
}


/// Whether a flow crosses the border of a network in a direction: inbound to one of its hosts,
/// outbound from one, and in both cases the other end lies outside.
pub open spec fn goes(network: Prefix, flow: FlowRecord, direction: Direction) -> bool {
    match direction {
        Direction::Inbound => network.contains(flow.dst_ip) && !network.contains(flow.src_ip),
        Direction::Outbound => network.contains(flow.src_ip) && !network.contains(flow.dst_ip),
    }
}

/// Whether a flow is among those that the buffer of a key counts, for a rule with a network: it
/// crosses the border in the direction of the key, and its protocol, its flags and its destination
/// port are those of the category.
pub open spec fn belongs(key: BufferKey, network: Prefix, flow: FlowRecord) -> bool {
    goes(network, flow, key.direction) && in_category(
        key.protocol,
        flow.protocol,
        flow.tcp_flags,
        flow.dst_port,
    )
}

/// What the buffer of a key counts of some flows, for a rule with a network.
pub open spec fn counted_under(
    key: BufferKey,
    network: Prefix,
    flows: Seq<FlowRecord>,
) -> Seq<Counted>
    decreases flows.len(),
{
    if flows.len() == 0 {
        Seq::empty()
    } else {
        let earlier = counted_under(key, network, flows.drop_last());
        let flow = flows.last();
        if belongs(key, network, flow) {
            earlier.push(
                Counted {
                    timestamp: flow.time_received,
                    bytes: (flow.bytes * flow.sampling_rate) as u64,
                    packets: (flow.packets * flow.sampling_rate) as u64,
                },
            )
        } else {
            earlier
        }
    }
}

/// From an empty rule on, each buffer counts exactly the flows of its category, by their
/// destination port in both directions, that cross the border of the network in its direction.
pub proof fn buffers_count_their_flows(
    config: RuleConfig,
    window_secs: usize,
    capture_buffer_size: usize,
    rules: Seq<ProcessedRule>,
    flows: Seq<FlowRecord>,
    i: int,
)
    requires
        rules.len() == flows.len() + 1,
        rules[0].is_fresh(config, window_secs, capture_buffer_size),
        forall|k: int|
            0 <= k < flows.len() ==> (#[trigger] rules[k]).receives(flows[k], rules[k + 1]),
        0 <= i < rules[0].buffers@.len(),
    ensures
        rules.last().network == rules[0].network,
        rules.last().buffers@.len() == rules[0].buffers@.len(),
        rules.last().buffers@[i].0 == rules[0].buffers@[i].0,
        rules.last().buffers@[i].1@ == after_flows(
            window_secs as nat,
            counted_under(rules[0].buffers@[i].0, rules[0].network, flows),
        ),
    decreases flows.len(),
{
    let key = rules[0].buffers@[i].0;
    let network = rules[0].network;
    if flows.len() == 0 {
        assert(rules.last() == rules[0]);
    } else {
        let n = flows.len() - 1;
        let (earlier_rules, earlier) = (rules.drop_last(), flows.drop_last());
        assert forall|k: int| 0 <= k < earlier.len() implies (
        #[trigger] earlier_rules[k]).receives(earlier[k], earlier_rules[k + 1]) by {
            assert(rules[k].receives(flows[k], rules[k + 1]));
        }
        buffers_count_their_flows(
            config,
            window_secs,
            capture_buffer_size,
            earlier_rules,
            earlier,
            i,
        );
        let (before, flow) = (rules[n], flows[n]);
        assert(earlier_rules.last() == before);
        assert(before.receives(flow, rules[n + 1]));
        assert(before.buffers@[i].0.direction == key.direction);
        assert(before.has_direction(key.direction));
        let counted = counted_under(key, network, earlier);
        if belongs(key, network, flow) {
            let new = Counted {
                timestamp: flow.time_received,
                bytes: (flow.bytes * flow.sampling_rate) as u64,
                packets: (flow.packets * flow.sampling_rate) as u64,
            };
            assert(counted.push(new).drop_last() =~= counted);
        }
    }
}


/// Each drained flow was captured by a rule with the prefix: it goes in the direction, to or from
/// a host of the rule's network, and its other end lies outside.
pub proof fn drained_flows_cross_the_network(
    rules: Seq<ProcessedRule>,
    prefix: Seq<char>,
    direction: Direction,
    i: int,
)
    requires
        forall|r: int| 0 <= r < rules.len() ==> (#[trigger] rules[r]).valid(),
        0 <= i < drained(rules, prefix, direction).len(),
    ensures
        ({
            let flow = drained(rules, prefix, direction)[i];
            exists|r: int|
                0 <= r < rules.len() && text_of_prefix((#[trigger] rules[r]).prefix) == prefix
                    && flow_direction(rules[r].network, flow) == Some(direction)
                    && rules[r].network.contains(host_of(flow, direction))
        }),
    decreases rules.len(),
{
    let flow = drained(rules, prefix, direction)[i];
    if rules.len() > 0 {
        let shorter = rules.drop_last();
        let last = rules.len() - 1;
        let earlier = drained(shorter, prefix, direction);
        if i < earlier.len() {
            assert forall|r: int| 0 <= r < shorter.len() implies (
            #[trigger] shorter[r]).valid() by {
                assert(rules[r].valid());
            }
            drained_flows_cross_the_network(shorter, prefix, direction, i);
            let r = choose|r: int|
                0 <= r < shorter.len() && text_of_prefix((#[trigger] shorter[r]).prefix) == prefix
                    && flow_direction(shorter[r].network, earlier[i]) == Some(direction)
                    && shorter[r].network.contains(host_of(earlier[i], direction));
            assert(rules[r] == shorter[r]);
        } else {
            let k = i - earlier.len();
            let all = rules[last].capture_buffer@;
            let in_direction = |c: CapturedFlow| c.direction == direction;
            let chosen = all.filter(in_direction);
            all.lemma_filter_pred(in_direction, k);
            lemma_filtered_from(all, direction, k);
            let m = choose|m: int| 0 <= m < all.len() && all[m] == chosen[k];
            assert(all[m].is_seen_from(rules[last].network));
            assert(flow == chosen[k].flow);
            assert(text_of_prefix(rules[last].prefix) == prefix);
        }
    }
}

proof fn lemma_filtered_from(captured: Seq<CapturedFlow>, direction: Direction, k: int)
    requires
        0 <= k < captured.filter(|c: CapturedFlow| c.direction == direction).len(),
    ensures
        captured.contains(captured.filter(|c: CapturedFlow| c.direction == direction)[k]),
    decreases captured.len(),
{
    reveal(Seq::filter);
    let shorter = captured.drop_last();
    let chosen = shorter.filter(|c: CapturedFlow| c.direction == direction);
    if k < chosen.len() {
        lemma_filtered_from(shorter, direction, k);
        let m = choose|m: int| 0 <= m < shorter.len() && shorter[m] == chosen[k];
        assert(captured[m] == chosen[k]);
    } else {
        assert(captured[captured.len() - 1] == captured.last());
    }
}


/// From an empty rule on, whatever flows it receives and however often it is drained, no more
/// flows are captured than the buffer is for.
pub proof fn capture_stays_within_its_size(
    config: RuleConfig,
    window_secs: usize,
    capture_buffer_size: usize,
    rules: Seq<ProcessedRule>,
)
    requires
        rules.len() > 0,
        rules[0].is_fresh(config, window_secs, capture_buffer_size),
        forall|k: int|
            0 <= k < rules.len() - 1 ==> is_step(#[trigger] rules[k], rules[k + 1]),
    ensures
        rules.last().capture_buffer_size == capture_buffer_size,
        rules.last().capture_buffer@.len() <= capture_buffer_size,
    decreases rules.len(),
{
    if rules.len() > 1 {
        let shorter = rules.drop_last();
        let k = rules.len() - 2;
        assert forall|i: int| 0 <= i < shorter.len() - 1 implies is_step(
            #[trigger] shorter[i],
            shorter[i + 1],
        ) by {
            assert(is_step(rules[i], rules[i + 1]));
        }
        capture_stays_within_its_size(config, window_secs, capture_buffer_size, shorter);
        let (before, after) = (rules[k], rules[k + 1]);
        assert(shorter.last() == before && rules.last() == after);
        assert(is_step(before, after));
        if exists|direction: Direction| before.is_drained_to(after, direction) {
            let direction = choose|direction: Direction| before.is_drained_to(after, direction);
            before.capture_buffer@.lemma_filter_len(
                |c: CapturedFlow| c.direction != direction,
            );
        }
    }
}

/// Whether a rule has received a flow or was drained.
pub open spec fn is_step(before: ProcessedRule, after: ProcessedRule) -> bool {
    (exists|flow: FlowRecord| before.receives(flow, after)) || (exists|direction: Direction|
        before.is_drained_to(after, direction))
}

/// Whether some buckets have counted a flow: in the place of its second, on top of what is there
/// of that second, and in place of what is there of another one.
pub open spec fn has_counted(
    before: Seq<Bucket>,
    after: Seq<Bucket>,
    timestamp: u64,
    bytes: nat,
    packets: nat,
) -> bool {
    let i = timestamp as int % before.len() as int;
    let same = before[i].timestamp == timestamp;
    &&& after.len() == before.len()
    &&& after[i].timestamp == timestamp
    &&& after[i].bytes == bytes + if same { before[i].bytes as nat } else { 0 }
    &&& after[i].packets == packets + if same { before[i].packets as nat } else { 0 }
    &&& after[i].flows == 1 + if same { before[i].flows as nat } else { 0 }
    &&& forall|j: int| 0 <= j < before.len() && j != i ==> #[trigger] after[j] == before[j]
}

/// A flow is counted in the buffer of a key exactly where the key has the direction in which the
/// flow crosses the border, and the category to which it belongs by its destination port, in both
/// directions. No other buffer changes.
pub proof fn a_flow_is_counted_where_it_belongs(
    processor: &mut FlowProcessor,
    flow: FlowRecord,
    r: int,
    i: int,
)
    requires
        old(processor).valid(),
        old(processor).has_room(flow),
        call_ensures(FlowProcessor::process_flow, (processor, &flow), ()),
        0 <= r < old(processor).rules@.len(),
        0 <= i < old(processor).rules@[r].buffers@.len(),
    ensures
        ({
            let (before, after) = (old(processor).rules@[r], final(processor).rules@[r]);
            let key = before.buffers@[i].0;
            &&& final(processor).rules@.len() == old(processor).rules@.len()
            &&& after.buffers@.len() == before.buffers@.len()
            &&& after.buffers@[i].0 == key
            &&& belongs(key, before.network, flow) ==> has_counted(
                before.buffers@[i].1@,
                after.buffers@[i].1@,
                flow.time_received,
                flow.bytes as nat * flow.sampling_rate as nat,
                flow.packets as nat * flow.sampling_rate as nat,
            )
            &&& !belongs(key, before.network, flow) ==> after.buffers@[i].1@
                == before.buffers@[i].1@
        }),
{
    let (before, after) = (old(processor).rules@[r], final(processor).rules@[r]);
    let key = before.buffers@[i].0;
    assert(before.receives(flow, after));
    assert(before.has_direction(key.direction));
    if belongs(key, before.network, flow) {
        assert(flow_direction(before.network, flow) == Some(key.direction));
        assert(before.has_room(flow, key.direction));
        assert(before.buffers@[i].1.has_room(
            flow.time_received,
            flow.byte_count() as u64,
            flow.packet_count() as u64,
        ));
        lemma_mod_bound(flow.time_received as int, before.buffers@[i].1@.len() as int);
    }
}

/// A flow is captured with its direction, as the latest one, by each rule whose border it crosses
/// in a direction for which the rule has thresholds, whatever the category. Where the buffer is
/// full, the oldest flow leaves. A flow that crosses no border, or one in a direction without
/// thresholds, leaves the rule as it is.
pub proof fn a_flow_is_captured_where_it_crosses(
    processor: &mut FlowProcessor,
    flow: FlowRecord,
    r: int,
    direction: Direction,
)
    requires
        old(processor).valid(),
        old(processor).has_room(flow),
        call_ensures(FlowProcessor::process_flow, (processor, &flow), ()),
        0 <= r < old(processor).rules@.len(),
    ensures
        ({
            let (before, after) = (old(processor).rules@[r], final(processor).rules@[r]);
            let (had, has) = (before.capture_buffer@, after.capture_buffer@);
            let watched = exists|i: int|
                0 <= i < before.buffers@.len() && (#[trigger] before.buffers@[i]).0.direction
                    == direction;
            &&& after.prefix == before.prefix
            &&& after.network == before.network
            &&& after.labels == before.labels
            &&& after.capture_buffer_size == before.capture_buffer_size
            &&& goes(before.network, flow, direction) && watched && before.capture_buffer_size > 0
                ==> {
                &&& has.len() > 0
                &&& has.last().flow == flow
                &&& has.last().direction == direction
                &&& had.len() < before.capture_buffer_size ==> has.drop_last() == had
                &&& had.len() == before.capture_buffer_size ==> has.drop_last() == had.skip(1)
            }
            &&& before.capture_buffer_size == 0 ==> has.len() == 0
            &&& goes(before.network, flow, direction) && !watched ==> after == before
            &&& !goes(before.network, flow, Direction::Inbound) && !goes(
                before.network,
                flow,
                Direction::Outbound,
            ) ==> after == before
        }),
{
    let (before, after) = (old(processor).rules@[r], final(processor).rules@[r]);
    assert(before.valid() && after.valid());
    assert(before.receives(flow, after));
    if goes(before.network, flow, direction) {
        assert(flow_direction(before.network, flow) == Some(direction));
        let new = CapturedFlow { flow, direction };
        if before.has_direction(direction) && before.capture_buffer_size > 0 {
            let had = before.capture_buffer@;
            assert(had.push(new).drop_last() =~= had);
            if had.len() > 0 {
                assert(had.skip(1).push(new).drop_last() =~= had.skip(1));
            }
        }
    }
}

/// There is room for a flow exactly where its counts are below two to the power of 64, and so are
/// the sums in each buffer to which the flow belongs. A buffer without buckets has room for none.
pub proof fn room_is_asked_where_a_flow_belongs(
    processor: FlowProcessor,
    flow: FlowRecord,
    room: bool,
)
    requires
        processor.valid(),
        call_ensures(FlowProcessor::room_for, (&processor, &flow), room),
    ensures
        room <==> {
            &&& flow.bytes * flow.sampling_rate <= u64::MAX
            &&& flow.packets * flow.sampling_rate <= u64::MAX
            &&& forall|r: int, i: int|
                0 <= r < processor.rules@.len() && 0 <= i < processor.rules@[r].buffers@.len()
                    && belongs(
                    (#[trigger] processor.rules@[r].buffers@[i]).0,
                    processor.rules@[r].network,
                    flow,
                ) ==> takes(
                    processor.rules@[r].buffers@[i].1@,
                    flow.time_received,
                    flow.bytes as nat * flow.sampling_rate as nat,
                    flow.packets as nat * flow.sampling_rate as nat,
                )
        },
{
    if room {
        assert forall|r: int, i: int|
            0 <= r < processor.rules@.len() && 0 <= i < processor.rules@[r].buffers@.len()
                && belongs(
                (#[trigger] processor.rules@[r].buffers@[i]).0,
                processor.rules@[r].network,
                flow,
            ) implies takes(
            processor.rules@[r].buffers@[i].1@,
            flow.time_received,
            flow.bytes as nat * flow.sampling_rate as nat,
            flow.packets as nat * flow.sampling_rate as nat,
        ) by {
            let rule = processor.rules@[r];
            let direction = rule.buffers@[i].0.direction;
            assert(flow_direction(rule.network, flow) == Some(direction));
            assert(rule.has_room(flow, direction));
            assert(rule.buffers@[i].1.has_room(
                flow.time_received,
                flow.byte_count() as u64,
                flow.packet_count() as u64,
            ));
        }
    } else if flow.bytes * flow.sampling_rate <= u64::MAX && flow.packets * flow.sampling_rate
        <= u64::MAX {
        assert(flow.fits());
        let r = choose|r: int|
            0 <= r < processor.rules@.len() && match flow_direction(
                (#[trigger] processor.rules@[r]).network,
                flow,
            ) {
                Some(direction) => !processor.rules@[r].has_room(flow, direction),
                None => false,
            };
        let rule = processor.rules@[r];
        let direction = flow_direction(rule.network, flow)->Some_0;
        let (bytes, packets) = (flow.byte_count() as u64, flow.packet_count() as u64);
        assert(exists|i: int|
            0 <= i < rule.buffers@.len() && is_counted(
                (#[trigger] rule.buffers@[i]).0,
                flow,
                direction,
            ) && !rule.buffers@[i].1.has_room(flow.time_received, bytes, packets));
        let i = choose|i: int|
            0 <= i < rule.buffers@.len() && is_counted(
                (#[trigger] rule.buffers@[i]).0,
                flow,
                direction,
            ) && !rule.buffers@[i].1.has_room(flow.time_received, bytes, packets);
        assert(belongs(processor.rules@[r].buffers@[i].0, processor.rules@[r].network, flow));
        assert(!takes(rule.buffers@[i].1@, flow.time_received, bytes as nat, packets as nat));
    }
}

/// Whether some buckets can count a flow without a sum that reaches two to the power of 64.
pub open spec fn takes(buckets: Seq<Bucket>, timestamp: u64, bytes: nat, packets: nat) -> bool {
    buckets.len() > 0 && {
        let bucket = buckets[timestamp as int % buckets.len() as int];
        bucket.timestamp == timestamp ==> bucket.bytes + bytes <= u64::MAX && bucket.packets
            + packets <= u64::MAX && bucket.flows + 1 <= u64::MAX
    }
}

/// The rules that watch an address are those whose network holds it, each once: those with fewer
/// leading bits first, and of one network the earlier ones first.
pub proof fn watching_rules_hold_the_address(
    processor: FlowProcessor,
    ip: IpAddr,
    indices: Vec<usize>,
)
    requires
        processor.valid(),
        call_ensures(FlowProcessor::matching_rules, (&processor, ip), indices),
    ensures
        forall|r: usize|
            #[trigger] indices@.contains(r) <==> r < processor.rules@.len()
                && processor.rules@[r as int].network.contains(ip),
        forall|a: int, b: int|
            0 <= a < b < indices@.len() ==> {
                let (x, y) = (#[trigger] indices@[a], #[trigger] indices@[b]);
                let p = processor.rules@[x as int].network;
                let q = processor.rules@[y as int].network;
                p.len < q.len || p == q && x < y
            },
{
    assert forall|a: int, b: int| 0 <= a < b < indices@.len() implies {
        let (x, y) = (#[trigger] indices@[a], #[trigger] indices@[b]);
        let (p, q) = (processor.rules@[x as int].network, processor.rules@[y as int].network);
        p.len < q.len || p == q && x < y
    } by {
        let (x, y) = (indices@[a], indices@[b]);
        assert(indices@.contains(x) && indices@.contains(y));
        assert(watches_before(processor.rules@, x, y));
        let (p, q) = (processor.rules@[x as int].network, processor.rules@[y as int].network);
        assert(processor.rules@[x as int].valid() && processor.rules@[y as int].valid());
        if p.len == q.len {
            lemma_cut(p, ip);
            lemma_cut(q, ip);
        }
    }
}

/// The number of flows that some rules have captured.
pub open spec fn all_captured(rules: Seq<ProcessedRule>) -> nat
    decreases rules.len(),
{
    if rules.len() == 0 {
        0
    } else {
        all_captured(rules.drop_last()) + rules.last().capture_buffer@.len()
    }
}

/// What is drained for a prefix and a direction are all flows that rules with the prefix have
/// captured in the direction, and those of one rule come in the order of their capture. They leave,
/// what is left keeps its order, and no flow is lost or doubled. Nothing else of a rule changes.
pub proof fn draining_moves_flows_out(
    processor: &mut FlowProcessor,
    prefix: &str,
    direction: Direction,
    flows: Vec<FlowRecord>,
)
    requires
        old(processor).valid(),
        call_ensures(FlowProcessor::drain_captured_flows, (processor, prefix, direction), flows),
    ensures
        final(processor).rules@.len() == old(processor).rules@.len(),
        all_captured(final(processor).rules@) + flows@.len() == all_captured(
            old(processor).rules@,
        ),
        forall|r: int, k: int|
            0 <= r < old(processor).rules@.len() && text_of_prefix(old(processor).rules@[r].prefix)
                == prefix@ && 0 <= k < old(processor).rules@[r].capture_buffer@.len() && (
            #[trigger] old(processor).rules@[r].capture_buffer@[k]).direction == direction
                ==> flows@.contains(old(processor).rules@[r].capture_buffer@[k].flow),
        forall|i: int|
            0 <= i < flows@.len() ==> exists|r: int, k: int|
                {
                    &&& 0 <= r < old(processor).rules@.len()
                    &&& text_of_prefix(old(processor).rules@[r].prefix) == prefix@
                    &&& 0 <= k < old(processor).rules@[r].capture_buffer@.len()
                    &&& #[trigger] old(processor).rules@[r].capture_buffer@[k] == (CapturedFlow {
                        flow: #[trigger] flows@[i],
                        direction,
                    })
                },
        forall|r: int|
            0 <= r < old(processor).rules@.len() ==> {
                let (before, after) = (
                    #[trigger] old(processor).rules@[r],
                    final(processor).rules@[r],
                );
                &&& after.prefix == before.prefix
                &&& after.network == before.network
                &&& after.labels == before.labels
                &&& after.buffers == before.buffers
                &&& after.capture_buffer_size == before.capture_buffer_size
                &&& text_of_prefix(before.prefix) != prefix@ ==> after == before
                &&& text_of_prefix(before.prefix) == prefix@ ==> after.capture_buffer@
                    == before.capture_buffer@.filter(|c: CapturedFlow| c.direction != direction)
            },
        forall|r: int|
            0 <= r < old(processor).rules@.len() && (forall|q: int|
                0 <= q < old(processor).rules@.len() ==> (text_of_prefix(
                    (#[trigger] old(processor).rules@[q]).prefix,
                ) == prefix@ <==> q == r)) ==> flows@ == (
            #[trigger] old(processor).rules@[r]).capture_buffer@.filter(
                |c: CapturedFlow| c.direction == direction,
            ).map_values(|c: CapturedFlow| c.flow),
{
    let (a, b) = (old(processor).rules@, final(processor).rules@);
    lemma_none_lost(a, b, prefix@, direction);
    assert forall|r: int, k: int|
        0 <= r < a.len() && text_of_prefix(a[r].prefix) == prefix@ && 0 <= k
            < a[r].capture_buffer@.len() && (#[trigger] a[r].capture_buffer@[k]).direction
            == direction implies flows@.contains(a[r].capture_buffer@[k].flow) by {
        lemma_captured_is_drained(a, prefix@, direction, r, k);
    }
    assert forall|i: int| 0 <= i < flows@.len() implies exists|r: int, k: int|
        {
            &&& 0 <= r < a.len()
            &&& text_of_prefix(a[r].prefix) == prefix@
            &&& 0 <= k < a[r].capture_buffer@.len()
            &&& #[trigger] a[r].capture_buffer@[k] == (CapturedFlow {
                flow: #[trigger] flows@[i],
                direction,
            })
        } by {
        lemma_drained_was_captured(a, prefix@, direction, i);
    }
    assert forall|r: int|
        0 <= r < a.len() && (forall|q: int|
            0 <= q < a.len() ==> (text_of_prefix((#[trigger] a[q]).prefix) == prefix@ <==> q
                == r)) implies flows@ == (#[trigger] a[r]).capture_buffer@.filter(
        |c: CapturedFlow| c.direction == direction,
    ).map_values(|c: CapturedFlow| c.flow) by {
        lemma_drained_of_one(a, prefix@, direction, r);
    }
}

/// Where one rule alone has a prefix, what is drained is what it has captured.
proof fn lemma_drained_of_one(
    rules: Seq<ProcessedRule>,
    prefix: Seq<char>,
    direction: Direction,
    r: int,
)
    requires
        forall|q: int|
            0 <= q < rules.len() ==> (text_of_prefix((#[trigger] rules[q]).prefix) == prefix <==> q
                == r),
    ensures
        drained(rules, prefix, direction) == if 0 <= r < rules.len() {
            rules[r].capture_buffer@.filter(|c: CapturedFlow| c.direction == direction).map_values(
                |c: CapturedFlow| c.flow,
            )
        } else {
            Seq::empty()
        },
    decreases rules.len(),
{
    if rules.len() > 0 {
        let shorter = rules.drop_last();
        assert(rules[rules.len() - 1] == rules.last());
        assert forall|q: int| 0 <= q < shorter.len() implies (text_of_prefix(
            (#[trigger] shorter[q]).prefix,
        ) == prefix <==> q == r) by {
            assert(shorter[q] == rules[q]);
        }
        lemma_drained_of_one(shorter, prefix, direction, r);
        assert(drained(rules, prefix, direction) =~= if 0 <= r < rules.len() {
            rules[r].captured(direction)
        } else {
            Seq::empty()
        });
    }
}

proof fn lemma_none_lost(
    before: Seq<ProcessedRule>,
    after: Seq<ProcessedRule>,
    prefix: Seq<char>,
    direction: Direction,
)
    requires
        are_drained_to(before, after, prefix, direction),
    ensures
        all_captured(after) + drained(before, prefix, direction).len() == all_captured(before),
    decreases before.len(),
{
    if before.len() > 0 {
        let (a, b) = (before.drop_last(), after.drop_last());
        assert forall|r: int| 0 <= r < a.len() implies if text_of_prefix((#[trigger] a[r]).prefix)
            == prefix {
            a[r].is_drained_to(b[r], direction)
        } else {
            b[r] == a[r]
        } by {
            assert(a[r] == before[r] && b[r] == after[r]);
        }
        lemma_none_lost(a, b, prefix, direction);
        let (x, y) = (before[before.len() - 1], after[before.len() - 1]);
        assert(before.last() == x && after.last() == y);
        lemma_filter_halves(x.capture_buffer@, direction);
    }
}

proof fn lemma_filter_halves(captured: Seq<CapturedFlow>, direction: Direction)
    ensures
        captured.filter(|c: CapturedFlow| c.direction == direction).len() + captured.filter(
            |c: CapturedFlow| c.direction != direction,
        ).len() == captured.len(),
    decreases captured.len(),
{
    reveal(Seq::filter);
    if captured.len() > 0 {
        lemma_filter_halves(captured.drop_last(), direction);
    }
}

proof fn lemma_filter_finds(captured: Seq<CapturedFlow>, direction: Direction, k: int)
    requires
        0 <= k < captured.len(),
        captured[k].direction == direction,
    ensures
        captured.filter(|c: CapturedFlow| c.direction == direction).contains(captured[k]),
    decreases captured.len(),
{
    reveal(Seq::filter);
    let shorter = captured.drop_last();
    let chosen = shorter.filter(|c: CapturedFlow| c.direction == direction);
    let all = captured.filter(|c: CapturedFlow| c.direction == direction);
    if k < shorter.len() {
        lemma_filter_finds(shorter, direction, k);
        let i = choose|i: int| 0 <= i < chosen.len() && chosen[i] == captured[k];
        assert(all[i] == captured[k]);
    } else {
        assert(all[chosen.len() as int] == captured[k]);
    }
}

proof fn lemma_captured_is_drained(
    rules: Seq<ProcessedRule>,
    prefix: Seq<char>,
    direction: Direction,
    r: int,
    k: int,
)
    requires
        0 <= r < rules.len(),
        text_of_prefix(rules[r].prefix) == prefix,
        0 <= k < rules[r].capture_buffer@.len(),
        rules[r].capture_buffer@[k].direction == direction,
    ensures
        drained(rules, prefix, direction).contains(rules[r].capture_buffer@[k].flow),
    decreases rules.len(),
{
    let shorter = rules.drop_last();
    let earlier = drained(shorter, prefix, direction);
    let all = drained(rules, prefix, direction);
    let flow = rules[r].capture_buffer@[k].flow;
    if r < shorter.len() {
        lemma_captured_is_drained(shorter, prefix, direction, r, k);
        let i = choose|i: int| 0 <= i < earlier.len() && earlier[i] == flow;
        assert(all[i] == flow);
    } else {
        let captured = rules[r].capture_buffer@;
        let in_direction = |c: CapturedFlow| c.direction == direction;
        let chosen = captured.filter(in_direction);
        lemma_filter_finds(captured, direction, k);
        let i = choose|i: int| 0 <= i < chosen.len() && chosen[i] == captured[k];
        assert(all[earlier.len() + i] == flow);
    }
}

proof fn lemma_drained_was_captured(
    rules: Seq<ProcessedRule>,
    prefix: Seq<char>,
    direction: Direction,
    i: int,
)
    requires
        0 <= i < drained(rules, prefix, direction).len(),
    ensures
        exists|r: int, k: int|
            {
                &&& 0 <= r < rules.len()
                &&& text_of_prefix(rules[r].prefix) == prefix
                &&& 0 <= k < rules[r].capture_buffer@.len()
                &&& #[trigger] rules[r].capture_buffer@[k] == (CapturedFlow {
                    flow: drained(rules, prefix, direction)[i],
                    direction,
                })
            },
    decreases rules.len(),
{
    if rules.len() > 0 {
        let shorter = rules.drop_last();
        let earlier = drained(shorter, prefix, direction);
        let flow = drained(rules, prefix, direction)[i];
        if i < earlier.len() {
            lemma_drained_was_captured(shorter, prefix, direction, i);
            let (r, k) = choose|r: int, k: int|
                {
                    &&& 0 <= r < shorter.len()
                    &&& text_of_prefix(shorter[r].prefix) == prefix
                    &&& 0 <= k < shorter[r].capture_buffer@.len()
                    &&& #[trigger] shorter[r].capture_buffer@[k] == (CapturedFlow {
                        flow: earlier[i],
                        direction,
                    })
                };
            assert(rules[r].capture_buffer@[k] == (CapturedFlow { flow, direction }));
        } else {
            let k = i - earlier.len();
            let r = rules.len() - 1;
            let captured = rules[r].capture_buffer@;
            let in_direction = |c: CapturedFlow| c.direction == direction;
            let chosen = captured.filter(in_direction);
            captured.lemma_filter_pred(in_direction, k);
            lemma_filtered_from(captured, direction, k);
            let m = choose|m: int| 0 <= m < captured.len() && captured[m] == chosen[k];
            assert(rules[r].capture_buffer@[m] == (CapturedFlow { flow, direction }));
        }
    }
}

/// For each buffer of each rule there is a snapshot, with the text of the rule's prefix, its
/// labels, the key of the buffer and the rates that the buffer has at that time. The snapshots of
/// earlier rules come first.
pub proof fn each_buffer_has_its_snapshot(
    processor: FlowProcessor,
    now: u64,
    snapshots: Vec<RateSnapshot>,
    r: int,
    i: int,
)
    requires
        processor.valid(),
        call_ensures(FlowProcessor::compute_all_rates, (&processor, now), snapshots),
        0 <= r < processor.rules@.len(),
        0 <= i < processor.rules@[r].buffers@.len(),
    ensures
        exists|n: int|
            buffers_before(processor.rules@, r) <= n < buffers_before(processor.rules@, r + 1)
                && n < snapshots@.len() && shows(
                #[trigger] snapshots@[n],
                processor.rules@[r],
                processor.rules@[r].buffers@[i],
                now,
            ),
{
    let n = place_of(processor.rules@, r, i);
    lemma_buffers_before(processor.rules@, r);
    assert(snapshots@[n].is_of(processor.rules@[r], i, now));
    assert(shows(snapshots@[n], processor.rules@[r], processor.rules@[r].buffers@[i], now));
}

/// Each snapshot is of a buffer of a rule.
pub proof fn each_snapshot_has_its_buffer(
    processor: FlowProcessor,
    now: u64,
    snapshots: Vec<RateSnapshot>,
    n: int,
)
    requires
        processor.valid(),
        call_ensures(FlowProcessor::compute_all_rates, (&processor, now), snapshots),
        0 <= n < snapshots@.len(),
    ensures
        exists|r: int, i: int|
            0 <= r < processor.rules@.len() && 0 <= i < processor.rules@[r].buffers@.len() && shows(
                snapshots@[n],
                processor.rules@[r],
                #[trigger] processor.rules@[r].buffers@[i],
                now,
            ),
{
    let rules = processor.rules@;
    lemma_place(rules, n);
    let (r, i) = choose|r: int, i: int|
        0 <= r < rules.len() && 0 <= i < rules[r].buffers@.len() && #[trigger] place_of(rules, r, i)
            == n;
    assert(snapshots@[n].is_of(rules[r], i, now));
    assert(shows(snapshots@[n], rules[r], rules[r].buffers@[i], now));
}

proof fn lemma_place(rules: Seq<ProcessedRule>, n: int)
    requires
        0 <= n < buffers_in(rules),
    ensures
        exists|r: int, i: int|
            0 <= r < rules.len() && 0 <= i < rules[r].buffers@.len() && #[trigger] place_of(
                rules,
                r,
                i,
            ) == n,
    decreases rules.len(),
{
    if rules.len() > 0 {
        let shorter = rules.drop_last();
        let last = rules.len() - 1;
        assert(rules.take(last) =~= shorter);
        if n < buffers_in(shorter) {
            lemma_place(shorter, n);
            let (r, i) = choose|r: int, i: int|
                0 <= r < shorter.len() && 0 <= i < shorter[r].buffers@.len() && #[trigger] place_of(
                    shorter,
                    r,
                    i,
                ) == n;
            assert(rules.take(r) =~= shorter.take(r));
            assert(place_of(rules, r, i) == n);
        } else {
            assert(place_of(rules, last, n - buffers_in(shorter)) == n);
        }
    }
}

/// Whether a snapshot shows the prefix and the labels of a rule, and the key of a buffer with the
/// rates that it has.
pub open spec fn shows(
    snapshot: RateSnapshot,
    rule: ProcessedRule,
    buffer: (BufferKey, RingBuffer),
    now: u64,
) -> bool {
    &&& snapshot.prefix@ == text_of_prefix(rule.prefix)
    &&& label_map(snapshot.labels) == label_map(rule.labels)
    &&& snapshot.protocol == buffer.0.protocol
    &&& snapshot.direction == buffer.0.direction
    &&& forall|rates: (Double, Double, Double)| #[trigger]
        call_ensures(RingBuffer::compute_rates, (&buffer.1, now), rates) ==> snapshot.bps == rates.0
            && snapshot.pps == rates.1 && snapshot.fps == rates.2
}

/// Whether a rule is that of a configured one before any flow: the same prefix and labels, nothing
/// captured and nothing counted, and one buffer, with a bucket for each second of the window, for
/// each category and direction that the thresholds list.
pub open spec fn starts_as(
    rule: ProcessedRule,
    config: RuleConfig,
    window: usize,
    capture_buffer_size: usize,
) -> bool {
    &&& rule.prefix == config.prefix
    &&& rule.network == config.prefix
    &&& label_map(rule.labels) == label_map(config.labels)
    &&& rule.capture_buffer@.len() == 0
    &&& rule.capture_buffer_size == capture_buffer_size
    &&& forall|i: int, j: int|
        0 <= i < config.thresholds@.len() && 0 <= j < config.thresholds@[i].1@.len()
            ==> has_buffer(
            rule,
            config.thresholds@[i].0,
            (#[trigger] config.thresholds@[i].1@[j]).0,
        )
    &&& forall|b: int|
        0 <= b < rule.buffers@.len() ==> is_listed(config, (#[trigger] rule.buffers@[b]).0)
    &&& forall|a: int, b: int|
        0 <= a < b < rule.buffers@.len() ==> (#[trigger] rule.buffers@[a]).0 != (
        #[trigger] rule.buffers@[b]).0
    &&& forall|b: int|
        0 <= b < rule.buffers@.len() ==> (#[trigger] rule.buffers@[b]).1@.len() == window
    &&& forall|b: int, k: int|
        0 <= b < rule.buffers@.len() && 0 <= k < window ==> #[trigger] rule.buffers@[b].1@[k] == (
        Bucket { timestamp: 0, bytes: 0, packets: 0, flows: 0 })
}

/// Whether a rule has a buffer for a category and a direction.
pub open spec fn has_buffer(
    rule: ProcessedRule,
    protocol: ProtocolCategory,
    direction: Direction,
) -> bool {
    exists|b: int|
        0 <= b < rule.buffers@.len() && (#[trigger] rule.buffers@[b]).0.protocol == protocol
            && rule.buffers@[b].0.direction == direction
}

/// Whether the thresholds of a configured rule list a category and a direction.
pub open spec fn is_listed(config: RuleConfig, key: BufferKey) -> bool {
    exists|i: int, j: int|
        0 <= i < config.thresholds@.len() && 0 <= j < config.thresholds@[i].1@.len()
            && config.thresholds@[i].0 == key.protocol && (
        #[trigger] config.thresholds@[i].1@[j]).0 == key.direction
}

/// A configuration is taken over exactly where each of its prefixes is a network. The rules then
/// are the configured ones, in their order, and the window is the configured one where that is not
/// 0. Otherwise nothing changes, and the error names the first prefix that is no network.
pub proof fn reloading_watches_the_configured_rules(
    processor: &mut FlowProcessor,
    config: Config,
    result: Result<(), HostBitsSet>,
)
    requires
        config.valid(),
        config.global.window.secs <= usize::MAX,
        call_ensures(FlowProcessor::reload_config, (processor, &config), result),
    ensures
        result is Ok <==> forall|r: int|
            0 <= r < config.rules@.len() ==> (#[trigger] config.rules@[r]).prefix.is_network(),
        match result {
            Ok(_) => {
                &&& final(processor).window_secs == if config.global.window.secs > 0 {
                    config.global.window.secs as int
                } else {
                    old(processor).window_secs as int
                }
                &&& final(processor).rules@.len() == config.rules@.len()
                &&& forall|r: int|
                    0 <= r < config.rules@.len() ==> starts_as(
                        #[trigger] final(processor).rules@[r],
                        config.rules@[r],
                        final(processor).window_secs,
                        config.global.capture_buffer_size,
                    )
            },
            Err(error) => {
                &&& *final(processor) == *old(processor)
                &&& exists|r: int|
                    {
                        &&& 0 <= r < config.rules@.len()
                        &&& (#[trigger] config.rules@[r]).prefix == error.prefix
                        &&& !error.prefix.is_network()
                        &&& forall|q: int|
                            0 <= q < r ==> (#[trigger] config.rules@[q]).prefix.is_network()
                    }
            },
        },
{
    match result {
        Ok(_) => {
            let window = final(processor).window_secs;
            assert forall|r: int| 0 <= r < config.rules@.len() implies starts_as(
                #[trigger] final(processor).rules@[r],
                config.rules@[r],
                window,
                config.global.capture_buffer_size,
            ) by {
                assert(config.rules@[r].prefix.is_network());
                assert(final(processor).rules@[r].valid());
                lemma_fresh_starts(
                    final(processor).rules@[r],
                    config.rules@[r],
                    window,
                    config.global.capture_buffer_size,
                );
            }
        },
        Err(error) => {
            let r = choose|r: int|
                #[trigger] is_first_refused(config.rules@, r)
                    && config.rules@[r].prefix == error.prefix;
            assert(!config.rules@[r].prefix.is_network());
        },
    }
}

proof fn lemma_fresh_starts(
    rule: ProcessedRule,
    config: RuleConfig,
    window: usize,
    capture_buffer_size: usize,
)
    requires
        rule.is_fresh(config, window, capture_buffer_size),
        rule.valid(),
    ensures
        starts_as(rule, config, window, capture_buffer_size),
{
    let keys = threshold_keys(config.thresholds@);
    assert(buffer_keys(rule.buffers@) == keys);
    assert forall|i: int, j: int|
        0 <= i < config.thresholds@.len() && 0 <= j
            < config.thresholds@[i].1@.len() implies has_buffer(
        rule,
        config.thresholds@[i].0,
        (#[trigger] config.thresholds@[i].1@[j]).0,
    ) by {
        lemma_threshold_has_key(config.thresholds@, i, j);
        let key = BufferKey {
            protocol: config.thresholds@[i].0,
            direction: config.thresholds@[i].1@[j].0,
        };
        let b = choose|b: int| 0 <= b < keys.len() && keys[b] == key;
        assert(buffer_keys(rule.buffers@)[b] == rule.buffers@[b].0);
        assert(rule.buffers@[b].0 == key);
    }
    assert forall|b: int| 0 <= b < rule.buffers@.len() implies is_listed(
        config,
        (#[trigger] rule.buffers@[b]).0,
    ) by {
        assert(buffer_keys(rule.buffers@)[b] == rule.buffers@[b].0);
        lemma_key_is_listed(config.thresholds@, b);
    }
    assert forall|a: int, b: int| 0 <= a < b < rule.buffers@.len() implies (
    #[trigger] rule.buffers@[a]).0 != (#[trigger] rule.buffers@[b]).0 by {
        assert(buffer_keys(rule.buffers@)[a] != buffer_keys(rule.buffers@)[b]);
    }
    assert forall|b: int, k: int|
        0 <= b < rule.buffers@.len() && 0 <= k
            < window implies #[trigger] rule.buffers@[b].1@[k] == (Bucket {
        timestamp: 0,
        bytes: 0,
        packets: 0,
        flows: 0,
    }) by {
        assert(rule.buffers@[b].1@ == Seq::new(window as nat, |i: int| Bucket::empty(0)));
    }
}

proof fn lemma_threshold_has_key(
    thresholds: Seq<(ProtocolCategory, Vec<(Direction, DirectionMetrics)>)>,
    i: int,
    j: int,
)
    requires
        0 <= i < thresholds.len(),
        0 <= j < thresholds[i].1@.len(),
    ensures
        threshold_keys(thresholds).contains(
            BufferKey { protocol: thresholds[i].0, direction: thresholds[i].1@[j].0 },
        ),
    decreases thresholds.len(),
{
    let shorter = thresholds.drop_last();
    let key = BufferKey { protocol: thresholds[i].0, direction: thresholds[i].1@[j].0 };
    let earlier = threshold_keys(shorter);
    let all = threshold_keys(thresholds);
    if i < shorter.len() {
        lemma_threshold_has_key(shorter, i, j);
        let b = choose|b: int| 0 <= b < earlier.len() && earlier[b] == key;
        assert(all[b] == key);
    } else {
        assert(all[earlier.len() + j] == key);
    }
}

proof fn lemma_key_is_listed(
    thresholds: Seq<(ProtocolCategory, Vec<(Direction, DirectionMetrics)>)>,
    b: int,
)
    requires
        0 <= b < threshold_keys(thresholds).len(),
    ensures
        exists|i: int, j: int|
            0 <= i < thresholds.len() && 0 <= j < thresholds[i].1@.len() && thresholds[i].0
                == threshold_keys(thresholds)[b].protocol && (
            #[trigger] thresholds[i].1@[j]).0 == threshold_keys(thresholds)[b].direction,
    decreases thresholds.len(),
{
    if thresholds.len() > 0 {
        let shorter = thresholds.drop_last();
        let earlier = threshold_keys(shorter);
        let key = threshold_keys(thresholds)[b];
        if b < earlier.len() {
            lemma_key_is_listed(shorter, b);
            let (i, j) = choose|i: int, j: int|
                0 <= i < shorter.len() && 0 <= j < shorter[i].1@.len() && shorter[i].0
                    == earlier[b].protocol && (#[trigger] shorter[i].1@[j]).0
                    == earlier[b].direction;
            assert(thresholds[i].1@[j].0 == key.direction);
        } else {
            let i = thresholds.len() - 1;
            let j = b - earlier.len();
            assert(thresholds[i].1@[j].0 == key.direction);
        }
    }
}

/// A single rule is taken over exactly where its prefix is a network, and then starts as it is
/// configured.
pub proof fn a_rule_starts_as_configured(
    config: RuleConfig,
    window: usize,
    capture_buffer_size: usize,
    result: Result<ProcessedRule, HostBitsSet>,
)
    requires
        config.valid(),
        call_ensures(ProcessedRule::from_config, (&config, window, capture_buffer_size), result),
    ensures
        result is Ok <==> config.prefix.is_network(),
        match result {
            Ok(rule) => starts_as(rule, config, window, capture_buffer_size),
            Err(error) => error.prefix == config.prefix,
        },
{
    if let Ok(rule) = result {
        lemma_fresh_starts(rule, config, window, capture_buffer_size);
    }
}

/// A new processor watches nothing, and can be given flows and configurations.
pub proof fn a_new_processor_watches_nothing(window: usize, processor: FlowProcessor)
    requires
        call_ensures(FlowProcessor::new, (window,), processor),
    ensures
        processor.rules@.len() == 0,
        processor.window_secs == window,
        processor.valid(),
{
}

/// What is drained of some rules and then of others is what is drained of all of them: the flows of
/// earlier rules come first.
pub proof fn earlier_rules_are_drained_first(
    rules: Seq<ProcessedRule>,
    others: Seq<ProcessedRule>,
    prefix: Seq<char>,
    direction: Direction,
)
    ensures
        drained(rules + others, prefix, direction) == drained(rules, prefix, direction) + drained(
            others,
            prefix,
            direction,
        ),
    decreases others.len(),
{
    let all = rules + others;
    if others.len() == 0 {
        assert(all =~= rules);
        assert(drained(rules, prefix, direction) + drained(others, prefix, direction) =~= drained(
            rules,
            prefix,
            direction,
        ));
    } else {
        let shorter = others.drop_last();
        assert(all.drop_last() =~= rules + shorter);
        assert(all.last() == others.last());
        earlier_rules_are_drained_first(rules, shorter, prefix, direction);
        assert(drained(all, prefix, direction) =~= drained(rules, prefix, direction) + drained(
            others,
            prefix,
            direction,
        ));
    }
}

/// The number of buffers of the first `n` rules.
pub open spec fn buffers_before(rules: Seq<ProcessedRule>, n: int) -> int
    decreases n,
{
    if n <= 0 {
        0
    } else {
        buffers_before(rules, n - 1) + rules[n - 1].buffers@.len()
    }
}

proof fn lemma_buffers_before(rules: Seq<ProcessedRule>, n: int)
    requires
        0 <= n <= rules.len(),
    ensures
        buffers_in(rules.take(n)) == buffers_before(rules, n),
    decreases n,
{
    if n > 0 {
        lemma_buffers_before(rules, n - 1);
        assert(rules.take(n).drop_last() =~= rules.take(n - 1));
    }
}

} // verus!
