//! What holds of the records that the flows become, and of the time that passes between them.

use crate::config_laws::listed_rates_are_found;
use crate::flow::{CommonFlow, FlowRecord};
use crate::net::IpAddr;
use crate::time::{Duration, Instant};
use vstd::prelude::*;

verus! {

/// A record keeps what the flow has. What the flow lacks is 0, and a missing sampling rate is 1.
/// The time is cut to whole seconds.
pub proof fn a_record_keeps_the_flow(flow: CommonFlow, record: FlowRecord)
    requires
        flow.time_received_ns is Some,
        flow.time_received_ns->Some_0 / 1_000_000_000 <= u64::MAX,
        call_ensures(FlowRecord::from_common_flow, (&flow,), record),
    ensures
        match flow.src_addr {
            Some(address) => record.src_ip == address,
            None => record.src_ip == IpAddr::V4(0),
        },
        match flow.dst_addr {
            Some(address) => record.dst_ip == address,
            None => record.dst_ip == IpAddr::V4(0),
        },
        match flow.src_port {
            Some(port) => record.src_port == port,
            None => record.src_port == 0,
        },
        match flow.dst_port {
            Some(port) => record.dst_port == port,
            None => record.dst_port == 0,
        },
        match flow.proto {
            Some(protocol) => record.protocol == protocol,
            None => record.protocol == 0,
        },
        match flow.tcp_flags {
            Some(flags) => record.tcp_flags == flags,
            None => record.tcp_flags == 0,
        },
        match flow.sampling_rate {
            Some(rate) => record.sampling_rate == rate,
            None => record.sampling_rate == 1,
        },
        record.bytes == flow.bytes,
        record.packets == flow.packets,
        record.time_received * 1_000_000_000 <= flow.time_received_ns->Some_0,
        flow.time_received_ns->Some_0 < (record.time_received + 1) * 1_000_000_000,
{
}

/// The rate that is configured for an exporter replaces the one in its flows, and changes nothing
/// else. A flow without an exporter's address, or of one that has no configured rate, keeps its
/// own.
pub proof fn a_configured_rate_replaces_that_of_the_flow(
    flow: CommonFlow,
    rates: Vec<(IpAddr, u32)>,
    plain: FlowRecord,
    record: FlowRecord,
)
    requires
        flow.time_received_ns is Some,
        call_ensures(FlowRecord::from_common_flow, (&flow,), plain),
        call_ensures(FlowRecord::received, (&flow, &rates), record),
    ensures
        record == (FlowRecord { sampling_rate: record.sampling_rate, ..plain }),
        flow.sampler_address is None ==> record.sampling_rate == plain.sampling_rate,
        (forall|i: int|
            0 <= i < rates@.len() ==> Some((#[trigger] rates@[i]).0) != flow.sampler_address)
            ==> record.sampling_rate == plain.sampling_rate,
        forall|i: int|
            0 <= i < rates@.len() && Some((#[trigger] rates@[i]).0) == flow.sampler_address && (
            forall|j: int|
                0 <= j < rates@.len() && j != i ==> (#[trigger] rates@[j]).0 != rates@[i].0)
                ==> record.sampling_rate == rates@[i].1,
{
    if let Some(exporter) = flow.sampler_address {
        listed_rates_are_found(rates@, exporter);
    }
}

/// Each sampled byte and each sampled packet stands for as many as the sampling rate says.
pub proof fn samples_stand_for_many(record: FlowRecord, bytes: u64, packets: u64, fit: bool)
    requires
        call_ensures(FlowRecord::sampled_bytes, (&record,), bytes),
        call_ensures(FlowRecord::sampled_packets, (&record,), packets),
        call_ensures(FlowRecord::counts_fit, (&record,), fit),
    ensures
        bytes == record.bytes * record.sampling_rate,
        packets == record.packets * record.sampling_rate,
        fit,
{
}

/// Two counts fit exactly where each product is below two to the power of 64.
pub proof fn counts_that_fit(record: FlowRecord, fit: bool)
    requires
        call_ensures(FlowRecord::counts_fit, (&record,), fit),
    ensures
        fit <==> record.bytes * record.sampling_rate < 0x1_0000_0000_0000_0000
            && record.packets * record.sampling_rate < 0x1_0000_0000_0000_0000,
{
}

/// A span has passed where at least its seconds and nanoseconds lie between the two points, and
/// the empty one always has. What has passed at one point has passed at all later ones, and a
/// shorter span has passed where a longer one has.
pub proof fn spans_pass(
    now: Instant,
    later: Instant,
    since: Instant,
    span: Duration,
    shorter: Duration,
    at: bool,
    at_later: bool,
    of_shorter: bool,
)
    requires
        now.nanos <= later.nanos,
        shorter.secs < span.secs || shorter.secs == span.secs && shorter.nanos <= span.nanos,
        shorter.nanos < 1_000_000_000,
        call_ensures(Instant::has_passed, (now, since, span), at),
        call_ensures(Instant::has_passed, (later, since, span), at_later),
        call_ensures(Instant::has_passed, (now, since, shorter), of_shorter),
    ensures
        at <==> (now.nanos - since.nanos >= span.secs * 1_000_000_000 + span.nanos || span.secs == 0
            && span.nanos == 0),
        at ==> at_later,
        at ==> of_shorter,
{
}

/// A span of whole seconds has these seconds and no more.
pub proof fn spans_of_whole_seconds(secs: u64, span: Duration, again: u64)
    requires
        call_ensures(Duration::from_secs, (secs,), span),
        call_ensures(Duration::as_secs, (&span,), again),
    ensures
        again == secs,
        span.nanos == 0,
{
}

} // verus!
