//! The flows that the exporters report.

use crate::config::{sampling_rate_at, sampling_rate_for};
use crate::net::IpAddr;
use vstd::prelude::*;

verus! {

/// A flow as the collectors hand it out, where most fields may be missing.
#[derive(Clone, Copy, Debug, PartialEq, Eq, Structural)]
pub struct CommonFlow {
    pub sampler_address: Option<IpAddr>,
    pub time_received_ns: Option<u128>,
    pub src_addr: Option<IpAddr>,
    pub dst_addr: Option<IpAddr>,
    pub src_port: Option<u16>,
    pub dst_port: Option<u16>,
    pub proto: Option<u8>,
    pub tcp_flags: Option<u8>,
    pub bytes: u64,
    pub packets: u64,
    pub sampling_rate: Option<u32>,
}

/// A flow as it is counted: the time is in seconds, and one sampled byte or packet stands for as
/// many as the sampling rate says.
#[derive(Clone, Copy, Debug, PartialEq, Eq, Structural)]
pub struct FlowRecord {
    pub src_ip: IpAddr,
    pub dst_ip: IpAddr,
    pub src_port: u16,
    pub dst_port: u16,
    pub protocol: u8,
    pub tcp_flags: u8,
    pub bytes: u64,
    pub packets: u64,
    pub time_received: u64,
    pub sampling_rate: u32,
}

/// The value of an optional field, or what stands for a missing one.
pub open spec fn value_or<T>(value: Option<T>, missing: T) -> T {
    match value {
        Some(v) => v,
        None => missing,
    }
}

impl FlowRecord {
    /// The bytes that the flow stands for.
    pub open spec fn byte_count(self) -> nat {
        self.bytes as nat * self.sampling_rate as nat
    }

    /// The packets that the flow stands for.
    pub open spec fn packet_count(self) -> nat {
        self.packets as nat * self.sampling_rate as nat
    }

    /// Whether both counts fit in 64 bits.
    pub open spec fn fits(self) -> bool {
        self.byte_count() <= u64::MAX && self.packet_count() <= u64::MAX
    }

    /// The record of a flow whose time of receipt is known. Missing addresses become `0.0.0.0`,
    /// missing ports, protocol and flags 0, and a missing sampling rate 1.
    pub fn from_common_flow(flow: &CommonFlow) -> (record: FlowRecord)
        requires
            flow.time_received_ns is Some,
        ensures
            record == (FlowRecord {
                src_ip: value_or(flow.src_addr, IpAddr::V4(0)),
                dst_ip: value_or(flow.dst_addr, IpAddr::V4(0)),
                src_port: value_or(flow.src_port, 0),
                dst_port: value_or(flow.dst_port, 0),
                protocol: value_or(flow.proto, 0),
                tcp_flags: value_or(flow.tcp_flags, 0),
                bytes: flow.bytes,
                packets: flow.packets,
                time_received: (flow.time_received_ns->Some_0 / 1_000_000_000) as u64,
                sampling_rate: value_or(flow.sampling_rate, 1),
            }),
    {
        let received: u64 = (flow.time_received_ns.unwrap() / 1_000_000_000) as u64;
        FlowRecord {
            src_ip: flow.src_addr.unwrap_or(IpAddr::V4(0)),
            dst_ip: flow.dst_addr.unwrap_or(IpAddr::V4(0)),
            src_port: flow.src_port.unwrap_or(0),
            dst_port: flow.dst_port.unwrap_or(0),
            protocol: flow.proto.unwrap_or(0),
            tcp_flags: flow.tcp_flags.unwrap_or(0),
            bytes: flow.bytes,
            packets: flow.packets,
            time_received: received,
            sampling_rate: flow.sampling_rate.unwrap_or(1),
        }
    }

    /// The record of a flow whose time of receipt is known, with the sampling rate that is
    /// configured for the exporter, where one is.
    pub fn received(flow: &CommonFlow, rates: &Vec<(IpAddr, u32)>) -> (record: FlowRecord)
        requires
            flow.time_received_ns is Some,
        ensures
            record == (FlowRecord {
                src_ip: value_or(flow.src_addr, IpAddr::V4(0)),
                dst_ip: value_or(flow.dst_addr, IpAddr::V4(0)),
                src_port: value_or(flow.src_port, 0),
                dst_port: value_or(flow.dst_port, 0),
                protocol: value_or(flow.proto, 0),
                tcp_flags: value_or(flow.tcp_flags, 0),
                bytes: flow.bytes,
                packets: flow.packets,
                time_received: (flow.time_received_ns->Some_0 / 1_000_000_000) as u64,
                sampling_rate: match flow.sampler_address {
                    Some(exporter) => value_or(
                        sampling_rate_at(rates@, exporter),
                        value_or(flow.sampling_rate, 1),
                    ),
                    None => value_or(flow.sampling_rate, 1),
                },
            }),
    {
        let mut record: FlowRecord = FlowRecord::from_common_flow(flow);
        if let Some(exporter) = flow.sampler_address {
            if let Some(rate) = sampling_rate_for(rates, exporter) {
                record.sampling_rate = rate;
            }
        }
        record
    }

    /// The bytes that the flow stands for.
    pub fn sampled_bytes(&self) -> (count: u64)
        requires
            self.byte_count() <= u64::MAX,
        ensures
            count == self.byte_count(),
    {
        self.bytes * self.sampling_rate as u64
    }

    /// The packets that the flow stands for.
    pub fn sampled_packets(&self) -> (count: u64)
        requires
            self.packet_count() <= u64::MAX,
        ensures
            count == self.packet_count(),
    {
        self.packets * self.sampling_rate as u64
    }

    /// Whether both counts fit in 64 bits.
    pub fn counts_fit(&self) -> (b: bool)
        ensures
            b == self.fits(),
    {
        self.bytes.checked_mul(self.sampling_rate as u64).is_some() && self.packets.checked_mul(
            self.sampling_rate as u64,
        ).is_some()
    }
}

} // verus!
