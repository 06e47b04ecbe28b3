use netalert::flow::{CommonFlow, FlowRecord};
use netalert::net::IpAddr;

fn common() -> CommonFlow {
    CommonFlow {
        sampler_address: Some(IpAddr::V4(0x0a010101)),
        time_received_ns: Some(1_700_000_000_999_999_999),
        src_addr: Some(IpAddr::V4(0xc0000201)),
        dst_addr: Some(IpAddr::V6(1)),
        src_port: Some(53),
        dst_port: Some(443),
        proto: Some(6),
        tcp_flags: Some(0x12),
        bytes: 1500,
        packets: 2,
        sampling_rate: Some(100),
    }
}

#[test]
fn record_takes_over_the_fields() {
    let record = FlowRecord::from_common_flow(&common());
    assert_eq!(
        record,
        FlowRecord {
            src_ip: IpAddr::V4(0xc0000201),
            dst_ip: IpAddr::V6(1),
            src_port: 53,
            dst_port: 443,
            protocol: 6,
            tcp_flags: 0x12,
            bytes: 1500,
            packets: 2,
            time_received: 1_700_000_000,
            sampling_rate: 100,
        }
    );
    assert_eq!(record.sampled_bytes(), 150_000);
    assert_eq!(record.sampled_packets(), 200);
}

#[test]
fn missing_fields_get_defaults() {
    let bare = CommonFlow {
        sampler_address: None,
        time_received_ns: Some(0),
        src_addr: None,
        dst_addr: None,
        src_port: None,
        dst_port: None,
        proto: None,
        tcp_flags: None,
        bytes: 7,
        packets: 1,
        sampling_rate: None,
    };
    let record = FlowRecord::from_common_flow(&bare);
    assert_eq!(record.src_ip, IpAddr::V4(0));
    assert_eq!(record.dst_ip, IpAddr::V4(0));
    assert_eq!(record.src_port, 0);
    assert_eq!(record.protocol, 0);
    assert_eq!(record.tcp_flags, 0);
    assert_eq!(record.sampling_rate, 1);
    assert_eq!(record.sampled_bytes(), 7);
}

#[test]
fn configured_rate_of_the_exporter_wins() {
    let rates = vec![(IpAddr::V4(0x0a010101), 1000), (IpAddr::V4(0x0a010102), 7)];
    assert_eq!(FlowRecord::received(&common(), &rates).sampling_rate, 1000);
    let mut flow = common();
    flow.sampler_address = Some(IpAddr::V4(0x0a010103));
    assert_eq!(FlowRecord::received(&flow, &rates).sampling_rate, 100);
    flow.sampler_address = None;
    assert_eq!(FlowRecord::received(&flow, &rates).sampling_rate, 100);
}

#[test]
fn counts_that_do_not_fit_are_seen() {
    let mut record = FlowRecord::from_common_flow(&common());
    assert!(record.counts_fit());
    record.bytes = u64::MAX;
    assert!(!record.counts_fit());
    record.sampling_rate = 1;
    assert!(record.counts_fit());
    record.packets = u64::MAX / 2 + 1;
    record.sampling_rate = 2;
    record.bytes = 0;
    assert!(!record.counts_fit());
}
