use fxhash::FxHashMap;
use netalert::config::{
    Config, Direction, DirectionMetrics, GlobalConfig, MetricThresholds, ProtocolCategory,
    RuleConfig, ThresholdPair,
};
use netalert::double::Double;
use netalert::flow::FlowRecord;
use netalert::net::{IpAddr, Prefix};
use netalert::processor::{BufferKey, FlowProcessor, HostBitsSet, ProcessedRule};
use netalert::time::Duration;

fn number(x: f64) -> Double {
    Double::from_bits(x.to_bits())
}

fn v4(a: u8, b: u8, c: u8, d: u8) -> IpAddr {
    IpAddr::V4(u32::from_be_bytes([a, b, c, d]))
}

fn metrics() -> DirectionMetrics {
    DirectionMetrics {
        metrics: MetricThresholds {
            bps: Some(ThresholdPair { trigger: number(1.0), recover: None }),
            pps: None,
            fps: None,
        },
    }
}

fn rule(addr: IpAddr, len: u8) -> RuleConfig {
    RuleConfig {
        prefix: Prefix { addr, len },
        labels: FxHashMap::default(),
        alert_policy: None,
        thresholds: vec![
            (
                ProtocolCategory::Any,
                vec![(Direction::Inbound, metrics()), (Direction::Outbound, metrics())],
            ),
            (ProtocolCategory::Udp, vec![(Direction::Inbound, metrics())]),
        ],
    }
}

fn config(window: u64, capture_buffer_size: usize, rules: Vec<RuleConfig>) -> Config {
    Config {
        global: GlobalConfig {
            evaluation_interval: Duration::from_secs(1),
            window: Duration::from_secs(window),
            alert_script: None,
            capture_buffer_size,
            mitigation_update_interval: Duration::from_secs(30),
        },
        exporters: FxHashMap::default(),
        alert_policies: FxHashMap::default(),
        rules,
    }
}

fn flow(src_ip: IpAddr, dst_ip: IpAddr, protocol: u8, bytes: u64) -> FlowRecord {
    FlowRecord {
        src_ip,
        dst_ip,
        src_port: 1234,
        dst_port: 80,
        protocol,
        tcp_flags: 0,
        bytes,
        packets: 1,
        time_received: 1000,
        sampling_rate: 10,
    }
}

fn loaded(c: &Config) -> FlowProcessor {
    let mut processor = FlowProcessor::new(10);
    processor.reload_config(c).unwrap();
    processor
}

#[test]
fn new_processor_is_empty() {
    let processor = FlowProcessor::new(10);
    assert!(processor.rules.is_empty());
    assert!(processor.matching_rules(v4(10, 0, 0, 1)).is_empty());
    assert!(processor.compute_all_rates(5).is_empty());
}

#[test]
fn rule_from_config_has_a_buffer_for_each_threshold() {
    let mut c = rule(v4(10, 0, 0, 0), 24);
    c.labels.insert("segment".to_string(), "customer".to_string());
    let r = ProcessedRule::from_config(&c, 10, 500).unwrap();
    assert_eq!(r.network, c.prefix);
    assert_eq!(r.labels.get("segment"), Some(&"customer".to_string()));
    let keys: Vec<BufferKey> = r.buffers.iter().map(|b| b.0).collect();
    assert_eq!(
        keys,
        vec![
            BufferKey { protocol: ProtocolCategory::Any, direction: Direction::Inbound },
            BufferKey { protocol: ProtocolCategory::Any, direction: Direction::Outbound },
            BufferKey { protocol: ProtocolCategory::Udp, direction: Direction::Inbound },
        ]
    );
    assert!(r.capture_buffer.is_empty());
    assert_eq!(r.capture_buffer_size, 500);
}

#[test]
fn prefix_with_host_bits_is_refused() {
    let c = rule(v4(10, 0, 0, 5), 24);
    match ProcessedRule::from_config(&c, 10, 500) {
        Err(error) => {
            assert_eq!(error, HostBitsSet { prefix: c.prefix });
            assert_eq!(
                error.message(),
                "Invalid prefix 10.0.0.5/24: IP network address has host bits set"
            );
        }
        Ok(_) => panic!("accepted"),
    }
}

#[test]
fn refused_reload_changes_nothing() {
    let mut processor = loaded(&config(10, 500, vec![rule(v4(10, 0, 0, 0), 24)]));
    processor.process_flow(&flow(v4(1, 1, 1, 1), v4(10, 0, 0, 1), 6, 100));
    let bad = config(
        20,
        1,
        vec![rule(v4(10, 0, 0, 0), 8), rule(v4(10, 0, 0, 9), 31), rule(v4(10, 0, 0, 9), 30)],
    );
    let error = processor.reload_config(&bad).unwrap_err();
    assert_eq!(error.prefix, Prefix { addr: v4(10, 0, 0, 9), len: 31 });
    assert_eq!(processor.rules.len(), 1);
    assert_eq!(processor.rules[0].capture_buffer.len(), 1);
    assert_eq!(processor.rules[0].capture_buffer_size, 500);
    assert_eq!(processor.matching_rules(v4(10, 0, 0, 77)), vec![0]);
}

#[test]
fn window_of_no_seconds_keeps_the_present_one() {
    let mut processor = FlowProcessor::new(10);
    processor.reload_config(&config(0, 500, vec![rule(v4(10, 0, 0, 0), 24)])).unwrap();
    processor.process_flow(&flow(v4(1, 1, 1, 1), v4(10, 0, 0, 1), 6, 100));
    assert_eq!(processor.compute_all_rates(1000)[0].pps, number(1.0));
    processor.reload_config(&config(5, 500, vec![rule(v4(10, 0, 0, 0), 24)])).unwrap();
    processor.process_flow(&flow(v4(1, 1, 1, 1), v4(10, 0, 0, 1), 6, 100));
    assert_eq!(processor.compute_all_rates(1000)[0].pps, number(2.0));
}

#[test]
fn overlapping_rules_match_from_the_shortest_network_on() {
    let processor = loaded(&config(
        10,
        500,
        vec![
            rule(v4(10, 0, 0, 7), 32),
            rule(v4(10, 0, 0, 0), 8),
            rule(v4(10, 0, 0, 0), 24),
            rule(v4(10, 0, 0, 0), 8),
            rule(v4(0, 0, 0, 0), 0),
            rule(v4(10, 0, 1, 0), 24),
            rule(IpAddr::V6(0), 0),
        ],
    ));
    assert_eq!(processor.matching_rules(v4(10, 0, 0, 7)), vec![4, 1, 3, 2, 0]);
    assert_eq!(processor.matching_rules(v4(10, 0, 1, 7)), vec![4, 1, 3, 5]);
    assert_eq!(processor.matching_rules(v4(192, 0, 2, 1)), vec![4]);
    assert_eq!(processor.matching_rules(IpAddr::V6(0x0a000007)), vec![6]);
}

#[test]
fn ipv6_rules_match() {
    let net = 0x2001_0db8_0000_0000_0000_0000_0000_0000u128;
    let processor = loaded(&config(
        10,
        500,
        vec![rule(IpAddr::V6(net), 32), rule(IpAddr::V6(net | 1), 128)],
    ));
    assert_eq!(processor.matching_rules(IpAddr::V6(net | 1)), vec![0, 1]);
    assert_eq!(processor.matching_rules(IpAddr::V6(net | 2)), vec![0]);
    assert!(processor.matching_rules(IpAddr::V6(1)).is_empty());
    assert_eq!(processor.compute_all_rates(0)[0].prefix, "2001:db8::/32");
}

#[test]
fn flows_are_counted_by_direction_and_category() {
    let mut processor = loaded(&config(10, 500, vec![rule(v4(10, 0, 0, 0), 24)]));
    let (inside, outside) = (v4(10, 0, 0, 1), v4(192, 0, 2, 1));
    processor.process_flow(&flow(outside, inside, 17, 100));
    processor.process_flow(&flow(outside, inside, 6, 100));
    processor.process_flow(&flow(inside, outside, 17, 50));
    processor.process_flow(&flow(inside, v4(10, 0, 0, 2), 17, 1));
    processor.process_flow(&flow(outside, v4(192, 0, 2, 2), 17, 1));
    let rates = processor.compute_all_rates(1000);
    assert_eq!(rates.len(), 3);
    assert_eq!(rates[0].prefix, "10.0.0.0/24");
    assert_eq!(rates[0].direction, Direction::Inbound);
    assert_eq!(rates[0].bps, number(2000.0 * 8.0 / 10.0));
    assert_eq!(rates[0].pps, number(2.0));
    assert_eq!(rates[0].fps, number(0.2));
    assert_eq!(rates[1].direction, Direction::Outbound);
    assert_eq!(rates[1].bps, number(500.0 * 8.0 / 10.0));
    assert_eq!(rates[2].protocol, ProtocolCategory::Udp);
    assert_eq!(rates[2].bps, number(1000.0 * 8.0 / 10.0));
    assert_eq!(processor.rules[0].capture_buffer.len(), 3);
}

#[test]
fn direction_without_thresholds_is_not_captured() {
    let mut r = rule(v4(10, 0, 0, 0), 24);
    r.thresholds = vec![(ProtocolCategory::Udp, vec![(Direction::Inbound, metrics())])];
    let mut processor = loaded(&config(10, 500, vec![r]));
    let (inside, outside) = (v4(10, 0, 0, 1), v4(192, 0, 2, 1));
    processor.process_flow(&flow(inside, outside, 17, 50));
    assert!(processor.rules[0].capture_buffer.is_empty());
    processor.process_flow(&flow(outside, inside, 6, 50));
    assert_eq!(processor.rules[0].capture_buffer.len(), 1);
    assert_eq!(processor.compute_all_rates(1000)[0].fps, number(0.0));
}

#[test]
fn capture_holds_the_latest_flows() {
    let mut processor = loaded(&config(10, 3, vec![rule(v4(10, 0, 0, 0), 24)]));
    for bytes in 1..=5 {
        processor.process_flow(&flow(v4(192, 0, 2, 1), v4(10, 0, 0, 1), 17, bytes));
    }
    let kept: Vec<u64> = processor.rules[0].capture_buffer.iter().map(|c| c.flow.bytes).collect();
    assert_eq!(kept, vec![3, 4, 5]);
}

#[test]
fn capture_for_none_holds_nothing() {
    let mut processor = loaded(&config(10, 0, vec![rule(v4(10, 0, 0, 0), 24)]));
    for bytes in 1..=5 {
        processor.process_flow(&flow(v4(192, 0, 2, 1), v4(10, 0, 0, 1), 17, bytes));
        assert!(processor.rules[0].capture_buffer.is_empty());
    }
    assert_eq!(processor.compute_all_rates(1000)[0].fps, number(0.5));
    assert!(processor.drain_captured_flows("10.0.0.0/24", Direction::Inbound).is_empty());
}

#[test]
fn drain_takes_one_direction_of_one_prefix() {
    let mut processor = loaded(&config(
        10,
        500,
        vec![
            rule(v4(10, 0, 0, 0), 24),
            rule(v4(10, 0, 0, 0), 8),
            rule(v4(10, 0, 0, 0), 24),
        ],
    ));
    let (inside, outside) = (v4(10, 0, 0, 1), v4(192, 0, 2, 1));
    processor.process_flow(&flow(outside, inside, 17, 1));
    processor.process_flow(&flow(inside, outside, 17, 2));
    processor.process_flow(&flow(outside, inside, 17, 3));
    let flows = processor.drain_captured_flows("10.0.0.0/24", Direction::Inbound);
    let bytes: Vec<u64> = flows.iter().map(|f| f.bytes).collect();
    assert_eq!(bytes, vec![1, 3, 1, 3]);
    assert!(processor.drain_captured_flows("10.0.0.0/24", Direction::Inbound).is_empty());
    assert_eq!(processor.rules[0].capture_buffer.len(), 1);
    assert_eq!(processor.rules[1].capture_buffer.len(), 3);
    assert_eq!(processor.drain_captured_flows("10.0.0.0/24", Direction::Outbound).len(), 2);
    assert!(processor.drain_captured_flows("10.0.0.0/9", Direction::Inbound).is_empty());
}

#[test]
fn counts_without_room_are_seen() {
    let mut processor = loaded(&config(10, 500, vec![rule(v4(10, 0, 0, 0), 24)]));
    let mut big = flow(v4(192, 0, 2, 1), v4(10, 0, 0, 1), 17, u64::MAX);
    assert!(!processor.room_for(&big));
    big.sampling_rate = 1;
    assert!(processor.room_for(&big));
    processor.process_flow(&big);
    big.bytes = 1;
    assert!(!processor.room_for(&big));
    big.src_ip = v4(10, 0, 0, 2);
    assert!(processor.room_for(&big));
    let empty_window = {
        let mut p = FlowProcessor::new(0);
        p.reload_config(&config(0, 500, vec![rule(v4(10, 0, 0, 0), 24)])).unwrap();
        p
    };
    assert!(!empty_window.room_for(&flow(v4(192, 0, 2, 1), v4(10, 0, 0, 1), 17, 1)));
    assert!(empty_window.room_for(&flow(v4(192, 0, 2, 1), v4(192, 0, 2, 2), 17, 1)));
}
