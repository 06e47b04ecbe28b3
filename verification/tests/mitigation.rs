use netalert::config::{Direction, ProtocolCategory};
use netalert::double::Double;
use netalert::flow::FlowRecord;
use netalert::mitigation::{
    analyze_flows, compute_destination_prefix, find_best_candidate, forced_protocol_names,
    proto_number, protocol_name, tcp_flag_names, Candidate, FieldSet, GroupKey, MitigationRule, DST_PORT, PROTOCOL, SRC_IP,
    SRC_PORT, TCP_FLAGS,
};
use netalert::net::{IpAddr, Prefix};
use std::collections::HashMap;

fn number(x: f64) -> Double {
    Double::from_bits(x.to_bits())
}

fn v4(a: u8, b: u8, c: u8, d: u8) -> IpAddr {
    IpAddr::V4(u32::from_be_bytes([a, b, c, d]))
}

fn watched() -> Prefix {
    Prefix { addr: v4(10, 0, 0, 0), len: 24 }
}

fn flow(src_ip: IpAddr, dst_ip: IpAddr) -> FlowRecord {
    FlowRecord {
        src_ip,
        dst_ip,
        src_port: 1000,
        dst_port: 80,
        protocol: 6,
        tcp_flags: 0x02,
        bytes: 100,
        packets: 1,
        time_received: 0,
        sampling_rate: 1,
    }
}

fn analyze(flows: &[FlowRecord], direction: Direction, filter: ProtocolCategory) -> Vec<MitigationRule> {
    analyze_flows(flows, watched(), direction, filter, number(1000.0), number(0.0))
}

#[test]
fn field_sets_come_in_order_of_size() {
    let sets: Vec<u8> = FieldSet::all_combinations(0).iter().map(|s| s.0).collect();
    assert_eq!(
        sets,
        vec![
            1, 2, 4, 8, 16, 3, 5, 6, 9, 10, 12, 17, 18, 20, 24, 7, 11, 13, 14, 19, 21, 22, 25, 26,
            28, 15, 23, 27, 29, 30, 31
        ]
    );
    let without: Vec<u8> =
        FieldSet::all_combinations(PROTOCOL | DST_PORT).iter().map(|s| s.0).collect();
    assert_eq!(without, vec![1, 4, 16, 5, 17, 20, 21]);
    assert!(FieldSet::all_combinations(0xff).is_empty());
    for bits in 0..=255u8 {
        assert_eq!(FieldSet(bits).count(), bits.count_ones());
        assert_eq!(FieldSet(bits).has(SRC_IP), bits & 1 != 0);
    }
}

#[test]
fn zero_fields_have_no_key() {
    let mut f = flow(v4(1, 1, 1, 1), v4(10, 0, 0, 1));
    let key = GroupKey::from_flow(&f, FieldSet(SRC_IP | TCP_FLAGS)).unwrap();
    assert_eq!(key.src_ip, Some(v4(1, 1, 1, 1)));
    assert_eq!(key.tcp_flags, Some(0x02));
    assert_eq!(key.dst_port, None);
    f.tcp_flags = 0;
    assert!(GroupKey::from_flow(&f, FieldSet(TCP_FLAGS)).is_none());
    f.protocol = 0;
    assert!(GroupKey::from_flow(&f, FieldSet(PROTOCOL)).is_none());
    f.dst_port = 0;
    assert!(GroupKey::from_flow(&f, FieldSet(DST_PORT)).is_none());
    f.src_port = 0;
    assert!(GroupKey::from_flow(&f, FieldSet(SRC_PORT)).is_none());
    assert!(GroupKey::from_flow(&f, FieldSet(SRC_IP)).is_some());
}

#[test]
fn candidate_covers_flows_with_more_flags() {
    let c = Candidate {
        fields: FieldSet(TCP_FLAGS | SRC_IP),
        src_ip: Some(v4(1, 1, 1, 1)),
        dst_port: None,
        src_port: None,
        protocol: None,
        tcp_flags: Some(0x02),
    };
    let mut f = flow(v4(1, 1, 1, 1), v4(10, 0, 0, 1));
    f.tcp_flags = 0x12;
    assert!(c.matches(&f));
    f.tcp_flags = 0x10;
    assert!(!c.matches(&f));
    f.tcp_flags = 0x02;
    f.src_ip = v4(1, 1, 1, 2);
    assert!(!c.matches(&f));
}

#[test]
fn protocols_are_named() {
    assert_eq!(protocol_name(1), "icmp");
    assert_eq!(protocol_name(6), "tcp");
    assert_eq!(protocol_name(17), "udp");
    assert_eq!(protocol_name(47), "gre");
    assert_eq!(protocol_name(50), "esp");
    assert_eq!(protocol_name(58), "icmp6");
    assert_eq!(protocol_name(132), "132");
    assert_eq!(proto_number(ProtocolCategory::Https), 6);
    assert_eq!(proto_number(ProtocolCategory::Dns), 0);
    assert_eq!(proto_number(ProtocolCategory::Gre), 47);
}

#[test]
fn flags_are_named_from_the_lowest_on() {
    assert_eq!(tcp_flag_names(0x3f), vec!["fin", "syn", "rst", "psh", "ack", "urg"]);
    assert_eq!(tcp_flag_names(0x12), vec!["syn", "ack"]);
    assert!(tcp_flag_names(0xc0).is_empty());
}

#[test]
fn dominant_host_is_the_destination() {
    let mut flows = vec![flow(v4(1, 1, 1, 1), v4(10, 0, 0, 5)); 4];
    flows.push(flow(v4(1, 1, 1, 1), v4(10, 0, 0, 6)));
    let host = Prefix { addr: v4(10, 0, 0, 5), len: 32 };
    assert_eq!(
        compute_destination_prefix(&flows, Direction::Inbound, watched(), number(0.8)),
        host
    );
    assert_eq!(
        compute_destination_prefix(&flows, Direction::Inbound, watched(), number(0.81)),
        watched()
    );
    assert_eq!(
        compute_destination_prefix(&flows, Direction::Outbound, watched(), number(0.8)),
        Prefix { addr: v4(1, 1, 1, 1), len: 32 }
    );
    let v6 = vec![flow(v4(1, 1, 1, 1), IpAddr::V6(0xffff_0102_0304)); 2];
    assert_eq!(
        compute_destination_prefix(&v6, Direction::Inbound, watched(), number(0.8)),
        Prefix { addr: IpAddr::V6(0xffff_0102_0304), len: 128 }
    );
}

#[test]
fn flows_without_bytes_have_no_destination_and_no_candidate() {
    let mut flows = vec![flow(v4(1, 1, 1, 1), v4(10, 0, 0, 5)); 4];
    for f in &mut flows {
        f.bytes = 0;
    }
    assert_eq!(
        compute_destination_prefix(&flows, Direction::Inbound, watched(), number(0.8)),
        watched()
    );
    assert!(find_best_candidate(&flows, number(0.1), 0).is_none());
    assert!(find_best_candidate(&vec![], number(0.1), 0).is_none());
    assert!(analyze(&flows, Direction::Inbound, ProtocolCategory::Any).is_empty());
}

#[test]
fn specific_pattern_beats_a_slightly_wider_one() {
    let mut flows = Vec::new();
    for i in 0..100u32 {
        let mut f = flow(IpAddr::V4(i), v4(10, 0, 0, (i % 50) as u8));
        f.src_port = 10_000 + i as u16;
        f.tcp_flags = 0;
        f.dst_port = if i < 97 { 7873 } else { 8000 + i as u16 };
        flows.push(f);
    }
    let best = find_best_candidate(&flows, number(0.1), 0).unwrap();
    assert_eq!(best.fields, FieldSet(PROTOCOL | DST_PORT));
    assert_eq!(best.dst_port, Some(7873));
    assert_eq!(best.protocol, Some(6));
    assert_eq!(best.src_ip, None);
}

#[test]
fn inbound_syn_flood_gets_one_rule() {
    let flows = vec![flow(v4(192, 0, 2, 10), v4(10, 0, 0, 5)); 20];
    let rules = analyze(&flows, Direction::Inbound, ProtocolCategory::Any);
    assert_eq!(rules.len(), 1);
    assert_eq!(rules[0].source_prefix, Some("192.0.2.10/32".to_string()));
    assert_eq!(rules[0].destination_prefix, "10.0.0.5/32");
    assert_eq!(rules[0].destination_ports, vec![80]);
    assert_eq!(rules[0].source_ports, vec![1000]);
    assert_eq!(rules[0].protocols, vec!["tcp"]);
    assert_eq!(rules[0].tcp_flags, vec!["syn"]);
}

#[test]
fn outbound_rule_turns_the_prefixes_round() {
    let flows = vec![flow(v4(10, 0, 0, 5), v4(192, 0, 2, 10)); 20];
    let rules = analyze(&flows, Direction::Outbound, ProtocolCategory::Any);
    assert_eq!(rules[0].source_prefix, Some("10.0.0.5/32".to_string()));
    assert_eq!(rules[0].destination_prefix, "10.0.0.5/32");
    let spread: Vec<FlowRecord> =
        (0..50u8).map(|i| flow(v4(10, 0, 0, i), v4(192, 0, 2, 10))).collect();
    let rules = analyze(&spread, Direction::Outbound, ProtocolCategory::Any);
    assert_eq!(rules[0].source_prefix, Some("10.0.0.0/24".to_string()));
    assert_eq!(rules[0].destination_prefix, "10.0.0.0/24");
}

#[test]
fn rules_name_the_category() {
    let mut flows = vec![flow(v4(192, 0, 2, 10), v4(10, 0, 0, 5)); 5];
    for (i, f) in flows.iter_mut().enumerate() {
        f.dst_port = 443;
        f.src_port = 2000 + i as u16;
        f.src_ip = v4(192, 0, 2, i as u8);
        f.tcp_flags = 0x12;
    }
    let https = analyze(&flows, Direction::Inbound, ProtocolCategory::Https);
    assert_eq!(https[0].protocols, vec!["tcp"]);
    assert_eq!(https[0].destination_ports, vec![443]);
    assert_eq!(https[0].tcp_flags, vec!["syn", "ack"]);
    for f in &mut flows {
        f.src_ip = v4(192, 0, 2, 1);
        f.tcp_flags = 0x02;
    }
    let syn = analyze(&flows, Direction::Inbound, ProtocolCategory::TcpSyn);
    assert!(syn.iter().all(|r| r.tcp_flags.contains(&"syn".to_string())));
    assert!(syn.iter().all(|r| r.protocols == vec!["tcp".to_string()]));
    for f in &mut flows {
        f.protocol = 17;
        f.dst_port = 53;
    }
    let dns = analyze(&flows, Direction::Inbound, ProtocolCategory::Dns);
    assert!(dns.iter().all(|r| r.destination_ports == vec![53]));
    assert_eq!(dns[0].protocols, vec!["udp"]);
    assert!(analyze(&flows, Direction::Inbound, ProtocolCategory::Gre).is_empty());
}

#[test]
fn other_categories_do_not_change_the_rules() {
    let mut flows = vec![flow(v4(192, 0, 2, 10), v4(10, 0, 0, 5)); 10];
    let alone = analyze(&flows, Direction::Inbound, ProtocolCategory::Tcp);
    for i in 0..10u8 {
        let mut f = flow(v4(198, 51, 100, i), v4(10, 0, 0, i));
        f.protocol = 17;
        f.bytes = 1_000_000;
        flows.insert(i as usize, f);
    }
    let mixed = analyze(&flows, Direction::Inbound, ProtocolCategory::Tcp);
    assert_eq!(format!("{alone:?}"), format!("{mixed:?}"));
}

#[test]
fn traffic_below_the_threshold_gets_no_rules() {
    let flows = vec![flow(v4(192, 0, 2, 10), v4(10, 0, 0, 5)); 10];
    let rules = |rate: f64, threshold: f64| {
        analyze_flows(
            &flows,
            watched(),
            Direction::Inbound,
            ProtocolCategory::Any,
            number(rate),
            number(threshold),
        )
        .len()
    };
    assert_eq!(rules(99.0, 100.0), 0);
    assert_eq!(rules(100.0, 100.0), 1);
    assert_eq!(rules(0.0, 0.0), 1);
    assert_eq!(rules(0.0, -1.0), 1);
    assert_eq!(rules(f64::NAN, 100.0), 1);
}

#[test]
fn rules_stop_once_the_rest_is_small() {
    let mut flows = vec![flow(v4(192, 0, 2, 10), v4(10, 0, 0, 5)); 60];
    let mut second = flow(v4(198, 51, 100, 1), v4(10, 0, 0, 6));
    second.dst_port = 22;
    second.src_port = 2;
    second.protocol = 17;
    second.tcp_flags = 0;
    flows.extend(vec![second; 40]);
    let rules = |threshold: f64| {
        analyze_flows(
            &flows,
            watched(),
            Direction::Inbound,
            ProtocolCategory::Any,
            number(1000.0),
            number(threshold),
        )
    };
    let both = rules(400.0);
    assert_eq!(both.len(), 2);
    assert_eq!(both[0].destination_prefix, "10.0.0.0/24");
    assert_eq!(both[1].destination_prefix, "10.0.0.6/32");
    assert_eq!(both[1].tcp_flags.len(), 0);
    assert_eq!(rules(401.0).len(), 1);
}

#[test]
fn at_most_ten_rules() {
    let mut flows = Vec::new();
    let mut bytes: u64 = 1;
    for i in 0..14u32 {
        let mut f = flow(IpAddr::V4(i + 1), v4(10, 0, 0, i as u8));
        f.src_port = 100 + i as u16;
        f.dst_port = 200 + i as u16;
        f.protocol = 100 + i as u8;
        f.tcp_flags = 0;
        f.bytes = bytes;
        bytes *= 3;
        flows.push(f);
    }
    assert_eq!(analyze(&flows, Direction::Inbound, ProtocolCategory::Any).len(), 10);
}

#[test]
fn thin_traffic_has_no_pattern() {
    let flows: Vec<FlowRecord> = (0..20u32)
        .map(|i| {
            let mut f = flow(IpAddr::V4(i), v4(10, 0, 0, i as u8));
            f.src_port = 100 + i as u16;
            f.dst_port = 200 + i as u16;
            f.protocol = 100 + i as u8;
            f.tcp_flags = 0;
            f
        })
        .collect();
    assert!(find_best_candidate(&flows, number(0.1), 0).is_none());
    assert!(analyze(&flows, Direction::Inbound, ProtocolCategory::Any).is_empty());
}

#[test]
fn best_candidate_has_the_highest_score() {
    let mut seed: u64 = 42;
    let mut next = |n: u64| {
        seed = seed.wrapping_mul(6364136223846793005).wrapping_add(1442695040888963407);
        (seed >> 33) % n
    };
    for _ in 0..200 {
        let n = 1 + next(12);
        let flows: Vec<FlowRecord> = (0..n)
            .map(|_| FlowRecord {
                src_ip: IpAddr::V4(next(3) as u32),
                dst_ip: IpAddr::V4(next(3) as u32),
                src_port: next(3) as u16,
                dst_port: next(3) as u16,
                protocol: next(3) as u8,
                tcp_flags: next(3) as u8,
                bytes: next(1000),
                packets: 1,
                time_received: 0,
                sampling_rate: 1 + next(3) as u32,
            })
            .collect();
        let exclude = [0, PROTOCOL, DST_PORT, PROTOCOL | DST_PORT][next(4) as usize];
        let total: u64 = flows.iter().map(|f| f.sampled_bytes()).sum();
        let mut best: Option<f64> = None;
        let mut scores: HashMap<(u8, String), f64> = HashMap::new();
        for fields in FieldSet::all_combinations(exclude) {
            let mut groups: HashMap<String, u64> = HashMap::new();
            for f in &flows {
                if let Some(key) = GroupKey::from_flow(f, fields) {
                    *groups.entry(format!("{key:?}")).or_insert(0) += f.sampled_bytes();
                }
            }
            for (key, bytes) in groups {
                let coverage = bytes as f64 / total as f64;
                if total == 0 || coverage < 0.1 {
                    continue;
                }
                let score = coverage * (1.0 + 0.1 * fields.count() as f64);
                scores.insert((fields.0, key), score);
                if best.map_or(true, |b| score > b) {
                    best = Some(score);
                }
            }
        }
        match find_best_candidate(&flows, number(0.1), exclude) {
            Some(c) => {
                let key = GroupKey {
                    src_ip: c.src_ip,
                    dst_port: c.dst_port,
                    src_port: c.src_port,
                    protocol: c.protocol,
                    tcp_flags: c.tcp_flags,
                };
                assert_eq!(scores.get(&(c.fields.0, format!("{key:?}"))).copied(), best);
            }
            None => assert_eq!(best, None),
        }
    }
}

#[test]
fn name_lookups_over_both_protocols_name_both() {
    let mut udp = flow(v4(198, 51, 100, 1), v4(10, 0, 0, 7));
    udp.src_port = 5353;
    udp.dst_port = 53;
    udp.protocol = 17;
    udp.tcp_flags = 0;
    udp.bytes = 50;
    let mut tcp = udp;
    tcp.protocol = 6;
    let rules = analyze_flows(
        &[udp, tcp],
        watched(),
        Direction::Inbound,
        ProtocolCategory::Dns,
        number(1000.0),
        number(100.0),
    );
    assert_eq!(rules.len(), 1);
    assert_eq!(rules[0].source_prefix, Some("198.51.100.1/32".to_string()));
    assert_eq!(rules[0].source_ports, vec![5353]);
    assert_eq!(rules[0].destination_prefix, "10.0.0.7/32");
    assert_eq!(rules[0].destination_ports, vec![53]);
    assert_eq!(rules[0].protocols, vec!["tcp", "udp"]);
    let only_udp = analyze(&[udp, udp], Direction::Inbound, ProtocolCategory::Dns);
    assert_eq!(only_udp[0].protocols, vec!["udp"]);
}

#[test]
fn categories_force_their_protocols() {
    assert!(forced_protocol_names(ProtocolCategory::Any).is_empty());
    assert_eq!(forced_protocol_names(ProtocolCategory::Dns), vec!["tcp", "udp"]);
    assert_eq!(forced_protocol_names(ProtocolCategory::Https), vec!["tcp"]);
    assert_eq!(forced_protocol_names(ProtocolCategory::TcpSyn), vec!["tcp"]);
    assert_eq!(forced_protocol_names(ProtocolCategory::Udp), vec!["udp"]);
    assert_eq!(forced_protocol_names(ProtocolCategory::Icmp), vec!["icmp"]);
    assert_eq!(forced_protocol_names(ProtocolCategory::Esp), vec!["esp"]);
}

#[test]
fn flows_of_other_categories_may_stand_for_any_number_of_bytes() {
    let flows = vec![flow(v4(192, 0, 2, 10), v4(10, 0, 0, 5)); 10];
    let mut mixed = flows.clone();
    let mut huge = flow(v4(198, 51, 100, 1), v4(10, 0, 0, 6));
    huge.protocol = 17;
    huge.bytes = u64::MAX;
    huge.sampling_rate = u32::MAX;
    mixed.insert(3, huge);
    let alone = analyze(&flows, Direction::Inbound, ProtocolCategory::Tcp);
    let found = analyze(&mixed, Direction::Inbound, ProtocolCategory::Tcp);
    assert_eq!(format!("{alone:?}"), format!("{found:?}"));
}
