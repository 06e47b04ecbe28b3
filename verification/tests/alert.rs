use fxhash::FxHashMap;
use netalert::alert::{
    find_rate, removed_active, AlertAction, AlertInstance, AlertManager, AlertState,
    AlertStateSnapshot, MetricType,
};
use netalert::config::{
    default_capture_buffer_size, default_mitigation_update_interval, AlertPolicyConfig, Config,
    Direction, DirectionMetrics, GlobalConfig, MetricThresholds, ProtocolCategory, RuleConfig,
    ThresholdPair,
};
use netalert::double::Double;
use netalert::flow::FlowRecord;
use netalert::net::{IpAddr, Prefix};
use netalert::processor::{FlowProcessor, RateSnapshot};
use netalert::time::{Duration, Instant};
use uuid::Uuid;

fn number(x: f64) -> Double {
    Double::from_bits(x.to_bits())
}

fn v4(a: u8, b: u8, c: u8, d: u8) -> IpAddr {
    IpAddr::V4(u32::from_be_bytes([a, b, c, d]))
}

fn trigger(x: f64) -> Option<ThresholdPair> {
    Some(ThresholdPair { trigger: number(x), recover: None })
}

fn rule(prefix: Prefix, policy: Option<&str>, metrics: MetricThresholds) -> RuleConfig {
    RuleConfig {
        prefix,
        labels: FxHashMap::default(),
        alert_policy: policy.map(|p| p.to_string()),
        thresholds: vec![(
            ProtocolCategory::Any,
            vec![(Direction::Inbound, DirectionMetrics { metrics })],
        )],
    }
}

fn config_with(rules: Vec<RuleConfig>) -> Config {
    let mut alert_policies = FxHashMap::default();
    alert_policies.insert(
        "instant".to_string(),
        AlertPolicyConfig {
            trigger_for: Duration::from_secs(0),
            recover_for: Duration::from_secs(0),
        },
    );
    Config {
        global: GlobalConfig {
            evaluation_interval: Duration::from_secs(1),
            window: Duration::from_secs(10),
            alert_script: None,
            capture_buffer_size: default_capture_buffer_size(),
            mitigation_update_interval: default_mitigation_update_interval(),
        },
        exporters: FxHashMap::default(),
        alert_policies,
        rules,
    }
}

fn watched() -> Prefix {
    Prefix { addr: v4(10, 0, 0, 0), len: 24 }
}

fn test_config() -> Config {
    config_with(vec![rule(
        watched(),
        Some("instant"),
        MetricThresholds { bps: trigger(100.0), pps: trigger(10.0), fps: None },
    )])
}

fn snapshot(bps: f64, pps: f64) -> RateSnapshot {
    RateSnapshot {
        prefix: "10.0.0.0/24".to_string(),
        labels: FxHashMap::default(),
        protocol: ProtocolCategory::Any,
        direction: Direction::Inbound,
        bps: number(bps),
        pps: number(pps),
        fps: number(0.0),
    }
}

fn at(secs: u64) -> Instant {
    Instant { nanos: secs as u128 * 1_000_000_000 }
}

fn dns_answer(i: u16) -> FlowRecord {
    FlowRecord {
        src_ip: v4(198, 51, 100, i as u8),
        dst_ip: v4(10, 0, 0, 7),
        src_port: 53,
        dst_port: 30000 + i,
        protocol: 17,
        tcp_flags: 0,
        bytes: 4096,
        packets: 1,
        time_received: 1000,
        sampling_rate: 1,
    }
}

fn alert(trigger: f64, recover: f64, trigger_for: u64, recover_for: u64) -> AlertInstance {
    AlertInstance {
        state: AlertState::Normal,
        alert_id: 0,
        prefix: "10.0.0.0/24".to_string(),
        protocol: ProtocolCategory::Any,
        direction: Direction::Inbound,
        metric: MetricType::Bps,
        trigger_threshold: number(trigger),
        recover_threshold: number(recover),
        trigger_for: Duration::from_secs(trigger_for),
        recover_for: Duration::from_secs(recover_for),
        mitigation_update_interval: Duration::from_secs(30),
        labels: FxHashMap::default(),
    }
}

#[test]
fn reload_preserves_alert_state() {
    let config = test_config();
    let mut mgr = AlertManager::new(None);
    mgr.reload_config(&config);
    assert_eq!(mgr.alerts.len(), 2);

    let id = Uuid::new_v4().as_u128();
    let idx = mgr
        .alerts
        .iter()
        .position(|a| a.metric == MetricType::Bps)
        .unwrap();
    mgr.alerts[idx].state = AlertState::Firing { last_update: at(5) };
    mgr.alerts[idx].alert_id = id;

    mgr.reload_config(&config);

    let firing = mgr
        .alerts
        .iter()
        .find(|a| a.metric == MetricType::Bps)
        .unwrap();
    assert!(matches!(firing.state, AlertState::Firing { .. }));
    assert_eq!(firing.alert_id, id);

    let other = mgr
        .alerts
        .iter()
        .find(|a| a.metric == MetricType::Pps)
        .unwrap();
    assert!(matches!(other.state, AlertState::Normal));
}

#[test]
fn concurrent_alerts_share_captured_flows() {
    let config = test_config();
    let mut processor = FlowProcessor::new(10);
    processor.reload_config(&config).unwrap();

    for i in 0..50u16 {
        let flow = dns_answer(i);
        assert!(processor.room_for(&flow));
        processor.process_flow(&flow);
    }

    let mut mgr = AlertManager::new(None);
    mgr.reload_config(&config);

    let snapshots = vec![snapshot(1_000_000.0, 100_000.0)];

    let payloads = mgr.evaluate(&snapshots, &mut processor, at(1));
    assert!(payloads.is_empty());

    let payloads = mgr.evaluate(&snapshots, &mut processor, at(2));
    assert_eq!(payloads.len(), 2);
    for payload in &payloads {
        assert_eq!(payload.action, "trigger");
        assert!(
            !payload.mitigation_rules.is_empty(),
            "alert {}/{} lost the captured flows",
            payload.metric,
            payload.prefix
        );
    }
}

#[test]
fn payloads_carry_the_alert_and_the_rules() {
    let config = test_config();
    let mut processor = FlowProcessor::new(10);
    processor.reload_config(&config).unwrap();
    for i in 0..50u16 {
        processor.process_flow(&dns_answer(i));
    }
    let mut mgr = AlertManager::new(None);
    mgr.reload_config(&config);
    let snapshots = vec![snapshot(1_000_000.0, 100_000.0)];
    mgr.evaluate(&snapshots, &mut processor, at(1));
    let payloads = mgr.evaluate(&snapshots, &mut processor, at(2));

    for (n, payload) in payloads.iter().enumerate() {
        assert_eq!(payload.alert_id, mgr.alerts[n].alert_id);
        assert_eq!((payload.alert_id >> 76) & 0xf, 4);
        assert_eq!((payload.alert_id >> 62) & 3, 2);
        assert_eq!(payload.prefix, "10.0.0.0/24");
        assert_eq!(payload.protocol, "any");
        assert_eq!(payload.direction, "inbound");
        let rules = &payload.mitigation_rules;
        assert_eq!(rules.len(), 1);
        assert_eq!(rules[0].source_prefix, None);
        assert_eq!(rules[0].destination_prefix, "10.0.0.7/32");
        assert_eq!(rules[0].source_ports, vec![53]);
        assert!(rules[0].destination_ports.is_empty());
        assert_eq!(rules[0].protocols, vec!["udp".to_string()]);
        assert!(rules[0].tcp_flags.is_empty());
    }
    assert_eq!(payloads[0].metric, "bps");
    assert_eq!(payloads[0].value, number(1_000_000.0));
    assert_eq!(payloads[0].threshold, number(100.0));
    assert_eq!(payloads[1].metric, "pps");
    assert_eq!(payloads[1].value, number(100_000.0));
    assert_eq!(payloads[1].threshold, number(10.0));
    assert_ne!(payloads[0].alert_id, payloads[1].alert_id);
    assert!(processor.rules[0].capture_buffer.is_empty());
}

#[test]
fn only_analyzed_directions_are_drained() {
    let config = test_config();
    let mut processor = FlowProcessor::new(10);
    processor.reload_config(&config).unwrap();
    processor.process_flow(&dns_answer(1));
    let mut mgr = AlertManager::new(None);
    mgr.reload_config(&config);
    let quiet = vec![snapshot(0.0, 0.0)];
    assert!(mgr.evaluate(&quiet, &mut processor, at(1)).is_empty());
    assert_eq!(processor.rules[0].capture_buffer.len(), 1);
}

#[test]
fn alert_waits_for_trigger_for() {
    let mut a = alert(100.0, 50.0, 3, 30);
    assert_eq!(a.evaluate(number(99.9), at(0)), None);
    assert_eq!(a.state, AlertState::Normal);
    assert_eq!(a.evaluate(number(100.0), at(1)), None);
    assert_eq!(a.state, AlertState::Pending { since: at(1) });
    assert_eq!(a.evaluate(number(100.0), at(3)), None);
    assert_eq!(a.evaluate(number(100.0), at(4)), Some(AlertAction::Fire));
    assert_eq!(a.state, AlertState::Firing { last_update: at(4) });
}

#[test]
fn pending_alert_goes_back_to_normal() {
    let mut a = alert(100.0, 50.0, 3, 30);
    a.evaluate(number(100.0), at(1));
    assert_eq!(a.evaluate(number(60.0), at(10)), None);
    assert_eq!(a.state, AlertState::Normal);
}

#[test]
fn firing_alert_is_updated_and_resolved() {
    let mut a = alert(100.0, 50.0, 0, 30);
    a.evaluate(number(100.0), at(0));
    assert_eq!(a.evaluate(number(100.0), at(0)), Some(AlertAction::Fire));
    assert_eq!(a.evaluate(number(70.0), at(29)), None);
    assert_eq!(a.evaluate(number(70.0), at(30)), Some(AlertAction::Update));
    assert_eq!(a.evaluate(number(49.0), at(31)), None);
    assert_eq!(a.state, AlertState::Recovering { since: at(31) });
    assert_eq!(a.evaluate(number(49.0), at(60)), None);
    assert_eq!(a.evaluate(number(49.0), at(61)), Some(AlertAction::Resolve));
    assert_eq!(a.state, AlertState::Normal);
}

#[test]
fn recovery_starts_over_when_the_rate_climbs() {
    let mut a = alert(100.0, 50.0, 0, 30);
    a.evaluate(number(100.0), at(0));
    a.evaluate(number(100.0), at(1));
    a.evaluate(number(10.0), at(2));
    assert_eq!(a.evaluate(number(50.0), at(40)), None);
    assert_eq!(a.state, AlertState::Firing { last_update: at(40) });
}

#[test]
fn rate_that_is_not_a_number_keeps_the_alert_waiting() {
    let mut a = alert(100.0, 50.0, 5, 30);
    assert_eq!(a.evaluate(number(f64::NAN), at(0)), None);
    assert_eq!(a.state, AlertState::Normal);
    a.evaluate(number(100.0), at(1));
    assert_eq!(a.evaluate(number(f64::NAN), at(2)), None);
    assert_eq!(a.state, AlertState::Pending { since: at(1) });
}

#[test]
fn resolve_reports_the_recovery_threshold_and_no_rules() {
    let mut config = test_config();
    config.rules[0].thresholds[0].1[0].1.metrics = MetricThresholds {
        bps: Some(ThresholdPair { trigger: number(100.0), recover: Some(number(50.0)) }),
        pps: None,
        fps: None,
    };
    let mut processor = FlowProcessor::new(10);
    processor.reload_config(&config).unwrap();
    let mut mgr = AlertManager::new(None);
    mgr.reload_config(&config);
    assert_eq!(mgr.alerts[0].recover_threshold, number(50.0));
    mgr.evaluate(&[snapshot(200.0, 0.0)], &mut processor, at(1));
    let fired = mgr.evaluate(&[snapshot(200.0, 0.0)], &mut processor, at(2));
    assert_eq!(fired.len(), 1);
    assert!(fired[0].mitigation_rules.is_empty());
    mgr.evaluate(&[snapshot(10.0, 0.0)], &mut processor, at(3));
    processor.process_flow(&dns_answer(1));
    let resolved = mgr.evaluate(&[snapshot(10.0, 0.0)], &mut processor, at(4));
    assert_eq!(resolved.len(), 1);
    assert_eq!(resolved[0].action, "resolve");
    assert_eq!(resolved[0].threshold, number(50.0));
    assert_eq!(resolved[0].alert_id, fired[0].alert_id);
    assert!(resolved[0].mitigation_rules.is_empty());
    assert_eq!(processor.rules[0].capture_buffer.len(), 1);
}

#[test]
fn update_keeps_the_id() {
    let config = test_config();
    let mut processor = FlowProcessor::new(10);
    processor.reload_config(&config).unwrap();
    let mut mgr = AlertManager::new(None);
    mgr.reload_config(&config);
    let loud = [snapshot(200.0, 0.0)];
    mgr.evaluate(&loud, &mut processor, at(1));
    let fired = mgr.evaluate(&loud, &mut processor, at(2));
    processor.process_flow(&dns_answer(3));
    let updated = mgr.evaluate(&loud, &mut processor, at(32));
    assert_eq!(updated.len(), 1);
    assert_eq!(updated[0].action, "update");
    assert_eq!(updated[0].alert_id, fired[0].alert_id);
    assert_eq!(updated[0].threshold, number(100.0));
    assert_eq!(updated[0].mitigation_rules.len(), 1);
}

#[test]
fn prefix_that_cannot_be_read_gets_no_rules() {
    let config = test_config();
    let mut processor = FlowProcessor::new(10);
    processor.reload_config(&config).unwrap();
    let mut mgr = AlertManager::new(None);
    let mut odd = alert(100.0, 50.0, 0, 0);
    odd.prefix = "no prefix".to_string();
    mgr.alerts.push(odd);
    let mut loud = snapshot(200.0, 0.0);
    loud.prefix = "no prefix".to_string();
    let snapshots = [loud];
    mgr.evaluate(&snapshots, &mut processor, at(1));
    let fired = mgr.evaluate(&snapshots, &mut processor, at(2));
    assert_eq!(fired.len(), 1);
    assert!(fired[0].mitigation_rules.is_empty());
}

#[test]
fn policy_and_defaults() {
    let metrics = MetricThresholds { bps: trigger(1.0), pps: None, fps: trigger(2.0) };
    let mut config = config_with(vec![
        rule(watched(), None, metrics),
        rule(Prefix { addr: v4(10, 1, 0, 0), len: 16 }, Some("slow"), metrics),
        rule(Prefix { addr: v4(10, 2, 0, 0), len: 16 }, Some("unknown"), metrics),
    ]);
    config.alert_policies.insert(
        "slow".to_string(),
        AlertPolicyConfig {
            trigger_for: Duration::from_secs(60),
            recover_for: Duration::from_secs(600),
        },
    );
    config.rules[1].labels.insert("segment".to_string(), "customer".to_string());
    config.global.alert_script = Some("/bin/alert".to_string());
    let mut mgr = AlertManager::new(Some("/bin/old".to_string()));
    mgr.reload_config(&config);
    assert_eq!(mgr.script_path, Some("/bin/alert".to_string()));
    assert_eq!(mgr.alerts.len(), 6);
    assert_eq!(mgr.alerts[0].trigger_for, Duration::from_secs(10));
    assert_eq!(mgr.alerts[0].recover_for, Duration::from_secs(20));
    assert_eq!(mgr.alerts[0].metric, MetricType::Bps);
    assert_eq!(mgr.alerts[1].metric, MetricType::Fps);
    assert_eq!(mgr.alerts[1].recover_threshold, number(2.0));
    assert_eq!(mgr.alerts[2].prefix, "10.1.0.0/16");
    assert_eq!(mgr.alerts[2].trigger_for, Duration::from_secs(60));
    assert_eq!(mgr.alerts[2].recover_for, Duration::from_secs(600));
    assert_eq!(mgr.alerts[2].mitigation_update_interval, Duration::from_secs(30));
    assert_eq!(mgr.alerts[2].labels.get("segment"), Some(&"customer".to_string()));
    assert_eq!(mgr.alerts[4].trigger_for, Duration::from_secs(10));
    config.global.alert_script = None;
    mgr.reload_config(&config);
    assert_eq!(mgr.script_path, Some("/bin/alert".to_string()));
}

#[test]
fn removed_alert_is_forgotten() {
    let mut mgr = AlertManager::new(None);
    mgr.reload_config(&test_config());
    mgr.alerts[0].state = AlertState::Firing { last_update: at(1) };
    mgr.alerts[0].alert_id = 7;
    mgr.reload_config(&config_with(vec![]));
    assert!(mgr.alerts.is_empty());
    mgr.reload_config(&test_config());
    assert_eq!(mgr.alerts[0].state, AlertState::Normal);
    assert_eq!(mgr.alerts[0].alert_id, 0);
}

#[test]
fn first_of_two_rules_with_one_prefix_takes_the_state() {
    let metrics = MetricThresholds { bps: trigger(1.0), pps: None, fps: None };
    let config = config_with(vec![rule(watched(), None, metrics), rule(watched(), None, metrics)]);
    let mut mgr = AlertManager::new(None);
    mgr.reload_config(&config);
    mgr.alerts[0].alert_id = 5;
    mgr.alerts[1].alert_id = 6;
    mgr.alerts[1].state = AlertState::Pending { since: at(3) };
    mgr.reload_config(&config);
    assert_eq!(mgr.alerts[0].alert_id, 6);
    assert_eq!(mgr.alerts[0].state, AlertState::Pending { since: at(3) });
    assert_eq!(mgr.alerts[1].alert_id, 0);
    assert_eq!(mgr.alerts[1].state, AlertState::Normal);
}

#[test]
fn first_fitting_snapshot_gives_the_rate() {
    let mut a = alert(1.0, 1.0, 0, 0);
    let mut other = snapshot(1.0, 2.0);
    other.direction = Direction::Outbound;
    let snapshots = vec![other, snapshot(3.0, 4.0), snapshot(5.0, 6.0)];
    assert_eq!(find_rate(&snapshots, &a), number(3.0));
    a.metric = MetricType::Pps;
    assert_eq!(find_rate(&snapshots, &a), number(4.0));
    a.metric = MetricType::Fps;
    assert_eq!(find_rate(&snapshots, &a), number(0.0));
    a.protocol = ProtocolCategory::Tcp;
    a.metric = MetricType::Bps;
    assert_eq!(find_rate(&snapshots, &a), number(0.0));
}

#[test]
fn states_are_numbered() {
    let mut mgr = AlertManager::new(None);
    for state in [
        AlertState::Normal,
        AlertState::Pending { since: at(0) },
        AlertState::Firing { last_update: at(0) },
        AlertState::Recovering { since: at(0) },
    ] {
        let mut a = alert(1.0, 1.0, 0, 0);
        a.state = state;
        mgr.alerts.push(a);
    }
    let states = mgr.state_snapshots();
    let numbers: Vec<u8> = states.iter().map(|s| s.state).collect();
    assert_eq!(numbers, vec![0, 1, 2, 3]);
    assert_eq!(states[0].prefix, "10.0.0.0/24");
    assert_eq!(states[0].metric, MetricType::Bps);
}

#[test]
fn rate_between_the_thresholds_keeps_the_alert_as_it_is() {
    let mut quiet = alert(100.0, 50.0, 0, 0);
    for secs in 0..10 {
        assert_eq!(quiet.evaluate(number(75.0), at(secs)), None);
        assert_eq!(quiet.state, AlertState::Normal);
    }
    let mut loud = alert(100.0, 50.0, 0, 0);
    loud.evaluate(number(100.0), at(0));
    loud.evaluate(number(100.0), at(1));
    for secs in 2..10 {
        assert_eq!(loud.evaluate(number(75.0), at(secs)), None);
        assert!(matches!(loud.state, AlertState::Firing { .. }));
    }
}

#[test]
fn fires_and_resolves_take_turns() {
    let mut a = alert(100.0, 50.0, 2, 2);
    let mut active = false;
    let mut seed: u32 = 7;
    for secs in 0..500 {
        seed = seed.wrapping_mul(1103515245).wrapping_add(12345);
        let rate = if (seed >> 16) % 4 < 2 + (secs / 20 % 2) as u32 { 120.0 } else { 20.0 };
        match a.evaluate(number(rate), at(secs)) {
            Some(AlertAction::Fire) => {
                assert!(!active);
                active = true;
            }
            Some(AlertAction::Resolve) => {
                assert!(active);
                active = false;
            }
            Some(AlertAction::Update) => assert!(active),
            None => {}
        }
    }
}

#[test]
fn one_id_from_a_trigger_to_its_resolve() {
    let mut config = test_config();
    config.rules[0].thresholds[0].1[0].1.metrics.pps = None;
    let mut processor = FlowProcessor::new(10);
    processor.reload_config(&config).unwrap();
    let mut mgr = AlertManager::new(None);
    mgr.reload_config(&config);
    let mut ids: Vec<u128> = Vec::new();
    let mut last = 0;
    for secs in 0..200u64 {
        let rate = if secs % 80 < 70 { 200.0 } else { 10.0 };
        for payload in mgr.evaluate(&[snapshot(rate, 0.0)], &mut processor, at(secs)) {
            if payload.action == "trigger" {
                assert!(!ids.contains(&payload.alert_id));
                ids.push(payload.alert_id);
                last = payload.alert_id;
            }
            assert_eq!(payload.alert_id, last);
        }
        assert_eq!(mgr.alerts[0].alert_id, last);
    }
    assert_eq!(ids.len(), 3);
}

#[test]
fn active_alerts_that_are_gone_are_found() {
    let state = |prefix: &str, metric: MetricType, state: u8| AlertStateSnapshot {
        prefix: prefix.to_string(),
        protocol: ProtocolCategory::Any,
        direction: Direction::Inbound,
        metric,
        state,
    };
    let before = vec![
        state("10.0.0.0/24", MetricType::Bps, 2),
        state("10.0.0.0/24", MetricType::Pps, 2),
        state("10.0.1.0/24", MetricType::Bps, 0),
        state("10.0.2.0/24", MetricType::Bps, 1),
        state("10.0.3.0/24", MetricType::Bps, 3),
    ];
    let after = vec![
        state("10.0.0.0/24", MetricType::Bps, 0),
        state("10.0.3.0/24", MetricType::Fps, 3),
    ];
    assert_eq!(removed_active(&before, &after), vec![1, 3, 4]);
    assert!(removed_active(&before, &before).is_empty());
    assert_eq!(removed_active(&before, &[]), vec![0, 1, 3, 4]);
}

#[test]
fn last_of_two_alerts_with_one_key_says_whether_it_was_active() {
    let state = |state: u8| AlertStateSnapshot {
        prefix: "10.0.0.0/24".to_string(),
        protocol: ProtocolCategory::Any,
        direction: Direction::Inbound,
        metric: MetricType::Bps,
        state,
    };
    assert!(removed_active(&[state(2), state(0)], &[]).is_empty());
    assert_eq!(removed_active(&[state(0), state(2)], &[]), vec![1]);
    assert_eq!(removed_active(&[state(2), state(2)], &[]), vec![1]);
}
