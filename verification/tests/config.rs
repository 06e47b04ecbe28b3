use fxhash::FxHashMap;
use netalert::config::{
    default_capture_buffer_size, default_mitigation_update_interval, sampling_rate_for,
    sampling_rates, AlertPolicyConfig, Config, ConfigError, Direction, DirectionMetrics,
    ExporterConfig, GlobalConfig, MetricThresholds, ProtocolCategory, RuleConfig, ThresholdPair,
};
use netalert::config::ProtocolCategory::{Any, Dns, Esp, Gre, Https, Icmp, Tcp, TcpSyn, Udp};
use netalert::double::Double;
use netalert::net::{IpAddr, Prefix};
use netalert::time::Duration;

fn threshold() -> Option<ThresholdPair> {
    Some(ThresholdPair { trigger: Double::from_bits(100f64.to_bits()), recover: None })
}

fn rule() -> RuleConfig {
    let metrics = MetricThresholds { bps: threshold(), pps: None, fps: None };
    RuleConfig {
        prefix: Prefix { addr: IpAddr::V4(0x0a000000), len: 24 },
        labels: FxHashMap::default(),
        alert_policy: None,
        thresholds: vec![
            (ProtocolCategory::Any, vec![(Direction::Inbound, DirectionMetrics { metrics })]),
            (ProtocolCategory::TcpSyn, vec![(Direction::Outbound, DirectionMetrics { metrics })]),
        ],
    }
}

fn config(rules: Vec<RuleConfig>) -> Config {
    Config {
        global: GlobalConfig {
            evaluation_interval: Duration::from_secs(1),
            window: Duration::from_secs(10),
            alert_script: None,
            capture_buffer_size: default_capture_buffer_size(),
            mitigation_update_interval: default_mitigation_update_interval(),
        },
        exporters: FxHashMap::default(),
        alert_policies: FxHashMap::default(),
        rules,
    }
}

#[test]
fn defaults_are_as_documented() {
    assert_eq!(default_capture_buffer_size(), 500);
    assert_eq!(default_mitigation_update_interval(), Duration::from_secs(30));
    assert_eq!(default_mitigation_update_interval().as_secs(), 30);
}

#[test]
fn flows_are_classified() {
    assert_eq!(ProtocolCategory::classify(6, 0, 80), vec![Any, Tcp]);
    assert_eq!(ProtocolCategory::classify(6, 0x12, 443), vec![Any, Tcp, TcpSyn, Https]);
    assert_eq!(ProtocolCategory::classify(6, 0x10, 53), vec![Any, Tcp, Dns]);
    assert_eq!(ProtocolCategory::classify(17, 0x02, 443), vec![Any, Udp]);
    assert_eq!(ProtocolCategory::classify(17, 0, 53), vec![Any, Udp, Dns]);
    assert_eq!(ProtocolCategory::classify(1, 0, 0), vec![Any, Icmp]);
    assert_eq!(ProtocolCategory::classify(58, 0, 0), vec![Any, Icmp]);
    assert_eq!(ProtocolCategory::classify(47, 0, 0), vec![Any, Gre]);
    assert_eq!(ProtocolCategory::classify(50, 0, 0), vec![Any, Esp]);
    assert_eq!(ProtocolCategory::classify(132, 0, 53), vec![Any]);
}

#[test]
fn names_are_snake_case() {
    assert_eq!(ProtocolCategory::TcpSyn.as_str(), "tcp_syn");
    assert_eq!(ProtocolCategory::Https.as_str(), "https");
    assert_eq!(Direction::Outbound.as_str(), "outbound");
}

#[test]
fn recovery_defaults_to_the_trigger() {
    let mut pair = threshold().unwrap();
    assert_eq!(pair.recover_value(), pair.trigger);
    pair.recover = Some(Double::from_bits(0));
    assert_eq!(pair.recover_value(), Double::from_bits(0));
}

#[test]
fn sound_configuration_is_accepted() {
    let mut c = config(vec![rule()]);
    c.rules[0].alert_policy = Some("ddos".to_string());
    c.alert_policies.insert(
        "ddos".to_string(),
        AlertPolicyConfig {
            trigger_for: Duration::from_secs(3),
            recover_for: Duration::from_secs(30),
        },
    );
    c.exporters.insert(
        "edge".to_string(),
        ExporterConfig { address: IpAddr::V4(1), sampling_rate: 1000 },
    );
    assert!(c.validate().is_ok());
}

#[test]
fn unknown_policy_is_refused() {
    let mut c = config(vec![rule(), rule()]);
    c.rules[1].alert_policy = Some("missing".to_string());
    let error = c.validate().unwrap_err();
    assert!(matches!(error, ConfigError::UnknownPolicy { rule: 1, .. }));
    assert_eq!(
        error.message(),
        "Rule 1 (prefix 10.0.0.0/24) references unknown alert_policy 'missing'"
    );
}

#[test]
fn rule_without_thresholds_is_refused() {
    let mut c = config(vec![rule()]);
    c.rules[0].thresholds.clear();
    let error = c.validate().unwrap_err();
    assert!(matches!(error, ConfigError::NoThresholds { rule: 0, .. }));
    assert_eq!(error.message(), "Rule 0 (prefix 10.0.0.0/24) has no thresholds defined");
}

#[test]
fn threshold_without_metrics_is_refused() {
    let mut c = config(vec![rule()]);
    c.rules[0].thresholds[1].1[0].1.metrics = MetricThresholds { bps: None, pps: None, fps: None };
    let error = c.validate().unwrap_err();
    assert!(matches!(error, ConfigError::NoMetrics { rule: 0, .. }));
    assert_eq!(
        error.message(),
        "Rule 0 (prefix 10.0.0.0/24): threshold tcp_syn/outbound has no metrics defined"
    );
}

#[test]
fn shared_exporter_address_is_refused() {
    let mut c = config(vec![rule()]);
    for name in ["one", "two"] {
        c.exporters.insert(
            name.to_string(),
            ExporterConfig { address: IpAddr::V6(1), sampling_rate: 10 },
        );
    }
    let error = c.validate().unwrap_err();
    match &error {
        ConfigError::DuplicateAddress { exporter, address } => {
            assert!(exporter == "one" || exporter == "two");
            assert_eq!(*address, IpAddr::V6(1));
            assert_eq!(
                error.message(),
                format!("Exporter '{exporter}' has duplicate address ::1")
            );
        }
        _ => panic!("{error:?}"),
    }
}

#[test]
fn rules_are_checked_before_exporters() {
    let mut c = config(vec![rule()]);
    c.rules[0].alert_policy = Some("missing".to_string());
    c.rules[0].thresholds.clear();
    for name in ["one", "two"] {
        c.exporters.insert(
            name.to_string(),
            ExporterConfig { address: IpAddr::V4(1), sampling_rate: 10 },
        );
    }
    assert!(matches!(c.validate(), Err(ConfigError::UnknownPolicy { .. })));
}

#[test]
fn each_exporter_keeps_its_rate() {
    let mut c = config(vec![]);
    for n in 0..20u32 {
        c.exporters.insert(
            format!("edge-{n}"),
            ExporterConfig { address: IpAddr::V4(n), sampling_rate: n * 10 },
        );
    }
    let rates = c.exporter_sampling_rates();
    assert_eq!(rates.len(), 20);
    for n in 0..20u32 {
        assert_eq!(sampling_rate_for(&rates, IpAddr::V4(n)), Some(n * 10));
    }
    assert_eq!(sampling_rate_for(&rates, IpAddr::V4(20)), None);
    assert_eq!(sampling_rate_for(&rates, IpAddr::V6(3)), None);
}

#[test]
fn last_exporter_of_an_address_decides() {
    let exporter = |address: u32, sampling_rate: u32| {
        (
            format!("{address}/{sampling_rate}"),
            ExporterConfig { address: IpAddr::V4(address), sampling_rate },
        )
    };
    let rates = sampling_rates(&vec![exporter(1, 10), exporter(2, 20), exporter(1, 30)]);
    assert_eq!(rates, vec![(IpAddr::V4(1), 30), (IpAddr::V4(2), 20)]);
}

#[test]
fn repeated_thresholds_are_not_valid() {
    let mut c = config(vec![rule()]);
    assert!(c.is_valid());
    c.rules[0].thresholds[1].0 = ProtocolCategory::Any;
    assert!(!c.is_valid());
    c.rules[0] = rule();
    let again = c.rules[0].thresholds[0].1[0];
    c.rules[0].thresholds[0].1.push(again);
    assert!(!c.is_valid());
    c.rules[0] = rule();
    c.rules[0].prefix.len = 33;
    assert!(!c.is_valid());
    c.rules[0].prefix.addr = IpAddr::V6(0);
    assert!(c.is_valid());
    c.rules[0].prefix.len = 129;
    assert!(!c.is_valid());
}
