use fxhash::FxHashMap;
use netalert::alert::{AlertStateSnapshot, MetricType};
use netalert::config::{Direction, ProtocolCategory};
use netalert::double::Double;
use netalert::processor::RateSnapshot;
use netalert::prometheus::{
    evaluation_seconds, new_shared_health, render_metrics, HealthCounts, HealthMetrics, RateTexts,
};
use std::sync::atomic::Ordering;

fn seconds(counts: &HealthCounts) -> String {
    format!("{}", f64::from_bits(evaluation_seconds(counts).to_bits()))
}

fn snapshot(prefix: &str, labels: &[(&str, &str)]) -> RateSnapshot {
    let mut map = FxHashMap::default();
    for (key, value) in labels {
        map.insert(key.to_string(), value.to_string());
    }
    RateSnapshot {
        prefix: prefix.to_string(),
        labels: map,
        protocol: ProtocolCategory::Tcp,
        direction: Direction::Inbound,
        bps: Double::from_bits(0),
        pps: Double::from_bits(0),
        fps: Double::from_bits(0),
    }
}

fn rates(bps: &str, pps: &str, fps: &str) -> RateTexts {
    RateTexts { bps: bps.to_string(), pps: pps.to_string(), fps: fps.to_string() }
}

#[test]
fn renders_health_and_alert_state() {
    let health = HealthMetrics::default();
    health.flows_received_netflow.store(10, Ordering::Relaxed);
    health.flows_dropped.store(2, Ordering::Relaxed);
    health.flow_channel_depth.store(7, Ordering::Relaxed);
    health
        .evaluation_duration_micros
        .store(1500, Ordering::Relaxed);

    let states = vec![AlertStateSnapshot {
        prefix: "10.0.0.0/24".to_string(),
        protocol: ProtocolCategory::Any,
        direction: Direction::Inbound,
        metric: MetricType::Bps,
        state: 2,
    }];

    let counts = health.counts();
    let out = render_metrics(
        &[],
        &[],
        &states,
        &counts,
        &seconds(&counts),
    );

    assert!(out.contains("netalert_flows_received_total{source=\"netflow\"} 10"));
    assert!(out.contains("netalert_flows_received_total{source=\"sflow\"} 0"));
    assert!(out.contains("netalert_flows_dropped_total 2"));
    assert!(out.contains("netalert_flow_channel_depth 7"));
    assert!(out.contains("netalert_evaluation_duration_seconds 0.0015"));
    assert!(out.contains(
        "netalert_alert_state{prefix=\"10.0.0.0/24\",protocol=\"any\",direction=\"inbound\",metric=\"bps\"} 2"
    ));
}

#[test]
fn whole_text_without_rates() {
    let counts = new_shared_health().counts();
    let out = render_metrics(&[], &[], &[], &counts, "0");
    assert_eq!(
        out,
        "# HELP netalert_bps Bits per second\n\
         # TYPE netalert_bps gauge\n\
         # HELP netalert_pps Packets per second\n\
         # TYPE netalert_pps gauge\n\
         # HELP netalert_fps Flows per second\n\
         # TYPE netalert_fps gauge\n\
         # HELP netalert_alert_state Alert state machine position (0=normal, 1=pending, 2=firing, 3=recovering)\n\
         # TYPE netalert_alert_state gauge\n\
         # HELP netalert_flows_received_total Flows received per collector\n\
         # TYPE netalert_flows_received_total counter\n\
         netalert_flows_received_total{source=\"netflow\"} 0\n\
         netalert_flows_received_total{source=\"sflow\"} 0\n\
         # HELP netalert_flows_dropped_total Flows dropped because the processing channel was full\n\
         # TYPE netalert_flows_dropped_total counter\n\
         netalert_flows_dropped_total 0\n\
         # HELP netalert_flow_channel_depth Flows currently queued for processing\n\
         # TYPE netalert_flow_channel_depth gauge\n\
         netalert_flow_channel_depth 0\n\
         # HELP netalert_evaluation_duration_seconds Duration of the last threshold evaluation pass\n\
         # TYPE netalert_evaluation_duration_seconds gauge\n\
         netalert_evaluation_duration_seconds 0\n"
    );
}

#[test]
fn labels_are_dimensions_in_one_order() {
    let snapshots = vec![
        snapshot("10.0.0.0/24", &[("segment", "customer"), ("az", "1")]),
        snapshot("10.1.0.0/24", &[("pop", "fra")]),
    ];
    let texts = vec![rates("45000000", "50000", "100"), rates("1", "2", "3")];
    let counts = HealthMetrics::default().counts();
    let out = render_metrics(&snapshots, &texts, &[], &counts, "0");
    assert!(out.contains(
        "# TYPE netalert_bps gauge\n\
         netalert_bps{prefix=\"10.0.0.0/24\",protocol=\"tcp\",direction=\"inbound\",az=\"1\",pop=\"\",segment=\"customer\"} 45000000\n\
         netalert_bps{prefix=\"10.1.0.0/24\",protocol=\"tcp\",direction=\"inbound\",az=\"\",pop=\"fra\",segment=\"\"} 1\n\
         # HELP netalert_pps Packets per second\n"
    ));
    assert!(out.contains(
        "netalert_pps{prefix=\"10.0.0.0/24\",protocol=\"tcp\",direction=\"inbound\",az=\"1\",pop=\"\",segment=\"customer\"} 50000\n"
    ));
    assert!(out.contains(
        "netalert_fps{prefix=\"10.1.0.0/24\",protocol=\"tcp\",direction=\"inbound\",az=\"\",pop=\"fra\",segment=\"\"} 3\n"
    ));
}

#[test]
fn evaluation_seconds_are_a_millionth_of_the_microseconds() {
    let mut counts = HealthMetrics::default().counts();
    for micros in [0u64, 1, 1500, 999_999, 1_000_000, 123_456_789, u64::MAX] {
        counts.evaluation_duration_micros = micros;
        let expected = micros as f64 / 1_000_000.0;
        assert_eq!(evaluation_seconds(&counts).to_bits(), expected.to_bits());
    }
}

#[test]
fn each_counter_is_read_into_its_own_count() {
    let health = new_shared_health();
    health.flows_received_netflow.store(1, Ordering::Relaxed);
    health.flows_received_sflow.store(2, Ordering::Relaxed);
    health.flows_dropped.store(3, Ordering::Relaxed);
    health.flow_channel_depth.store(4, Ordering::Relaxed);
    health.evaluation_duration_micros.store(5, Ordering::Relaxed);
    let counts = health.counts();
    assert_eq!(counts.flows_received_netflow, 1);
    assert_eq!(counts.flows_received_sflow, 2);
    assert_eq!(counts.flows_dropped, 3);
    assert_eq!(counts.flow_channel_depth, 4);
    assert_eq!(counts.evaluation_duration_micros, 5);
}
