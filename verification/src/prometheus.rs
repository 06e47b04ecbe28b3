//! The text of the metrics endpoint.

use crate::alert::{AlertStateSnapshot, MetricType};
use crate::double::{ratio_of, Double};
use crate::maps::{label_keys, label_map, label_value};
use crate::processor::RateSnapshot;
use crate::text::{
    decimal, decimal_text, lemma_join, place, sorting_is_an_order, stands_before, texts, Place,
};
use std::sync::atomic::{AtomicU64, Ordering};
use std::sync::Arc;
use vstd::prelude::*;
use vstd::string::*;

verus! {

/// Counters of the daemon itself, which are updated while it runs.
#[derive(Debug)]
pub struct HealthMetrics {
    pub flows_received_netflow: AtomicU64,
    pub flows_received_sflow: AtomicU64,
    /// Flows that were dropped because the processing channel was full.
    pub flows_dropped: AtomicU64,
    /// The present depth of the processing channel.
    pub flow_channel_depth: AtomicU64,
    /// The duration of the last evaluation, in microseconds.
    pub evaluation_duration_micros: AtomicU64,
}

/// What the counters of the daemon held when they were read.
#[derive(Clone, Copy, Debug, PartialEq, Eq, Structural)]
pub struct HealthCounts {
    pub flows_received_netflow: u64,
    pub flows_received_sflow: u64,
    pub flows_dropped: u64,
    pub flow_channel_depth: u64,
    pub evaluation_duration_micros: u64,
}

/// Whether a counter was made with the value 0.
pub open spec fn starts_at_zero(counter: AtomicU64) -> bool {
    call_ensures(AtomicU64::new, (0u64,), counter)
}

/// Whether a value was read from a counter.
pub open spec fn was_read(counter: AtomicU64, value: u64) -> bool {
    call_ensures(AtomicU64::load, (&counter, Ordering::Relaxed), value)
}

impl HealthMetrics {
    /// Whether each counter was made with the value 0.
    pub open spec fn is_new(self) -> bool {
        &&& starts_at_zero(self.flows_received_netflow)
        &&& starts_at_zero(self.flows_received_sflow)
        &&& starts_at_zero(self.flows_dropped)
        &&& starts_at_zero(self.flow_channel_depth)
        &&& starts_at_zero(self.evaluation_duration_micros)
    }
}

impl HealthCounts {
    /// Whether each count was read from its counter.
    pub open spec fn were_read(self, health: HealthMetrics) -> bool {
        &&& was_read(health.flows_received_netflow, self.flows_received_netflow)
        &&& was_read(health.flows_received_sflow, self.flows_received_sflow)
        &&& was_read(health.flows_dropped, self.flows_dropped)
        &&& was_read(health.flow_channel_depth, self.flow_channel_depth)
        &&& was_read(health.evaluation_duration_micros, self.evaluation_duration_micros)
    }
}

/// What a way to make a counter gives for 0.
fn made_at_zero<F: Fn(u64) -> AtomicU64>(make: F) -> (counter: AtomicU64)
    requires
        call_requires(make, (0u64,)),
    ensures
        call_ensures(make, (0u64,), counter),
{
    make(0)
}

/// What a way to read a counter gives for it.
fn read_by<F: Fn(&AtomicU64, Ordering) -> u64>(read: F, counter: &AtomicU64) -> (value: u64)
    requires
        call_requires(read, (counter, Ordering::Relaxed)),
    ensures
        call_ensures(read, (counter, Ordering::Relaxed), value),
{
    read(counter, Ordering::Relaxed)
}

impl Default for HealthMetrics {
    fn default() -> (health: HealthMetrics)
        ensures
            health.is_new(),
    {
        HealthMetrics {
            flows_received_netflow: made_at_zero(AtomicU64::new),
            flows_received_sflow: made_at_zero(AtomicU64::new),
            flows_dropped: made_at_zero(AtomicU64::new),
            flow_channel_depth: made_at_zero(AtomicU64::new),
            evaluation_duration_micros: made_at_zero(AtomicU64::new),
        }
    }
}

/// Counters that all parts of the daemon share, each of them made with the value 0.
pub fn new_shared_health() -> (health: Arc<HealthMetrics>)
    ensures
        health.is_new(),
{
    Arc::new(HealthMetrics::default())
}

impl HealthMetrics {
    /// Reads each counter. Others may change them at any time, so any values may come back.
    pub fn counts(&self) -> (counts: HealthCounts)
        ensures
            counts.were_read(*self),
    {
        HealthCounts {
            flows_received_netflow: read_by(AtomicU64::load, &self.flows_received_netflow),
            flows_received_sflow: read_by(AtomicU64::load, &self.flows_received_sflow),
            flows_dropped: read_by(AtomicU64::load, &self.flows_dropped),
            flow_channel_depth: read_by(AtomicU64::load, &self.flow_channel_depth),
            evaluation_duration_micros: read_by(AtomicU64::load, &self.evaluation_duration_micros),
        }
    }
}

/// The rates of a snapshot as text.
#[derive(Debug)]
pub struct RateTexts {
    pub bps: String,
    pub pps: String,
    pub fps: String,
}

/// The line of an alert's state.
pub open spec fn state_line(s: AlertStateSnapshot) -> Seq<char> {
    "netalert_alert_state{prefix=\""@ + s.prefix@ + "\",protocol=\""@ + s.protocol.text()
        + "\",direction=\""@ + s.direction.text() + "\",metric=\""@ + s.metric.text() + "\"} "@
        + decimal_text(s.state as nat) + "\n"@
}

/// The lines of some alerts' states.
pub open spec fn state_lines(states: Seq<AlertStateSnapshot>) -> Seq<char>
    decreases states.len(),
{
    if states.len() == 0 {
        Seq::empty()
    } else {
        state_lines(states.drop_last()) + state_line(states.last())
    }
}

/// The part of the alerts' states.
pub open spec fn states_text(states: Seq<AlertStateSnapshot>) -> Seq<char> {
    "# HELP netalert_alert_state Alert state machine position (0=normal, 1=pending, 2=firing, 3=recovering)\n"@
        + "# TYPE netalert_alert_state gauge\n"@ + state_lines(states)
}

/// Adds the part of the alerts' states.
pub fn render_alert_states(out: &mut String, states: &[AlertStateSnapshot])
    ensures
        final(out)@ == old(out)@ + states_text(states@),
{
    let ghost start = out@;
    out.append(
        "# HELP netalert_alert_state Alert state machine position (0=normal, 1=pending, 2=firing, 3=recovering)\n",
    );
    out.append("# TYPE netalert_alert_state gauge\n");
    let ghost middle = out@;
    let mut i: usize = 0;
    proof {
        assert(states@.take(0) =~= Seq::empty());
        assert(middle + state_lines(states@.take(0)) =~= middle);
    }
    while i < states.len()
        invariant
            i <= states@.len(),
            out@ == middle + state_lines(states@.take(i as int)),
        decreases states@.len() - i,
    {
        let s: &AlertStateSnapshot = &states[i];
        let ghost before = out@;
        out.append("netalert_alert_state{prefix=\"");
        out.append(s.prefix.as_str());
        out.append("\",protocol=\"");
        out.append(s.protocol.as_str());
        out.append("\",direction=\"");
        out.append(s.direction.as_str());
        out.append("\",metric=\"");
        out.append(s.metric.as_str());
        out.append("\"} ");
        out.append(decimal(s.state as u64).as_str());
        out.append("\n");
        proof {
            assert(out@ =~= before + state_line(*s));
            assert(states@.take(i + 1).drop_last() =~= states@.take(i as int));
            assert(states@.take(i + 1).last() == *s);
            assert(out@ =~= middle + state_lines(states@.take(i + 1)));
        }
        i = i + 1;
    }
    proof {
        assert(states@.take(i as int) =~= states@);
        assert(out@ =~= start + states_text(states@));
    }
}

/// The duration of the last evaluation in seconds.
pub fn evaluation_seconds(health: &HealthCounts) -> (seconds: Double)
    ensures
        seconds == ratio_of(health.evaluation_duration_micros as nat, 1_000_000),
{
    Double::ratio(health.evaluation_duration_micros as u128, 1_000_000)
}

/// The part of the counters. The duration of the last evaluation comes as text, in seconds.
pub open spec fn health_text(health: HealthCounts, seconds: Seq<char>) -> Seq<char> {
    "# HELP netalert_flows_received_total Flows received per collector\n"@
        + "# TYPE netalert_flows_received_total counter\n"@
        + "netalert_flows_received_total{source=\"netflow\"} "@ + decimal_text(
        health.flows_received_netflow as nat,
    ) + "\nnetalert_flows_received_total{source=\"sflow\"} "@ + decimal_text(
        health.flows_received_sflow as nat,
    ) + "\n# HELP netalert_flows_dropped_total Flows dropped because the processing channel was full\n"@
        + "# TYPE netalert_flows_dropped_total counter\n"@ + "netalert_flows_dropped_total "@
        + decimal_text(health.flows_dropped as nat)
        + "\n# HELP netalert_flow_channel_depth Flows currently queued for processing\n"@
        + "# TYPE netalert_flow_channel_depth gauge\n"@ + "netalert_flow_channel_depth "@
        + decimal_text(health.flow_channel_depth as nat)
        + "\n# HELP netalert_evaluation_duration_seconds Duration of the last threshold evaluation pass\n"@
        + "# TYPE netalert_evaluation_duration_seconds gauge\n"@
        + "netalert_evaluation_duration_seconds "@ + seconds + "\n"@
}

/// Adds the part of the counters. The duration of the last evaluation comes as text, in seconds.
pub fn render_health(out: &mut String, health: &HealthCounts, seconds: &str)
    ensures
        final(out)@ == old(out)@ + health_text(*health, seconds@),
{
    let ghost start = out@;
    out.append("# HELP netalert_flows_received_total Flows received per collector\n");
    out.append("# TYPE netalert_flows_received_total counter\n");
    out.append("netalert_flows_received_total{source=\"netflow\"} ");
    out.append(decimal(health.flows_received_netflow).as_str());
    out.append("\nnetalert_flows_received_total{source=\"sflow\"} ");
    out.append(decimal(health.flows_received_sflow).as_str());
    out.append(
        "\n# HELP netalert_flows_dropped_total Flows dropped because the processing channel was full\n",
    );
    out.append("# TYPE netalert_flows_dropped_total counter\n");
    out.append("netalert_flows_dropped_total ");
    out.append(decimal(health.flows_dropped).as_str());
    out.append("\n# HELP netalert_flow_channel_depth Flows currently queued for processing\n");
    out.append("# TYPE netalert_flow_channel_depth gauge\n");
    out.append("netalert_flow_channel_depth ");
    out.append(decimal(health.flow_channel_depth).as_str());
    out.append(
        "\n# HELP netalert_evaluation_duration_seconds Duration of the last threshold evaluation pass\n",
    );
    out.append("# TYPE netalert_evaluation_duration_seconds gauge\n");
    out.append("netalert_evaluation_duration_seconds ");
    out.append(seconds);
    out.append("\n");
    assert(out@ =~= start + health_text(*health, seconds@));
}

/// Whether a name is that of a label of some snapshot.
pub open spec fn is_label(snapshots: Seq<RateSnapshot>, name: Seq<char>) -> bool {
    exists|i: int|
        0 <= i < snapshots.len() && label_map((#[trigger] snapshots[i]).labels).contains_key(name)
}

/// Whether texts are sorted and none occurs twice.
pub open spec fn is_sorted(names: Seq<Seq<char>>) -> bool {
    forall|i: int, j: int|
        0 <= i < j < names.len() ==> stands_before(#[trigger] names[i], #[trigger] names[j])
}

/// Whether these are the names of all labels of some snapshots, sorted.
pub open spec fn lists_labels(names: Seq<Seq<char>>, snapshots: Seq<RateSnapshot>) -> bool {
    is_sorted(names) && forall|name: Seq<char>|
        #[trigger] names.contains(name) <==> is_label(snapshots, name)
}

/// The names of all labels of some snapshots, sorted.
pub open spec fn label_names(snapshots: Seq<RateSnapshot>) -> Seq<Seq<char>> {
    choose|names: Seq<Seq<char>>| lists_labels(names, snapshots)
}

/// There is one way to sort given texts.
pub proof fn one_sorted_list(a: Seq<Seq<char>>, b: Seq<Seq<char>>)
    requires
        is_sorted(a),
        is_sorted(b),
        forall|name: Seq<char>| #[trigger] a.contains(name) <==> b.contains(name),
    ensures
        a == b,
    decreases a.len(),
{
    if a.len() == 0 {
        if b.len() > 0 {
            assert(b.contains(b[0]));
            assert(a.contains(b[0]));
        }
        assert(a =~= b);
    } else {
        assert(a.contains(a[0]));
        assert(b.contains(a[0]));
        assert(b.contains(b[0]));
        assert(a.contains(b[0]));
        if a[0] != b[0] {
            let j = choose|j: int| 0 <= j < b.len() && b[j] == a[0];
            let k = choose|k: int| 0 <= k < a.len() && a[k] == b[0];
            sorting_is_an_order(a[0], b[0], a[0]);
        }
        let (x, y) = (a.skip(1), b.skip(1));
        assert forall|name: Seq<char>| #[trigger] x.contains(name) <==> y.contains(name) by {
            sorting_is_an_order(a[0], a[0], a[0]);
            if x.contains(name) {
                let i = choose|i: int| 0 <= i < x.len() && x[i] == name;
                assert(a[i + 1] == name);
                assert(a.contains(a[i + 1]));
                assert(b.contains(name));
                let k = choose|k: int| 0 <= k < b.len() && b[k] == name;
                assert(k > 0);
                assert(y[k - 1] == name);
            }
            if y.contains(name) {
                let i = choose|i: int| 0 <= i < y.len() && y[i] == name;
                assert(b[i + 1] == name);
                assert(b.contains(b[i + 1]));
                assert(a.contains(name));
                let k = choose|k: int| 0 <= k < a.len() && a[k] == name;
                assert(k > 0);
                assert(x[k - 1] == name);
            }
        }
        one_sorted_list(x, y);
        assert(a =~= seq![a[0]] + x);
        assert(b =~= seq![b[0]] + y);
    }
}


/// Puts a name into its place, where it is not there yet.
fn insert_name(names: &mut Vec<String>, name: String)
    requires
        is_sorted(texts(old(names)@)),
    ensures
        is_sorted(texts(final(names)@)),
        forall|other: Seq<char>|
            #[trigger] texts(final(names)@).contains(other) <==> texts(old(names)@).contains(other)
                || other == name@,
{
    let ghost before = texts(names@);
    let mut i: usize = 0;
    while i < names.len()
        invariant
            i <= names@.len(),
            before == texts(names@),
            is_sorted(before),
            names@ == old(names)@,
            forall|j: int| 0 <= j < i ==> stands_before(#[trigger] before[j], name@),
        decreases names@.len() - i,
    {
        match place(names[i].as_str(), name.as_str()) {
            Place::Before => {
                assert(stands_before(before[i as int], name@));
            },
            Place::Same => {
                assert(before[i as int] == name@);
                assert(before.contains(name@));
                return;
            },
            Place::After => {
                proof {
                    assert(before[i as int] == names@[i as int]@);
                    lemma_insert_sorted(before, name@, i as int);
                    assert(texts(names@.insert(i as int, name)) =~= before.insert(
                        i as int,
                        name@,
                    ));
                }
                names.insert(i, name);
                return;
            },
        }
        i = i + 1;
    }
    proof {
        lemma_insert_sorted(before, name@, i as int);
        assert(texts(names@.push(name)) =~= before.insert(i as int, name@));
    }
    names.push(name);
}

proof fn lemma_insert_sorted(names: Seq<Seq<char>>, name: Seq<char>, i: int)
    requires
        is_sorted(names),
        0 <= i <= names.len(),
        forall|j: int| 0 <= j < i ==> stands_before(#[trigger] names[j], name),
        i < names.len() ==> stands_before(name, names[i]),
    ensures
        is_sorted(names.insert(i, name)),
        forall|other: Seq<char>|
            #[trigger] names.insert(i, name).contains(other) <==> names.contains(other) || other
                == name,
{
    let more = names.insert(i, name);
    assert forall|a: int, b: int| 0 <= a < b < more.len() implies stands_before(
        #[trigger] more[a],
        #[trigger] more[b],
    ) by {
        if a == i && b > i + 1 {
            assert(stands_before(names[i], names[b - 1]));
            sorting_is_an_order(name, names[i], names[b - 1]);
        } else if a < i && b > i {
            assert(stands_before(names[a], names[b - 1]));
        } else if a > i {
            assert(stands_before(names[a - 1], names[b - 1]));
        }
    }
    assert forall|other: Seq<char>| #[trigger] more.contains(other) <==> names.contains(other)
        || other == name by {
        if names.contains(other) {
            let k = choose|k: int| 0 <= k < names.len() && names[k] == other;
            if k < i {
                assert(more[k] == other);
            } else {
                assert(more[k + 1] == other);
            }
        }
        assert(more[i] == name);
        if more.contains(other) {
            let k = choose|k: int| 0 <= k < more.len() && more[k] == other;
            if k < i {
                assert(names[k] == other);
            } else if k > i {
                assert(names[k - 1] == other);
            }
        }
    }
}

/// The names of all labels of some snapshots, sorted.
fn collect_labels(snapshots: &[RateSnapshot]) -> (names: Vec<String>)
    ensures
        texts(names@) == label_names(snapshots@),
        lists_labels(label_names(snapshots@), snapshots@),
{
    let mut names: Vec<String> = Vec::new();
    let mut i: usize = 0;
    while i < snapshots.len()
        invariant
            i <= snapshots@.len(),
            is_sorted(texts(names@)),
            forall|name: Seq<char>|
                #[trigger] texts(names@).contains(name) <==> is_label(
                    snapshots@.take(i as int),
                    name,
                ),
        decreases snapshots@.len() - i,
    {
        let keys: Vec<String> = label_keys(&snapshots[i].labels);
        let ghost own = keys@.map_values(|k: String| k@);
        let ghost before = texts(names@);
        let mut j: usize = 0;
        while j < keys.len()
            invariant
                j <= keys@.len(),
                own == keys@.map_values(|k: String| k@),
                is_sorted(texts(names@)),
                forall|name: Seq<char>|
                    #[trigger] texts(names@).contains(name) <==> before.contains(name)
                        || own.take(j as int).contains(name),
            decreases keys@.len() - j,
        {
            let ghost earlier = texts(names@);
            insert_name(&mut names, keys[j].clone());
            proof {
                assert forall|name: Seq<char>|
                    #[trigger] texts(names@).contains(name) <==> before.contains(name)
                        || own.take(j + 1).contains(name) by {
                    assert(own.take(j + 1) =~= own.take(j as int).push(own[j as int]));
                    let (shorter, longer) = (own.take(j as int), own.take(j + 1));
                    assert(earlier.contains(name) <==> before.contains(name)
                        || shorter.contains(name));
                    if shorter.contains(name) {
                        let k = choose|k: int| 0 <= k < shorter.len() && shorter[k] == name;
                        assert(longer[k] == name);
                    }
                    assert(longer[j as int] == own[j as int]);
                    if longer.contains(name) {
                        let k = choose|k: int| 0 <= k < longer.len() && longer[k] == name;
                        if k < j {
                            assert(shorter[k] == name);
                        }
                    }
                }
            }
            j = j + 1;
        }
        proof {
            let (shorter, longer) = (snapshots@.take(i as int), snapshots@.take(i + 1));
            let labels = snapshots@[i as int].labels;
            assert(own.take(j as int) =~= own);
            assert forall|name: Seq<char>| #[trigger] texts(names@).contains(name) <==> is_label(
                longer,
                name,
            ) by {
                assert(own.contains(name) <==> label_map(labels).contains_key(name)) by {
                    assert(own.to_set().contains(name) <==> own.contains(name));
                }
                assert(before.contains(name) <==> is_label(shorter, name));
                if is_label(shorter, name) {
                    let k = choose|k: int|
                        0 <= k < shorter.len() && label_map(
                            (#[trigger] shorter[k]).labels,
                        ).contains_key(name);
                    assert(longer[k] == shorter[k]);
                }
                assert(longer[i as int].labels == labels);
                if is_label(longer, name) {
                    let k = choose|k: int|
                        0 <= k < longer.len() && label_map(
                            (#[trigger] longer[k]).labels,
                        ).contains_key(name);
                    if k < i {
                        assert(shorter[k] == longer[k]);
                    }
                }
            }
        }
        i = i + 1;
    }
    proof {
        assert(snapshots@.take(i as int) =~= snapshots@);
        assert(lists_labels(texts(names@), snapshots@));
        one_sorted_list(texts(names@), label_names(snapshots@));
    }
    names
}

/// The labels of a series: each of the given names with the value that the snapshot has for it,
/// or with none.
pub open spec fn labels_text(snapshot: RateSnapshot, names: Seq<Seq<char>>) -> Seq<char>
    decreases names.len(),
{
    if names.len() == 0 {
        Seq::empty()
    } else {
        labels_text(snapshot, names.drop_last()) + ","@ + names.last() + "=\""@ + if label_map(
            snapshot.labels,
        ).contains_key(names.last()) {
            label_map(snapshot.labels)[names.last()]
        } else {
            Seq::empty()
        } + "\""@
    }
}

/// The name of the series of a metric.
pub open spec fn series_name(metric: MetricType) -> Seq<char> {
    match metric {
        MetricType::Bps => "netalert_bps"@,
        MetricType::Pps => "netalert_pps"@,
        MetricType::Fps => "netalert_fps"@,
    }
}

/// What a metric measures.
pub open spec fn series_help(metric: MetricType) -> Seq<char> {
    match metric {
        MetricType::Bps => "Bits per second"@,
        MetricType::Pps => "Packets per second"@,
        MetricType::Fps => "Flows per second"@,
    }
}

/// The rate of a metric, as text.
pub open spec fn rate_text(rate: RateTexts, metric: MetricType) -> Seq<char> {
    match metric {
        MetricType::Bps => rate.bps@,
        MetricType::Pps => rate.pps@,
        MetricType::Fps => rate.fps@,
    }
}

/// The line of a series.
pub open spec fn series_line(
    metric: MetricType,
    snapshot: RateSnapshot,
    names: Seq<Seq<char>>,
    value: Seq<char>,
) -> Seq<char> {
    series_name(metric) + "{prefix=\""@ + snapshot.prefix@ + "\",protocol=\""@
        + snapshot.protocol.text() + "\",direction=\""@ + snapshot.direction.text() + "\""@
        + labels_text(snapshot, names) + "} "@ + value + "\n"@
}

/// The lines of the series of a metric.
pub open spec fn series_lines(
    metric: MetricType,
    snapshots: Seq<RateSnapshot>,
    rates: Seq<RateTexts>,
    names: Seq<Seq<char>>,
    n: int,
) -> Seq<char>
    decreases n,
{
    if n <= 0 {
        Seq::empty()
    } else {
        series_lines(metric, snapshots, rates, names, n - 1) + series_line(
            metric,
            snapshots[n - 1],
            names,
            rate_text(rates[n - 1], metric),
        )
    }
}

/// The part of a metric.
pub open spec fn metric_text(
    metric: MetricType,
    snapshots: Seq<RateSnapshot>,
    rates: Seq<RateTexts>,
    names: Seq<Seq<char>>,
) -> Seq<char> {
    "# HELP "@ + series_name(metric) + " "@ + series_help(metric) + "\n# TYPE "@ + series_name(
        metric,
    ) + " gauge\n"@ + series_lines(metric, snapshots, rates, names, snapshots.len() as int)
}

/// The text of the metrics endpoint: the rates, the states of the alerts and the counters.
pub open spec fn metrics_text(
    snapshots: Seq<RateSnapshot>,
    rates: Seq<RateTexts>,
    states: Seq<AlertStateSnapshot>,
    health: HealthCounts,
    seconds: Seq<char>,
) -> Seq<char> {
    let names = label_names(snapshots);
    metric_text(MetricType::Bps, snapshots, rates, names) + metric_text(
        MetricType::Pps,
        snapshots,
        rates,
        names,
    ) + metric_text(MetricType::Fps, snapshots, rates, names) + states_text(states) + health_text(
        health,
        seconds,
    )
}

/// Adds the labels of a series.
fn render_labels(out: &mut String, snapshot: &RateSnapshot, names: &Vec<String>)
    ensures
        final(out)@ == old(out)@ + labels_text(*snapshot, texts(names@)),
{
    let ghost start = out@;
    let ghost all = texts(names@);
    let mut i: usize = 0;
    proof {
        assert(all.take(0) =~= Seq::empty());
        assert(start + labels_text(*snapshot, all.take(0)) =~= start);
    }
    while i < names.len()
        invariant
            i <= names@.len(),
            all == texts(names@),
            out@ == start + labels_text(*snapshot, all.take(i as int)),
        decreases names@.len() - i,
    {
        out.append(",");
        out.append(names[i].as_str());
        out.append("=\"");
        if let Some(value) = label_value(&snapshot.labels, names[i].as_str()) {
            out.append(value.as_str());
        }
        out.append("\"");
        proof {
            assert(all.take(i + 1).drop_last() =~= all.take(i as int));
            assert(all.take(i + 1).last() == names@[i as int]@);
            assert(out@ =~= start + labels_text(*snapshot, all.take(i + 1)));
        }
        i = i + 1;
    }
    assert(all.take(i as int) =~= all);
}

/// Adds the line of a series.
fn render_series(
    out: &mut String,
    metric: MetricType,
    name: &str,
    snapshot: &RateSnapshot,
    names: &Vec<String>,
    rates: &RateTexts,
)
    requires
        name@ == series_name(metric),
    ensures
        final(out)@ == old(out)@ + series_line(
            metric,
            *snapshot,
            texts(names@),
            rate_text(*rates, metric),
        ),
{
    let ghost start = out@;
    out.append(name);
    out.append("{prefix=\"");
    out.append(snapshot.prefix.as_str());
    out.append("\",protocol=\"");
    out.append(snapshot.protocol.as_str());
    out.append("\",direction=\"");
    out.append(snapshot.direction.as_str());
    out.append("\"");
    render_labels(out, snapshot, names);
    out.append("} ");
    match metric {
        MetricType::Bps => out.append(rates.bps.as_str()),
        MetricType::Pps => out.append(rates.pps.as_str()),
        MetricType::Fps => out.append(rates.fps.as_str()),
    }
    out.append("\n");
    proof {
        let a = name@;
        let b = a + "{prefix=\""@;
        let c = b + snapshot.prefix@;
        let d = c + "\",protocol=\""@;
        let e = d + snapshot.protocol.text();
        let f = e + "\",direction=\""@;
        let g = f + snapshot.direction.text();
        let h = g + "\""@;
        let i = h + labels_text(*snapshot, texts(names@));
        let j = i + "} "@;
        let k = j + rate_text(*rates, metric);
        lemma_join(start, a, "{prefix=\""@);
        lemma_join(start, b, snapshot.prefix@);
        lemma_join(start, c, "\",protocol=\""@);
        lemma_join(start, d, snapshot.protocol.text());
        lemma_join(start, e, "\",direction=\""@);
        lemma_join(start, f, snapshot.direction.text());
        lemma_join(start, g, "\""@);
        lemma_join(start, h, labels_text(*snapshot, texts(names@)));
        lemma_join(start, i, "} "@);
        lemma_join(start, j, rate_text(*rates, metric));
        lemma_join(start, k, "\n"@);
    }
}

/// Adds the part of a metric.
fn render_metric(
    out: &mut String,
    metric: MetricType,
    snapshots: &[RateSnapshot],
    rates: &[RateTexts],
    names: &Vec<String>,
)
    requires
        rates@.len() == snapshots@.len(),
    ensures
        final(out)@ == old(out)@ + metric_text(metric, snapshots@, rates@, texts(names@)),
{
    let (name, help): (&str, &str) = match metric {
        MetricType::Bps => ("netalert_bps", "Bits per second"),
        MetricType::Pps => ("netalert_pps", "Packets per second"),
        MetricType::Fps => ("netalert_fps", "Flows per second"),
    };
    let ghost start = out@;
    out.append("# HELP ");
    out.append(name);
    out.append(" ");
    out.append(help);
    out.append("\n# TYPE ");
    out.append(name);
    out.append(" gauge\n");
    let ghost middle = out@;
    let mut i: usize = 0;
    assert(middle + series_lines(metric, snapshots@, rates@, texts(names@), 0) =~= middle);
    while i < snapshots.len()
        invariant
            i <= snapshots@.len(),
            rates@.len() == snapshots@.len(),
            name@ == series_name(metric),
            out@ == middle + series_lines(metric, snapshots@, rates@, texts(names@), i as int),
        decreases snapshots@.len() - i,
    {
        render_series(out, metric, name, &snapshots[i], names, &rates[i]);
        proof {
            lemma_join(
                middle,
                series_lines(metric, snapshots@, rates@, texts(names@), i as int),
                series_line(
                    metric,
                    snapshots@[i as int],
                    texts(names@),
                    rate_text(rates@[i as int], metric),
                ),
            );
        }
        i = i + 1;
    }
    assert(out@ =~= start + metric_text(metric, snapshots@, rates@, texts(names@)));
}

/// The text of the metrics endpoint. The rates come as text too, one entry for each snapshot, and
/// so does the duration of the last evaluation, in seconds.
pub fn render_metrics(
    snapshots: &[RateSnapshot],
    rates: &[RateTexts],
    alert_states: &[AlertStateSnapshot],
    health: &HealthCounts,
    seconds: &str,
) -> (out: String)
    requires
        rates@.len() == snapshots@.len(),
    ensures
        lists_labels(label_names(snapshots@), snapshots@),
        out@ == metrics_text(snapshots@, rates@, alert_states@, *health, seconds@),
{
    let names: Vec<String> = collect_labels(snapshots);
    let mut out: String = "".to_owned();
    proof {
        reveal_strlit("");
        assert(out@ =~= Seq::<char>::empty());
    }
    render_metric(&mut out, MetricType::Bps, snapshots, rates, &names);
    render_metric(&mut out, MetricType::Pps, snapshots, rates, &names);
    render_metric(&mut out, MetricType::Fps, snapshots, rates, &names);
    render_alert_states(&mut out, alert_states);
    render_health(&mut out, health, seconds);
    assert(out@ =~= metrics_text(snapshots@, rates@, alert_states@, *health, seconds@));
    out
}

} // verus!
