//! What the texts that leave the library hold.

use crate::alert::{AlertStateSnapshot, MetricType};
use crate::config::ConfigError;
use crate::double::{double_of, quotient_of, Double};
use crate::maps::label_map;
use crate::net::{text_of_address, text_of_prefix, Prefix};
use crate::processor::{HostBitsSet, RateSnapshot};
use crate::prometheus::{
    evaluation_seconds, health_text, is_label, label_names, labels_text, lists_labels, metric_text,
    metrics_text, new_shared_health, rate_text, render_metrics, series_help, series_line,
    series_lines, series_name, state_line, state_lines, states_text, HealthCounts, HealthMetrics,
    RateTexts,
};
use crate::text::{decimal_text, differs_at, lemma_differs, lemma_join, stands_before};
use std::sync::atomic::{AtomicU64, Ordering};
use std::sync::Arc;
use vstd::prelude::*;

verus! {

/// Whether a part stands in a text at a place.
pub open spec fn stands_at(text: Seq<char>, part: Seq<char>, at: int) -> bool {
    0 <= at && at + part.len() <= text.len() && text.subrange(at, at + part.len()) == part
}

/// Whether a text holds a part.
pub open spec fn holds(text: Seq<char>, part: Seq<char>) -> bool {
    exists|at: int| #[trigger] stands_at(text, part, at)
}

proof fn lemma_between(before: Seq<char>, part: Seq<char>, after: Seq<char>)
    ensures
        holds(before + part + after, part),
{
    let text = before + part + after;
    let at = before.len() as int;
    assert(text.subrange(at, at + part.len()) =~= part);
    assert(stands_at(text, part, at));
}

proof fn lemma_held_in_longer(
    before: Seq<char>,
    middle: Seq<char>,
    after: Seq<char>,
    part: Seq<char>,
)
    requires
        holds(middle, part),
    ensures
        holds(before + middle + after, part),
{
    let m = choose|at: int| #[trigger] stands_at(middle, part, at);
    let text = before + middle + after;
    let at = before.len() + m;
    assert(text.subrange(at, at + part.len()) =~= middle.subrange(m, m + part.len()));
    assert(stands_at(text, part, at));
}

proof fn lemma_five_parts(
    a: Seq<char>,
    b: Seq<char>,
    c: Seq<char>,
    d: Seq<char>,
    e: Seq<char>,
    line: Seq<char>,
)
    ensures
        holds(a, line) || holds(b, line) || holds(c, line) || holds(d, line) || holds(e, line)
            ==> holds(a + b + c + d + e, line),
{
    let none = Seq::<char>::empty();
    let all = a + b + c + d + e;
    if holds(a, line) {
        lemma_held_in_longer(none, a, b + c + d + e, line);
        assert(none + a + (b + c + d + e) =~= all);
    } else if holds(b, line) {
        lemma_held_in_longer(a, b, c + d + e, line);
        assert(a + b + (c + d + e) =~= all);
    } else if holds(c, line) {
        lemma_held_in_longer(a + b, c, d + e, line);
        assert(a + b + c + (d + e) =~= all);
    } else if holds(d, line) {
        lemma_held_in_longer(a + b + c, d, e, line);
        assert(a + b + c + d + e =~= all);
    } else if holds(e, line) {
        lemma_held_in_longer(a + b + c + d, e, none, line);
        assert(a + b + c + d + e + none =~= all);
    }
}

/// A label of a series: the name with the value that the snapshot has for it, or with none.
pub open spec fn label_of(snapshot: RateSnapshot, name: Seq<char>) -> Seq<char> {
    let labels = label_map(snapshot.labels);
    let value = if labels.dom().contains(name) {
        labels[name]
    } else {
        Seq::empty()
    };
    ","@ + name + "=\""@ + value + "\""@
}

/// The labels of a series, in the order of some names.
pub open spec fn labels_of(snapshot: RateSnapshot, names: Seq<Seq<char>>) -> Seq<char>
    decreases names.len(),
{
    if names.len() == 0 {
        Seq::empty()
    } else {
        label_of(snapshot, names[0]) + labels_of(snapshot, names.drop_first())
    }
}

proof fn lemma_last_label(snapshot: RateSnapshot, names: Seq<Seq<char>>)
    requires
        names.len() > 0,
    ensures
        labels_text(snapshot, names) == labels_text(snapshot, names.drop_last()) + label_of(
            snapshot,
            names.last(),
        ),
{
    let (earlier, last) = (labels_text(snapshot, names.drop_last()), names.last());
    let value = if label_map(snapshot.labels).contains_key(last) {
        label_map(snapshot.labels)[last]
    } else {
        Seq::empty()
    };
    assert(earlier + ","@ + last + "=\""@ + value + "\""@ =~= earlier + (","@ + last + "=\""@ + value
        + "\""@));
}

proof fn lemma_labels(snapshot: RateSnapshot, names: Seq<Seq<char>>)
    ensures
        labels_text(snapshot, names) == labels_of(snapshot, names),
    decreases names.len(),
{
    if names.len() == 1 {
        lemma_last_label(snapshot, names);
        assert(names.drop_last() =~= Seq::empty());
        assert(names.drop_first() =~= Seq::empty());
        let label = label_of(snapshot, names[0]);
        let none = Seq::<char>::empty();
        assert(labels_text(snapshot, names.drop_last()) == none);
        assert(labels_of(snapshot, names.drop_first()) == none);
        assert(none + label =~= label + none);
    } else if names.len() > 1 {
        let (front, back) = (names.drop_last(), names.drop_first());
        assert(back.drop_last() =~= front.drop_first());
        lemma_last_label(snapshot, names);
        lemma_last_label(snapshot, back);
        lemma_labels(snapshot, front);
        lemma_labels(snapshot, back);
        lemma_labels(snapshot, back.drop_last());
        let (first, last) = (label_of(snapshot, names[0]), label_of(snapshot, names.last()));
        let middle = labels_of(snapshot, front.drop_first());
        assert(front[0] == names[0] && back.last() == names.last());
        assert(labels_of(snapshot, front) == first + middle);
        assert(labels_of(snapshot, back) == middle + last);
        assert(labels_of(snapshot, names) == first + labels_of(snapshot, back));
        assert(first + middle + last =~= first + (middle + last));
    }
}

/// The line of a series: its name, what is measured, all labels and the value.
pub open spec fn line_of(
    metric: MetricType,
    snapshot: RateSnapshot,
    names: Seq<Seq<char>>,
    value: RateTexts,
) -> Seq<char> {
    (match metric {
        MetricType::Bps => "netalert_bps"@,
        MetricType::Pps => "netalert_pps"@,
        MetricType::Fps => "netalert_fps"@,
    }) + "{prefix=\""@ + snapshot.prefix@ + "\",protocol=\""@ + snapshot.protocol.text()
        + "\",direction=\""@ + snapshot.direction.text() + "\""@ + labels_of(snapshot, names) + "} "@
        + (match metric {
        MetricType::Bps => value.bps@,
        MetricType::Pps => value.pps@,
        MetricType::Fps => value.fps@,
    }) + "\n"@
}

/// Whether a text ends, or has the lower character, at the first place at which it differs from
/// another one.
pub open spec fn is_sorted_before(a: Seq<char>, b: Seq<char>) -> bool {
    exists|at: int| #[trigger] differs_at(a, b, at)
}

/// Whether these are the names of all labels that some snapshot has, each once and sorted.
pub open spec fn are_label_names(names: Seq<Seq<char>>, snapshots: Seq<RateSnapshot>) -> bool {
    &&& forall|i: int, j: int|
        0 <= i < j < names.len() ==> is_sorted_before(#[trigger] names[i], #[trigger] names[j])
    &&& forall|name: Seq<char>| #[trigger]
        names.contains(name) <==> exists|i: int|
            0 <= i < snapshots.len() && label_map(
                (#[trigger] snapshots[i]).labels,
            ).dom().contains(name)
}

/// Each snapshot has a line for each of its three rates, with the labels of all snapshots in one
/// order.
pub proof fn each_rate_has_its_line(
    snapshots: &[RateSnapshot],
    rates: &[RateTexts],
    states: &[AlertStateSnapshot],
    health: HealthCounts,
    seconds: &str,
    out: String,
    i: int,
    metric: MetricType,
)
    requires
        rates@.len() == snapshots@.len(),
        call_ensures(render_metrics, (snapshots, rates, states, &health, seconds), out),
        0 <= i < snapshots@.len(),
    ensures
        exists|names: Seq<Seq<char>>| #[trigger]
            are_label_names(names, snapshots@) && holds(
                out@,
                line_of(metric, snapshots@[i], names, rates@[i]),
            ),
{
    let names = label_names(snapshots@);
    lemma_names(names, snapshots@);
    let n = snapshots@.len() as int;
    lemma_series(metric, snapshots@, rates@, names, n, i);
    let line = line_of(metric, snapshots@[i], names, rates@[i]);
    lemma_metric_holds(metric, snapshots@, rates@, names, line);
    let bps = metric_text(MetricType::Bps, snapshots@, rates@, names);
    let pps = metric_text(MetricType::Pps, snapshots@, rates@, names);
    let fps = metric_text(MetricType::Fps, snapshots@, rates@, names);
    lemma_five_parts(bps, pps, fps, states_text(states@), health_text(health, seconds@), line);
    assert(are_label_names(names, snapshots@));
}

proof fn lemma_names(names: Seq<Seq<char>>, snapshots: Seq<RateSnapshot>)
    requires
        lists_labels(names, snapshots),
    ensures
        are_label_names(names, snapshots),
{
    assert forall|i: int, j: int| 0 <= i < j < names.len() implies is_sorted_before(
        #[trigger] names[i],
        #[trigger] names[j],
    ) by {
        assert(stands_before(names[i], names[j]));
        lemma_differs(names[i], names[j]);
    }
    assert forall|name: Seq<char>| #[trigger] names.contains(name) <==> exists|i: int|
        0 <= i < snapshots.len() && label_map((#[trigger] snapshots[i]).labels).dom().contains(
            name,
        ) by {
        assert(names.contains(name) <==> is_label(snapshots, name));
    }
}

proof fn lemma_series(
    metric: MetricType,
    snapshots: Seq<RateSnapshot>,
    rates: Seq<RateTexts>,
    names: Seq<Seq<char>>,
    n: int,
    i: int,
)
    requires
        0 <= i < n,
    ensures
        holds(
            series_lines(metric, snapshots, rates, names, n),
            line_of(metric, snapshots[i], names, rates[i]),
        ),
    decreases n,
{
    let line = line_of(metric, snapshots[i], names, rates[i]);
    let earlier = series_lines(metric, snapshots, rates, names, n - 1);
    let none = Seq::<char>::empty();
    let all = series_lines(metric, snapshots, rates, names, n);
    if i < n - 1 {
        let last = series_line(
            metric,
            snapshots[n - 1],
            names,
            rate_text(rates[n - 1], metric),
        );
        lemma_series(metric, snapshots, rates, names, n - 1, i);
        lemma_held_in_longer(none, earlier, last, line);
        assert(all =~= none + earlier + last);
    } else {
        lemma_labels(snapshots[i], names);
        lemma_between(earlier, line, none);
        assert(all =~= earlier + line + none);
    }
}

proof fn lemma_metric_holds(
    metric: MetricType,
    snapshots: Seq<RateSnapshot>,
    rates: Seq<RateTexts>,
    names: Seq<Seq<char>>,
    line: Seq<char>,
)
    requires
        holds(series_lines(metric, snapshots, rates, names, snapshots.len() as int), line),
    ensures
        holds(metric_text(metric, snapshots, rates, names), line),
{
    let lines = series_lines(metric, snapshots, rates, names, snapshots.len() as int);
    let head = "# HELP "@ + series_name(metric) + " "@ + series_help(metric)
        + "\n# TYPE "@ + series_name(metric) + " gauge\n"@;
    let none = Seq::<char>::empty();
    lemma_held_in_longer(head, lines, none, line);
    assert(metric_text(metric, snapshots, rates, names) =~= head + lines + none);
}

/// Each alert has a line with what it watches and the number of its state.
pub proof fn each_state_has_its_line(
    snapshots: &[RateSnapshot],
    rates: &[RateTexts],
    states: &[AlertStateSnapshot],
    health: HealthCounts,
    seconds: &str,
    out: String,
    i: int,
)
    requires
        rates@.len() == snapshots@.len(),
        call_ensures(render_metrics, (snapshots, rates, states, &health, seconds), out),
        0 <= i < states@.len(),
    ensures
        holds(
            out@,
            "netalert_alert_state{prefix=\""@ + states@[i].prefix@ + "\",protocol=\""@
                + states@[i].protocol.text() + "\",direction=\""@ + states@[i].direction.text()
                + "\",metric=\""@ + states@[i].metric.text() + "\"} "@ + decimal_text(
                states@[i].state as nat,
            ) + "\n"@,
        ),
{
    let names = label_names(snapshots@);
    let line = state_line(states@[i]);
    lemma_state_lines(states@, i);
    let head =
        "# HELP netalert_alert_state Alert state machine position (0=normal, 1=pending, 2=firing, 3=recovering)\n"@
        + "# TYPE netalert_alert_state gauge\n"@;
    let none = Seq::<char>::empty();
    lemma_held_in_longer(head, state_lines(states@), none, line);
    assert(states_text(states@) =~= head + state_lines(states@) + none);
    lemma_five_parts(
        metric_text(MetricType::Bps, snapshots@, rates@, names),
        metric_text(MetricType::Pps, snapshots@, rates@, names),
        metric_text(MetricType::Fps, snapshots@, rates@, names),
        states_text(states@),
        health_text(health, seconds@),
        line,
    );
}

proof fn lemma_state_lines(states: Seq<AlertStateSnapshot>, i: int)
    requires
        0 <= i < states.len(),
    ensures
        holds(state_lines(states), state_line(states[i])),
    decreases states.len(),
{
    let shorter = states.drop_last();
    let none = Seq::<char>::empty();
    if i < shorter.len() {
        lemma_state_lines(shorter, i);
        lemma_held_in_longer(
            none,
            state_lines(shorter),
            state_line(states.last()),
            state_line(states[i]),
        );
        assert(state_lines(states) =~= none + state_lines(shorter) + state_line(states.last()));
    } else {
        lemma_between(state_lines(shorter), state_line(states[i]), none);
        assert(state_lines(states) =~= state_lines(shorter) + state_line(states[i]) + none);
    }
}

/// The duration of the last evaluation is its microseconds, divided by a million.
pub proof fn evaluation_is_shown_in_seconds(health: HealthCounts, seconds: Double)
    requires
        call_ensures(evaluation_seconds, (&health,), seconds),
    ensures
        seconds == quotient_of(
            double_of(health.evaluation_duration_micros as nat),
            double_of(1_000_000),
        ),
{
}

/// A refused configuration is told by the number and the prefix of the rule, and by what is wrong
/// with it.
pub proof fn messages_name_the_fault(error: ConfigError, text: String)
    requires
        error.prefix_valid(),
        call_ensures(ConfigError::message, (&error,), text),
    ensures
        match error {
            ConfigError::UnknownPolicy { rule, prefix, policy } => {
                &&& holds(text@, names_rule(rule, prefix))
                &&& holds(text@, ") references unknown alert_policy '"@ + policy@ + "'"@)
            },
            ConfigError::NoThresholds { rule, prefix } => {
                &&& holds(text@, names_rule(rule, prefix))
                &&& holds(text@, ") has no thresholds defined"@)
            },
            ConfigError::NoMetrics { rule, prefix, protocol, direction } => {
                &&& holds(text@, names_rule(rule, prefix))
                &&& holds(
                    text@,
                    "): threshold "@ + protocol.text() + "/"@ + direction.text()
                        + " has no metrics defined"@,
                )
            },
            ConfigError::DuplicateAddress { exporter, address } => {
                &&& holds(text@, "Exporter '"@ + exporter@)
                &&& holds(text@, "' has duplicate address "@ + text_of_address(address))
            },
        },
{
    let (head, tail) = match error {
        ConfigError::UnknownPolicy { rule, prefix, policy } => (
            names_rule(rule, prefix),
            ") references unknown alert_policy '"@ + policy@ + "'"@,
        ),
        ConfigError::NoThresholds { rule, prefix } => (
            names_rule(rule, prefix),
            ") has no thresholds defined"@,
        ),
        ConfigError::NoMetrics { rule, prefix, protocol, direction } => (
            names_rule(rule, prefix),
            "): threshold "@ + protocol.text() + "/"@ + direction.text()
                + " has no metrics defined"@,
        ),
        ConfigError::DuplicateAddress { exporter, address } => (
            "Exporter '"@ + exporter@,
            "' has duplicate address "@ + text_of_address(address),
        ),
    };
    assert(text@ =~= head + tail);
    lemma_two_parts(head, tail);
}

/// How the number and the prefix of a rule are told.
pub open spec fn names_rule(rule: usize, prefix: Prefix) -> Seq<char> {
    "Rule "@ + decimal_text(rule as nat) + " (prefix "@ + text_of_prefix(prefix)
}

proof fn lemma_two_parts(head: Seq<char>, tail: Seq<char>)
    ensures
        holds(head + tail, head),
        holds(head + tail, tail),
{
    let none = Seq::<char>::empty();
    lemma_between(none, head, tail);
    lemma_between(head, tail, none);
    assert(none + head + tail =~= head + tail);
    assert(head + tail + none =~= head + tail);
}

/// A refused prefix is told, and why it is refused.
pub proof fn a_refused_prefix_is_told(error: HostBitsSet, text: String)
    requires
        error.prefix.valid(),
        call_ensures(HostBitsSet::message, (&error,), text),
    ensures
        holds(text@, "Invalid prefix "@ + text_of_prefix(error.prefix)),
        holds(text@, ": IP network address has host bits set"@),
{
    lemma_two_parts(
        "Invalid prefix "@ + text_of_prefix(error.prefix),
        ": IP network address has host bits set"@,
    );
}

/// Each counter of the daemon has its own line.
pub proof fn each_counter_has_its_line(
    snapshots: &[RateSnapshot],
    rates: &[RateTexts],
    states: &[AlertStateSnapshot],
    health: HealthCounts,
    seconds: &str,
    out: String,
)
    requires
        rates@.len() == snapshots@.len(),
        call_ensures(render_metrics, (snapshots, rates, states, &health, seconds), out),
    ensures
        holds(
            out@,
            "netalert_flows_received_total{source=\"netflow\"} "@ + decimal_text(
                health.flows_received_netflow as nat,
            ),
        ),
        holds(
            out@,
            "\nnetalert_flows_received_total{source=\"sflow\"} "@ + decimal_text(
                health.flows_received_sflow as nat,
            ),
        ),
        holds(
            out@,
            "netalert_flows_dropped_total "@ + decimal_text(health.flows_dropped as nat),
        ),
        holds(
            out@,
            "netalert_flow_channel_depth "@ + decimal_text(health.flow_channel_depth as nat),
        ),
        holds(out@, "netalert_evaluation_duration_seconds "@ + seconds@ + "\n"@),
{
    let text = health_text(health, seconds@);
    let a1 = "netalert_flows_received_total{source=\"netflow\"} "@;
    let a2 = decimal_text(health.flows_received_netflow as nat);
    let b1 = "\nnetalert_flows_received_total{source=\"sflow\"} "@;
    let b2 = decimal_text(health.flows_received_sflow as nat);
    let c1 = "netalert_flows_dropped_total "@;
    let c2 = decimal_text(health.flows_dropped as nat);
    let d1 = "netalert_flow_channel_depth "@;
    let d2 = decimal_text(health.flow_channel_depth as nat);
    let e1 = "netalert_evaluation_duration_seconds "@;
    let (a, b, c, d, e) = (a1 + a2, b1 + b2, c1 + c2, d1 + d2, e1 + seconds@ + "\n"@);
    let h1 = "# HELP netalert_flows_received_total Flows received per collector\n"@
        + "# TYPE netalert_flows_received_total counter\n"@;
    let h21 =
        "\n# HELP netalert_flows_dropped_total Flows dropped because the processing channel was full\n"@;
    let h22 = "# TYPE netalert_flows_dropped_total counter\n"@;
    let h31 = "\n# HELP netalert_flow_channel_depth Flows currently queued for processing\n"@;
    let h32 = "# TYPE netalert_flow_channel_depth gauge\n"@;
    let h41 =
        "\n# HELP netalert_evaluation_duration_seconds Duration of the last threshold evaluation pass\n"@;
    let h42 = "# TYPE netalert_evaluation_duration_seconds gauge\n"@;
    let (h2, h3, h4) = (h21 + h22, h31 + h32, h41 + h42);
    lemma_join(h1, a1, a2);
    lemma_join(h1 + a, b1, b2);
    lemma_join(h1 + a + b, h21, h22);
    lemma_join(h1 + a + b + h2, c1, c2);
    lemma_join(h1 + a + b + h2 + c, h31, h32);
    lemma_join(h1 + a + b + h2 + c + h3, d1, d2);
    lemma_join(h1 + a + b + h2 + c + h3 + d, h41, h42);
    lemma_join(h1 + a + b + h2 + c + h3 + d + h4, e1, seconds@);
    lemma_join(h1 + a + b + h2 + c + h3 + d + h4, e1 + seconds@, "\n"@);
    assert(text == h1 + a + b + h2 + c + h3 + d + h4 + e);
    lemma_nine_parts(h1, a, b, h2, c, h3, d, h4, e);
    lemma_in_the_end(snapshots@, rates@, states@, health, seconds@, a);
    lemma_in_the_end(snapshots@, rates@, states@, health, seconds@, b);
    lemma_in_the_end(snapshots@, rates@, states@, health, seconds@, c);
    lemma_in_the_end(snapshots@, rates@, states@, health, seconds@, d);
    lemma_in_the_end(snapshots@, rates@, states@, health, seconds@, e);
}

proof fn lemma_nine_parts(
    h1: Seq<char>,
    a: Seq<char>,
    b: Seq<char>,
    h2: Seq<char>,
    c: Seq<char>,
    h3: Seq<char>,
    d: Seq<char>,
    h4: Seq<char>,
    e: Seq<char>,
)
    ensures
        ({
            let text = h1 + a + b + h2 + c + h3 + d + h4 + e;
            holds(text, a) && holds(text, b) && holds(text, c) && holds(text, d) && holds(text, e)
        }),
{
    let (t1, t2, t3, t4) = (h1 + a, h1 + a + b, h1 + a + b + h2 + c, h1 + a + b + h2 + c + h3 + d);
    lemma_two_parts(h1, a);
    lemma_two_parts(t1, b);
    lemma_two_parts(t2 + h2, c);
    lemma_two_parts(t3 + h3, d);
    lemma_two_parts(t4 + h4, e);
    lemma_held_in_start(t1, b, a);
    lemma_held_in_start(t2, h2, a);
    lemma_held_in_start(t2, h2, b);
    lemma_held_in_start(t2 + h2, c, a);
    lemma_held_in_start(t2 + h2, c, b);
    lemma_held_in_start(t3, h3, a);
    lemma_held_in_start(t3, h3, b);
    lemma_held_in_start(t3, h3, c);
    lemma_held_in_start(t3 + h3, d, a);
    lemma_held_in_start(t3 + h3, d, b);
    lemma_held_in_start(t3 + h3, d, c);
    lemma_held_in_start(t4, h4, a);
    lemma_held_in_start(t4, h4, b);
    lemma_held_in_start(t4, h4, c);
    lemma_held_in_start(t4, h4, d);
    lemma_held_in_start(t4 + h4, e, a);
    lemma_held_in_start(t4 + h4, e, b);
    lemma_held_in_start(t4 + h4, e, c);
    lemma_held_in_start(t4 + h4, e, d);
}

proof fn lemma_held_in_start(start: Seq<char>, after: Seq<char>, part: Seq<char>)
    requires
        holds(start, part),
    ensures
        holds(start + after, part),
{
    let none = Seq::<char>::empty();
    lemma_held_in_longer(none, start, after, part);
    assert(none + start + after =~= start + after);
}

proof fn lemma_in_the_end(
    snapshots: Seq<RateSnapshot>,
    rates: Seq<RateTexts>,
    states: Seq<AlertStateSnapshot>,
    health: HealthCounts,
    seconds: Seq<char>,
    line: Seq<char>,
)
    requires
        holds(health_text(health, seconds), line),
    ensures
        holds(metrics_text(snapshots, rates, states, health, seconds), line),
{
    let names = label_names(snapshots);
    lemma_five_parts(
        metric_text(MetricType::Bps, snapshots, rates, names),
        metric_text(MetricType::Pps, snapshots, rates, names),
        metric_text(MetricType::Fps, snapshots, rates, names),
        states_text(states),
        health_text(health, seconds),
        line,
    );
}

/// Each count is what its own counter was read to hold.
pub proof fn each_count_is_of_its_counter(health: HealthMetrics, counts: HealthCounts)
    requires
        call_ensures(HealthMetrics::counts, (&health,), counts),
    ensures
        call_ensures(
            AtomicU64::load,
            (&health.flows_received_netflow, Ordering::Relaxed),
            counts.flows_received_netflow,
        ),
        call_ensures(
            AtomicU64::load,
            (&health.flows_received_sflow, Ordering::Relaxed),
            counts.flows_received_sflow,
        ),
        call_ensures(
            AtomicU64::load,
            (&health.flows_dropped, Ordering::Relaxed),
            counts.flows_dropped,
        ),
        call_ensures(
            AtomicU64::load,
            (&health.flow_channel_depth, Ordering::Relaxed),
            counts.flow_channel_depth,
        ),
        call_ensures(
            AtomicU64::load,
            (&health.evaluation_duration_micros, Ordering::Relaxed),
            counts.evaluation_duration_micros,
        ),
{
}

/// The shared counters are made with 0.
pub proof fn counters_start_at_zero(health: Arc<HealthMetrics>)
    requires
        call_ensures(new_shared_health, (), health),
    ensures
        call_ensures(AtomicU64::new, (0u64,), health.flows_received_netflow),
        call_ensures(AtomicU64::new, (0u64,), health.flows_received_sflow),
        call_ensures(AtomicU64::new, (0u64,), health.flows_dropped),
        call_ensures(AtomicU64::new, (0u64,), health.flow_channel_depth),
        call_ensures(AtomicU64::new, (0u64,), health.evaluation_duration_micros),
{
}

} // verus!
