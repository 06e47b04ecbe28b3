//! What an evaluation of all alerts reports, and what it leaves behind.

use crate::alert::{
    acting, find_rate, first_rate, gets_suggestions, is_asked, is_removed_active, is_same_alert,
    removed_active, unasked, AlertAction, AlertInstance, AlertManager, AlertPayload, AlertState,
    AlertStateSnapshot, MetricType,
};
use crate::config::Direction;
use crate::double::Double;
use crate::maps::label_map;
use crate::mitigation::{rule_texts, suggested, MitigationRule};
use crate::net::{text_of_prefix, Prefix};
use crate::processor::{drained, CapturedFlow, FlowProcessor, ProcessedRule, RateSnapshot};
use crate::time::Instant;
use vstd::prelude::*;

verus! {

/// Metrics and actions are written as the alert script reads them.
pub proof fn names_are_those_of_the_script()
    ensures
        MetricType::Bps.text() == "bps"@,
        MetricType::Pps.text() == "pps"@,
        MetricType::Fps.text() == "fps"@,
        AlertAction::Fire.text() == "trigger"@,
        AlertAction::Update.text() == "update"@,
        AlertAction::Resolve.text() == "resolve"@,
{
}

/// Whether a payload tells of an action of an alert at a rate: it has the id of the alert, what the
/// alert watches, its labels, and the threshold that the rate has crossed.
pub open spec fn tells(
    payload: AlertPayload,
    alert: AlertInstance,
    action: AlertAction,
    rate: Double,
) -> bool {
    &&& payload.alert_id == alert.alert_id
    &&& match action {
        AlertAction::Fire => payload.action@ == "trigger"@ && payload.threshold
            == alert.trigger_threshold,
        AlertAction::Update => payload.action@ == "update"@ && payload.threshold
            == alert.trigger_threshold,
        AlertAction::Resolve => payload.action@ == "resolve"@ && payload.threshold
            == alert.recover_threshold,
    }
    &&& payload.prefix@ == alert.prefix@
    &&& payload.protocol@ == alert.protocol.text()
    &&& payload.direction@ == alert.direction.text()
    &&& match alert.metric {
        MetricType::Bps => payload.metric@ == "bps"@,
        MetricType::Pps => payload.metric@ == "pps"@,
        MetricType::Fps => payload.metric@ == "fps"@,
    }
    &&& payload.value == rate
    &&& label_map(payload.labels) == label_map(alert.labels)
}

/// A payload tells of its alert, and has the rules that it is given.
pub proof fn a_payload_tells_of_its_alert(
    alert: AlertInstance,
    rate: Double,
    action: AlertAction,
    rules: Vec<MitigationRule>,
    payload: AlertPayload,
)
    requires
        call_ensures(AlertInstance::build_payload, (&alert, rate, action, rules), payload),
    ensures
        tells(payload, alert, action, rate),
        rule_texts(payload.mitigation_rules@) == rule_texts(rules@),
{
}

/// Whether a snapshot is of what an alert watches.
pub open spec fn is_watched(snapshot: RateSnapshot, alert: AlertInstance) -> bool {
    &&& snapshot.prefix@ == alert.prefix@
    &&& snapshot.protocol == alert.protocol
    &&& snapshot.direction == alert.direction
}

/// The rate that a snapshot has of a metric.
pub open spec fn metric_in(snapshot: RateSnapshot, metric: MetricType) -> Double {
    match metric {
        MetricType::Bps => snapshot.bps,
        MetricType::Pps => snapshot.pps,
        MetricType::Fps => snapshot.fps,
    }
}

/// Whether a rate is that of an alert: the one of its metric in the first snapshot of what it
/// watches, or 0 where there is none.
pub open spec fn is_rate_of(
    rate: Double,
    alert: AlertInstance,
    snapshots: Seq<RateSnapshot>,
) -> bool {
    ||| rate.bits == 0 && forall|i: int|
        0 <= i < snapshots.len() ==> !is_watched(#[trigger] snapshots[i], alert)
    ||| exists|i: int|
        {
            &&& 0 <= i < snapshots.len()
            &&& is_watched(#[trigger] snapshots[i], alert)
            &&& rate == metric_in(snapshots[i], alert.metric)
            &&& forall|j: int| 0 <= j < i ==> !is_watched(#[trigger] snapshots[j], alert)
        }
}

/// The rate of an alert is that of its metric in the first snapshot of what it watches, or 0.
pub proof fn the_first_snapshot_gives_the_rate(
    snapshots: &[RateSnapshot],
    alert: AlertInstance,
    rate: Double,
)
    requires
        call_ensures(find_rate, (snapshots, &alert), rate),
    ensures
        is_rate_of(rate, alert, snapshots@),
{
    lemma_rate(snapshots@, alert);
}

proof fn lemma_rate(snapshots: Seq<RateSnapshot>, alert: AlertInstance)
    ensures
        is_rate_of(alert.rate(snapshots), alert, snapshots),
        first_rate(snapshots, alert.key()) is None ==> forall|i: int|
            0 <= i < snapshots.len() ==> !is_watched(#[trigger] snapshots[i], alert),
        first_rate(snapshots, alert.key()) is Some ==> exists|i: int|
            {
                &&& 0 <= i < snapshots.len()
                &&& is_watched(#[trigger] snapshots[i], alert)
                &&& alert.rate(snapshots) == metric_in(snapshots[i], alert.metric)
                &&& forall|j: int| 0 <= j < i ==> !is_watched(#[trigger] snapshots[j], alert)
            },
    decreases snapshots.len(),
{
    if snapshots.len() > 0 {
        let shorter = snapshots.drop_last();
        let last = snapshots.len() - 1;
        lemma_rate(shorter, alert);
        assert(snapshots[last] == snapshots.last());
        if first_rate(shorter, alert.key()) is Some {
            let i = choose|i: int|
                {
                    &&& 0 <= i < shorter.len()
                    &&& is_watched(#[trigger] shorter[i], alert)
                    &&& alert.rate(shorter) == metric_in(shorter[i], alert.metric)
                    &&& forall|j: int| 0 <= j < i ==> !is_watched(#[trigger] shorter[j], alert)
                };
            assert(snapshots[i] == shorter[i]);
            assert forall|j: int| 0 <= j < i implies !is_watched(
                #[trigger] snapshots[j],
                alert,
            ) by {
                assert(snapshots[j] == shorter[j]);
            }
        } else {
            assert forall|j: int| 0 <= j < last implies !is_watched(
                #[trigger] snapshots[j],
                alert,
            ) by {
                assert(snapshots[j] == shorter[j]);
            }
            if is_watched(snapshots[last], alert) {
                assert(alert.rate(snapshots) == metric_in(snapshots[last], alert.metric));
            }
        }
    }
}

/// Whether an alert does something, or nothing where there is none to do, at the rate that the
/// snapshots give it, and moves to a state.
pub open spec fn goes_to(
    alert: AlertInstance,
    snapshots: Seq<RateSnapshot>,
    now: Instant,
    state: AlertState,
    action: Option<AlertAction>,
) -> bool {
    exists|rate: Double| #[trigger]
        is_rate_of(rate, alert, snapshots) && alert.step(rate, now) == (state, action)
}

/// Each alert moves on by itself, at the rate that the snapshots give it. Where it fires it gets a
/// new id, which is a random one. Nothing else of it changes.
pub proof fn each_alert_moves_on(
    manager: &mut AlertManager,
    snapshots: &[RateSnapshot],
    processor: &mut FlowProcessor,
    now: Instant,
    payloads: Vec<AlertPayload>,
    n: int,
)
    requires
        call_ensures(AlertManager::evaluate, (manager, snapshots, processor, now), payloads),
        0 <= n < old(manager).alerts@.len(),
    ensures
        final(manager).alerts@.len() == old(manager).alerts@.len(),
        final(manager).script_path == old(manager).script_path,
        ({
            let (before, after) = (old(manager).alerts@[n], final(manager).alerts@[n]);
            let action = before.action(snapshots@, now);
            &&& goes_to(before, snapshots@, now, after.state, action)
            &&& after == (AlertInstance { state: after.state, alert_id: after.alert_id, ..before })
            &&& action == Some(AlertAction::Fire) ==> (after.alert_id >> 76) & 0xf == 4 && (
            after.alert_id >> 62) & 3 == 2
            &&& action != Some(AlertAction::Fire) ==> after.alert_id == before.alert_id
        }),
{
    let before = old(manager).alerts@[n];
    lemma_rate(snapshots@, before);
    assert(before.moves_to(final(manager).alerts@[n], snapshots@, now));
    assert(is_rate_of(before.rate(snapshots@), before, snapshots@));
}

proof fn lemma_acting(
    alerts: Seq<AlertInstance>,
    snapshots: Seq<RateSnapshot>,
    now: Instant,
    n: int,
)
    requires
        0 <= n <= alerts.len(),
    ensures
        ({
            let places = acting(alerts, snapshots, now, n);
            &&& forall|k: int|
                0 <= k < places.len() ==> 0 <= #[trigger] places[k] < n
                    && alerts[places[k]].action(snapshots, now) is Some
            &&& forall|k: int, l: int|
                0 <= k < l < places.len() ==> #[trigger] places[k] < #[trigger] places[l]
            &&& forall|m: int|
                0 <= m < n && (#[trigger] alerts[m]).action(snapshots, now) is Some
                    ==> places.contains(m)
        }),
    decreases n,
{
    if n > 0 {
        lemma_acting(alerts, snapshots, now, n - 1);
        let earlier = acting(alerts, snapshots, now, n - 1);
        let places = acting(alerts, snapshots, now, n);
        assert forall|m: int|
            0 <= m < n && (#[trigger] alerts[m]).action(snapshots, now)
                is Some implies places.contains(m) by {
            if m < n - 1 {
                let k = choose|k: int| 0 <= k < earlier.len() && earlier[k] == m;
                assert(places[k] == m);
            } else {
                assert(places[earlier.len() as int] == m);
            }
        }
    }
}

/// Each alert of which an action is due is reported, and the reports come in the order of the
/// alerts: there is a list of places, in which each alert with an action stands once, and payload
/// `k` tells of the alert at the place `k`.
pub proof fn each_action_is_reported_once(
    manager: &mut AlertManager,
    snapshots: &[RateSnapshot],
    processor: &mut FlowProcessor,
    now: Instant,
    payloads: Vec<AlertPayload>,
)
    requires
        call_ensures(AlertManager::evaluate, (manager, snapshots, processor, now), payloads),
    ensures
        exists|places: Seq<int>| #[trigger]
            are_told(
                payloads@,
                places,
                old(manager).alerts@,
                final(manager).alerts@,
                snapshots@,
                now,
            ),
{
    let (before, after) = (old(manager).alerts@, final(manager).alerts@);
    let places = acting(before, snapshots@, now, before.len() as int);
    lemma_acting(before, snapshots@, now, before.len() as int);
    assert forall|k: int| 0 <= k < places.len() implies is_told(
        payloads@[k],
        before[#[trigger] places[k]],
        after[places[k]],
        snapshots@,
        now,
    ) by {
        let (b, a) = (before[places[k]], after[places[k]]);
        lemma_rate(snapshots@, b);
        assert(tells(payloads@[k], a, b.action(snapshots@, now)->Some_0, b.rate(snapshots@)));
    }
    assert forall|n: int| 0 <= n < before.len() && !places.contains(n) implies is_not_due(
        #[trigger] before[n],
        snapshots@,
        now,
    ) by {
        lemma_rate(snapshots@, before[n]);
        assert(before[n].action(snapshots@, now) is None);
        assert(is_rate_of(before[n].rate(snapshots@), before[n], snapshots@));
    }
    assert(are_told(payloads@, places, before, after, snapshots@, now));
}

/// Whether the payloads tell of the alerts at some places, one each and in their order, and of the
/// others nothing is due.
pub open spec fn are_told(
    payloads: Seq<AlertPayload>,
    places: Seq<int>,
    before: Seq<AlertInstance>,
    after: Seq<AlertInstance>,
    snapshots: Seq<RateSnapshot>,
    now: Instant,
) -> bool {
    &&& payloads.len() == places.len()
    &&& forall|k: int| 0 <= k < places.len() ==> 0 <= #[trigger] places[k] < before.len()
    &&& forall|k: int, l: int|
        0 <= k < l < places.len() ==> #[trigger] places[k] < #[trigger] places[l]
    &&& forall|k: int|
        0 <= k < places.len() ==> is_told(
            payloads[k],
            before[#[trigger] places[k]],
            after[places[k]],
            snapshots,
            now,
        )
    &&& forall|n: int|
        0 <= n < before.len() && !places.contains(n) ==> is_not_due(
            #[trigger] before[n],
            snapshots,
            now,
        )
}

/// Whether a payload tells of the action of an alert, at the rate that the snapshots give it, with
/// the id that it has afterwards.
pub open spec fn is_told(
    payload: AlertPayload,
    before: AlertInstance,
    after: AlertInstance,
    snapshots: Seq<RateSnapshot>,
    now: Instant,
) -> bool {
    exists|rate: Double, action: AlertAction|
        is_rate_of(rate, before, snapshots) && before.step(rate, now).1 == Some(action)
            && #[trigger] tells(payload, after, action, rate)
}

/// Whether nothing is to be reported of an alert at the rate that the snapshots give it.
pub open spec fn is_not_due(
    alert: AlertInstance,
    snapshots: Seq<RateSnapshot>,
    now: Instant,
) -> bool {
    exists|rate: Double| #[trigger]
        is_rate_of(rate, alert, snapshots) && alert.step(rate, now).1 is None
}

/// Whether an alert fires or is updated at the rate that the snapshots give it.
pub open spec fn wants_flows(
    alert: AlertInstance,
    snapshots: Seq<RateSnapshot>,
    now: Instant,
) -> bool {
    exists|rate: Double| #[trigger]
        is_rate_of(rate, alert, snapshots) && (alert.step(rate, now).1 == Some(AlertAction::Fire)
            || alert.step(rate, now).1 == Some(AlertAction::Update))
}

/// Whether some alert of a prefix and a direction fires or is updated.
pub open spec fn are_wanted(
    alerts: Seq<AlertInstance>,
    snapshots: Seq<RateSnapshot>,
    now: Instant,
    prefix: Seq<char>,
    direction: Direction,
) -> bool {
    exists|n: int|
        0 <= n < alerts.len() && wants_flows(#[trigger] alerts[n], snapshots, now)
            && alerts[n].prefix@ == prefix && alerts[n].direction == direction
}

proof fn lemma_one_rate(a: Double, b: Double, alert: AlertInstance, snapshots: Seq<RateSnapshot>)
    requires
        is_rate_of(a, alert, snapshots),
        is_rate_of(b, alert, snapshots),
    ensures
        a == b,
{
}

proof fn lemma_wants(alert: AlertInstance, snapshots: Seq<RateSnapshot>, now: Instant)
    ensures
        wants_flows(alert, snapshots, now) == alert.asks(snapshots, now),
{
    lemma_rate(snapshots, alert);
    let rate = alert.rate(snapshots);
    assert(is_rate_of(rate, alert, snapshots));
    if wants_flows(alert, snapshots, now) {
        let other = choose|other: Double| #[trigger]
            is_rate_of(other, alert, snapshots) && (alert.step(other, now).1 == Some(
                AlertAction::Fire,
            ) || alert.step(other, now).1 == Some(AlertAction::Update));
        lemma_one_rate(rate, other, alert, snapshots);
    }
}

/// The captured flows of a prefix and a direction are taken where an alert for them fires or is
/// updated, and only there. All others stay, in their order, and so does all else of the watched
/// rules.
pub proof fn only_wanted_flows_are_taken(
    manager: &mut AlertManager,
    snapshots: &[RateSnapshot],
    processor: &mut FlowProcessor,
    now: Instant,
    payloads: Vec<AlertPayload>,
    r: int,
)
    requires
        old(processor).valid(),
        call_ensures(AlertManager::evaluate, (manager, snapshots, processor, now), payloads),
        0 <= r < old(processor).rules@.len(),
    ensures
        final(processor).rules@.len() == old(processor).rules@.len(),
        final(processor).window_secs == old(processor).window_secs,
        ({
            let (before, after) = (old(processor).rules@[r], final(processor).rules@[r]);
            &&& after.prefix == before.prefix
            &&& after.network == before.network
            &&& after.labels == before.labels
            &&& after.buffers == before.buffers
            &&& after.capture_buffer_size == before.capture_buffer_size
            &&& after.capture_buffer@ == before.capture_buffer@.filter(
                |c: CapturedFlow|
                    !are_wanted(
                        old(manager).alerts@,
                        snapshots@,
                        now,
                        text_of_prefix(before.prefix),
                        c.direction,
                    ),
            )
        }),
{
    let alerts = old(manager).alerts@;
    let (before, after) = (old(processor).rules@[r], final(processor).rules@[r]);
    let prefix = text_of_prefix(before.prefix);
    let n = alerts.len() as int;
    assert(after.capture_buffer@ == unasked(
        before.capture_buffer@,
        alerts,
        snapshots@,
        now,
        n,
        prefix,
    ));
    lemma_same_filter(before.capture_buffer@, alerts, snapshots@, now, prefix);
}

proof fn lemma_wanted(
    alerts: Seq<AlertInstance>,
    snapshots: Seq<RateSnapshot>,
    now: Instant,
    prefix: Seq<char>,
    direction: Direction,
)
    ensures
        are_wanted(alerts, snapshots, now, prefix, direction) == is_asked(
            alerts,
            snapshots,
            now,
            alerts.len() as int,
            prefix,
            direction,
        ),
{
    assert forall|n: int| 0 <= n < alerts.len() implies wants_flows(
        #[trigger] alerts[n],
        snapshots,
        now,
    ) == alerts[n].asks(snapshots, now) by {
        lemma_wants(alerts[n], snapshots, now);
    }
    if is_asked(alerts, snapshots, now, alerts.len() as int, prefix, direction) {
        let m = choose|m: int|
            0 <= m < alerts.len() && (#[trigger] alerts[m]).asks(snapshots, now)
                && alerts[m].prefix@ == prefix && alerts[m].direction == direction;
        assert(wants_flows(alerts[m], snapshots, now));
    }
}

proof fn lemma_same_filter(
    captured: Seq<CapturedFlow>,
    alerts: Seq<AlertInstance>,
    snapshots: Seq<RateSnapshot>,
    now: Instant,
    prefix: Seq<char>,
)
    ensures
        unasked(captured, alerts, snapshots, now, alerts.len() as int, prefix) == captured.filter(
            |c: CapturedFlow| !are_wanted(alerts, snapshots, now, prefix, c.direction),
        ),
    decreases captured.len(),
{
    reveal(Seq::filter);
    if captured.len() > 0 {
        lemma_same_filter(captured.drop_last(), alerts, snapshots, now, prefix);
        lemma_wanted(alerts, snapshots, now, prefix, captured.last().direction);
    }
}

/// Rules are suggested where an alert fires or is updated, from all flows that were captured for
/// its prefix and direction when the evaluation began, for its category, its rate and its trigger
/// threshold. The report of a resolved alert has none, and neither has one without such flows.
pub proof fn reports_suggest_rules_from_the_captured_flows(
    manager: &mut AlertManager,
    snapshots: &[RateSnapshot],
    processor: &mut FlowProcessor,
    now: Instant,
    payloads: Vec<AlertPayload>,
    k: int,
)
    requires
        old(processor).valid(),
        call_ensures(AlertManager::evaluate, (manager, snapshots, processor, now), payloads),
        0 <= k < payloads@.len(),
    ensures
        exists|n: int|
            {
                &&& 0 <= n < old(manager).alerts@.len()
                &&& is_told(
                    payloads@[k],
                    #[trigger] old(manager).alerts@[n],
                    final(manager).alerts@[n],
                    snapshots@,
                    now,
                )
                &&& has_suggestions(
                    payloads@[k],
                    old(manager).alerts@[n],
                    snapshots@,
                    now,
                    old(processor).rules@,
                )
            },
{
    let (before, after) = (old(manager).alerts@, final(manager).alerts@);
    let places = acting(before, snapshots@, now, before.len() as int);
    lemma_acting(before, snapshots@, now, before.len() as int);
    let n = places[k];
    let alert = before[n];
    lemma_rate(snapshots@, alert);
    lemma_wants(alert, snapshots@, now);
    assert(tells(
        payloads@[k],
        after[n],
        alert.action(snapshots@, now)->Some_0,
        alert.rate(snapshots@),
    ));
    let rules = old(processor).rules@;
    assert(gets_suggestions(alert, snapshots@, now, rules));
    assert forall|p: Prefix, rate: Double|
        p.valid() && alert.prefix@ == #[trigger] text_of_prefix(p) && #[trigger] is_rate_of(
            rate,
            alert,
            snapshots@,
        ) && wants_flows(alert, snapshots@, now) && drained(
            rules,
            alert.prefix@,
            alert.direction,
        ).len() > 0 implies rule_texts(payloads@[k].mitigation_rules@) == suggested(
        drained(rules, alert.prefix@, alert.direction),
        p,
        alert.direction,
        alert.protocol,
        rate,
        alert.trigger_threshold,
    ) by {
        lemma_one_rate(rate, alert.rate(snapshots@), alert, snapshots@);
    }
    assert(rule_texts(payloads@[k].mitigation_rules@).len() == payloads@[k].mitigation_rules@.len());
    assert(has_suggestions(payloads@[k], alert, snapshots@, now, rules));
}

/// Whether a payload has the rules that are suggested for an alert from the captured flows of its
/// prefix and direction, where it fires or is updated and there are any, and no rules otherwise.
pub open spec fn has_suggestions(
    payload: AlertPayload,
    alert: AlertInstance,
    snapshots: Seq<RateSnapshot>,
    now: Instant,
    rules: Seq<ProcessedRule>,
) -> bool {
    let flows = drained(rules, alert.prefix@, alert.direction);
    &&& forall|p: Prefix, rate: Double|
        p.valid() && alert.prefix@ == #[trigger] text_of_prefix(p) && #[trigger] is_rate_of(
            rate,
            alert,
            snapshots,
        ) && wants_flows(alert, snapshots, now) && flows.len() > 0 ==> rule_texts(
            payload.mitigation_rules@,
        ) == suggested(
            flows,
            p,
            alert.direction,
            alert.protocol,
            rate,
            alert.trigger_threshold,
        )
    &&& !wants_flows(alert, snapshots, now) || flows.len() == 0 ==> payload.mitigation_rules@.len()
        == 0
}

/// The states are those of the alerts, in their order: 0 is normal, 1 pending, 2 firing and 3
/// recovering.
pub proof fn states_are_those_of_the_alerts(
    manager: AlertManager,
    states: Vec<AlertStateSnapshot>,
    n: int,
)
    requires
        call_ensures(AlertManager::state_snapshots, (&manager,), states),
        0 <= n < manager.alerts@.len(),
    ensures
        states@.len() == manager.alerts@.len(),
        ({
            let (state, alert) = (states@[n], manager.alerts@[n]);
            &&& state.prefix@ == alert.prefix@
            &&& state.protocol == alert.protocol
            &&& state.direction == alert.direction
            &&& state.metric == alert.metric
            &&& state.state == 0 <==> alert.state is Normal
            &&& state.state == 1 <==> alert.state is Pending
            &&& state.state == 2 <==> alert.state is Firing
            &&& state.state == 3 <==> alert.state is Recovering
        }),
{
    assert(states@[n].is_of(manager.alerts@[n]));
}

/// Whether two states are of the same prefix, category, direction and metric.
pub open spec fn watch_the_same(a: AlertStateSnapshot, b: AlertStateSnapshot) -> bool {
    &&& a.prefix@ == b.prefix@
    &&& a.protocol == b.protocol
    &&& a.direction == b.direction
    &&& a.metric == b.metric
}

/// An alert is listed as removed exactly where it was not normal, is the last one of what it
/// watches, and nothing watches that any more. The list is in order.
pub proof fn removed_alerts_are_gone(
    before: &[AlertStateSnapshot],
    after: &[AlertStateSnapshot],
    removed: Vec<usize>,
)
    requires
        call_ensures(removed_active, (before, after), removed),
    ensures
        forall|i: usize|
            #[trigger] removed@.contains(i) <==> {
                &&& i < before@.len()
                &&& before@[i as int].state != 0
                &&& forall|j: int|
                    i < j < before@.len() ==> !watch_the_same(
                        before@[i as int],
                        #[trigger] before@[j],
                    )
                &&& forall|j: int|
                    0 <= j < after@.len() ==> !watch_the_same(
                        before@[i as int],
                        #[trigger] after@[j],
                    )
            },
        forall|a: int, b: int|
            0 <= a < b < removed@.len() ==> #[trigger] removed@[a] < #[trigger] removed@[b],
{
    assert forall|i: usize| #[trigger] removed@.contains(i) <==> {
        &&& i < before@.len()
        &&& before@[i as int].state != 0
        &&& forall|j: int|
            i < j < before@.len() ==> !watch_the_same(before@[i as int], #[trigger] before@[j])
        &&& forall|j: int|
            0 <= j < after@.len() ==> !watch_the_same(before@[i as int], #[trigger] after@[j])
    } by {
        assert(removed@.contains(i) <==> is_removed_active(before@, after@, i as int));
        assert(forall|a: AlertStateSnapshot, b: AlertStateSnapshot| #[trigger]
            watch_the_same(a, b) == is_same_alert(a, b));
    }
}

} // verus!
