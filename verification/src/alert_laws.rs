//! What holds of alerts over many evaluations and over a reload of the configuration.

use crate::alert::{
    acting, are_reported, carried_over, is_first_with_key, is_random_id, last_state, mitigation_for,
    reported_rules, setups_of, AlertAction, AlertInstance, AlertPayload, AlertSetup, AlertState,
};
use crate::double::Double;
use crate::processor::{drained, ProcessedRule, RateSnapshot};
use crate::time::{passed, Instant};
use vstd::prelude::*;

verus! {

/// A rate, and when it was measured.
pub struct Observation {
    pub rate: Double,
    pub now: Instant,
}

/// An alert after `k` observations.
pub open spec fn after(alert: AlertInstance, seen: Seq<Observation>, k: int) -> AlertInstance
    decreases k,
{
    if k <= 0 {
        alert
    } else {
        let before = after(alert, seen, k - 1);
        before.in_state(before.step(seen[k - 1].rate, seen[k - 1].now).0)
    }
}

/// What is reported at observation `k`.
pub open spec fn report(alert: AlertInstance, seen: Seq<Observation>, k: int) -> Option<
    AlertAction,
> {
    after(alert, seen, k).step(seen[k].rate, seen[k].now).1
}

/// Whether an alert has fired and is not resolved.
pub open spec fn is_active(state: AlertState) -> bool {
    state is Firing || state is Recovering
}

/// Whether the rate reached the trigger at observation `j` and was not below it from there up to
/// and with observation `k`.
pub open spec fn stays_up(alert: AlertInstance, seen: Seq<Observation>, j: int, k: int) -> bool {
    &&& seen[j].rate.no_less(alert.trigger_threshold)
    &&& forall|i: int|
        j <= i <= k ==> !(#[trigger] seen[i]).rate.less(alert.trigger_threshold)
}

/// Whether the rate was below the recovery threshold at observation `j` and did not reach it from
/// there up to and with observation `k`.
pub open spec fn stays_down(
    alert: AlertInstance,
    seen: Seq<Observation>,
    j: int,
    k: int,
) -> bool {
    &&& seen[j].rate.less(alert.recover_threshold)
    &&& forall|i: int|
        j <= i <= k ==> !(#[trigger] seen[i]).rate.no_less(alert.recover_threshold)
}

/// An alert fires only after its rate has stayed at the trigger for as long as is asked for.
pub proof fn fires_only_after_staying_up(alert: AlertInstance, seen: Seq<Observation>, k: int)
    requires
        alert.state is Normal,
        0 <= k < seen.len(),
        report(alert, seen, k) == Some(AlertAction::Fire),
    ensures
        exists|j: int|
            0 <= j < k && #[trigger] stays_up(alert, seen, j, k) && passed(
                seen[k].now,
                seen[j].now,
                alert.trigger_for,
            ),
{
    lemma_setup_stays(alert, seen, k);
    lemma_pending_since(alert, seen, k);
    let since = after(alert, seen, k).state->Pending_since;
    let last = k - 1;
    let j = choose|j: int|
        0 <= j < k && #[trigger] stays_up(alert, seen, j, last) && seen[j].now == since;
    assert(stays_up(alert, seen, j, k));
}

proof fn lemma_setup_stays(alert: AlertInstance, seen: Seq<Observation>, k: int)
    ensures
        after(alert, seen, k) == alert.in_state(after(alert, seen, k).state),
    decreases k,
{
    if k > 0 {
        lemma_setup_stays(alert, seen, k - 1);
    }
}

/// A pending alert has been at the trigger since it became pending.
proof fn lemma_pending_since(alert: AlertInstance, seen: Seq<Observation>, k: int)
    requires
        alert.state is Normal,
        0 <= k <= seen.len(),
    ensures
        after(alert, seen, k).state matches AlertState::Pending { since } ==> {
            let last = k - 1;
            exists|j: int|
                0 <= j < k && #[trigger] stays_up(alert, seen, j, last) && seen[j].now == since
        },
    decreases k,
{
    if k > 0 {
        lemma_pending_since(alert, seen, k - 1);
        lemma_setup_stays(alert, seen, k - 1);
        let before = after(alert, seen, k - 1);
        if let AlertState::Pending { since } = after(alert, seen, k).state {
            let last = k - 1;
            let earlier = k - 2;
            if before.state is Normal {
                assert(stays_up(alert, seen, last, last));
                assert(seen[last].now == since);
            } else {
                let j = choose|j: int|
                    0 <= j < k - 1 && #[trigger] stays_up(alert, seen, j, earlier)
                        && seen[j].now == since;
                assert(stays_up(alert, seen, j, last));
            }
        }
    }
}

/// An alert is resolved only after its rate has stayed below the recovery threshold for as long
/// as is asked for.
pub proof fn resolves_only_after_staying_down(
    alert: AlertInstance,
    seen: Seq<Observation>,
    k: int,
)
    requires
        alert.state is Normal,
        0 <= k < seen.len(),
        report(alert, seen, k) == Some(AlertAction::Resolve),
    ensures
        exists|j: int|
            0 <= j < k && #[trigger] stays_down(alert, seen, j, k) && passed(
                seen[k].now,
                seen[j].now,
                alert.recover_for,
            ),
{
    lemma_setup_stays(alert, seen, k);
    lemma_recovering_since(alert, seen, k);
    let since = after(alert, seen, k).state->Recovering_since;
    let last = k - 1;
    let j = choose|j: int|
        0 <= j < k && #[trigger] stays_down(alert, seen, j, last) && seen[j].now == since;
    assert(stays_down(alert, seen, j, k));
}

/// A recovering alert has been below the recovery threshold since it began to recover.
proof fn lemma_recovering_since(alert: AlertInstance, seen: Seq<Observation>, k: int)
    requires
        alert.state is Normal,
        0 <= k <= seen.len(),
    ensures
        after(alert, seen, k).state matches AlertState::Recovering { since } ==> {
            let last = k - 1;
            exists|j: int|
                0 <= j < k && #[trigger] stays_down(alert, seen, j, last) && seen[j].now == since
        },
    decreases k,
{
    if k > 0 {
        lemma_recovering_since(alert, seen, k - 1);
        lemma_setup_stays(alert, seen, k - 1);
        let before = after(alert, seen, k - 1);
        if let AlertState::Recovering { since } = after(alert, seen, k).state {
            let last = k - 1;
            let earlier = k - 2;
            if before.state is Firing {
                assert(stays_down(alert, seen, last, last));
                assert(seen[last].now == since);
            } else {
                let j = choose|j: int|
                    0 <= j < k - 1 && #[trigger] stays_down(alert, seen, j, earlier)
                        && seen[j].now == since;
                assert(stays_down(alert, seen, j, last));
            }
        }
    }
}

/// Whether an action is reported after observation `j`, up to and with observation `k`.
pub open spec fn is_reported_within(
    alert: AlertInstance,
    seen: Seq<Observation>,
    action: AlertAction,
    j: int,
    k: int,
) -> bool {
    exists|i: int| j < i <= k && #[trigger] report(alert, seen, i) == Some(action)
}

/// A normal alert fires, at the latest, when its rate has stayed at the trigger for as long as is
/// asked for.
pub proof fn staying_up_fires(alert: AlertInstance, seen: Seq<Observation>, j: int, k: int)
    requires
        0 <= j < k < seen.len(),
        after(alert, seen, j).state is Normal,
        stays_up(alert, seen, j, k),
        passed(seen[k].now, seen[j].now, alert.trigger_for),
    ensures
        is_reported_within(alert, seen, AlertAction::Fire, j, k),
{
    lemma_still_pending(alert, seen, j, k);
    lemma_setup_stays(alert, seen, k);
    if !is_reported_within(alert, seen, AlertAction::Fire, j, k - 1) {
        assert(!seen[k].rate.less(alert.trigger_threshold));
        assert(report(alert, seen, k) == Some(AlertAction::Fire));
    } else {
        let i = choose|i: int|
            j < i <= k - 1 && #[trigger] report(alert, seen, i) == Some(AlertAction::Fire);
        assert(report(alert, seen, i) == Some(AlertAction::Fire));
    }
}

proof fn lemma_still_pending(alert: AlertInstance, seen: Seq<Observation>, j: int, k: int)
    requires
        0 <= j < k < seen.len(),
        after(alert, seen, j).state is Normal,
        stays_up(alert, seen, j, k),
    ensures
        is_reported_within(alert, seen, AlertAction::Fire, j, k - 1) || after(
            alert,
            seen,
            k,
        ).state == (AlertState::Pending { since: seen[j].now }),
    decreases k,
{
    lemma_setup_stays(alert, seen, k - 1);
    if k > j + 1 {
        lemma_still_pending(alert, seen, j, k - 1);
        if is_reported_within(alert, seen, AlertAction::Fire, j, k - 2) {
            let i = choose|i: int|
                j < i <= k - 2 && #[trigger] report(alert, seen, i) == Some(AlertAction::Fire);
            assert(report(alert, seen, i) == Some(AlertAction::Fire));
        } else {
            assert(!seen[k - 1].rate.less(alert.trigger_threshold));
            if report(alert, seen, k - 1) == Some(AlertAction::Fire) {
                assert(is_reported_within(alert, seen, AlertAction::Fire, j, k - 1));
            }
        }
    }
}

/// A firing alert is resolved, at the latest, when its rate has stayed below the recovery
/// threshold for as long as is asked for.
pub proof fn staying_down_resolves(alert: AlertInstance, seen: Seq<Observation>, j: int, k: int)
    requires
        0 <= j < k < seen.len(),
        after(alert, seen, j).state is Firing,
        stays_down(alert, seen, j, k),
        passed(seen[k].now, seen[j].now, alert.recover_for),
    ensures
        is_reported_within(alert, seen, AlertAction::Resolve, j, k),
{
    lemma_still_recovering(alert, seen, j, k);
    lemma_setup_stays(alert, seen, k);
    if !is_reported_within(alert, seen, AlertAction::Resolve, j, k - 1) {
        assert(!seen[k].rate.no_less(alert.recover_threshold));
        assert(report(alert, seen, k) == Some(AlertAction::Resolve));
    } else {
        let i = choose|i: int|
            j < i <= k - 1 && #[trigger] report(alert, seen, i) == Some(AlertAction::Resolve);
        assert(report(alert, seen, i) == Some(AlertAction::Resolve));
    }
}

proof fn lemma_still_recovering(alert: AlertInstance, seen: Seq<Observation>, j: int, k: int)
    requires
        0 <= j < k < seen.len(),
        after(alert, seen, j).state is Firing,
        stays_down(alert, seen, j, k),
    ensures
        is_reported_within(alert, seen, AlertAction::Resolve, j, k - 1) || after(
            alert,
            seen,
            k,
        ).state == (AlertState::Recovering { since: seen[j].now }),
    decreases k,
{
    lemma_setup_stays(alert, seen, k - 1);
    if k > j + 1 {
        lemma_still_recovering(alert, seen, j, k - 1);
        if is_reported_within(alert, seen, AlertAction::Resolve, j, k - 2) {
            let i = choose|i: int|
                j < i <= k - 2 && #[trigger] report(alert, seen, i) == Some(AlertAction::Resolve);
            assert(report(alert, seen, i) == Some(AlertAction::Resolve));
        } else {
            assert(!seen[k - 1].rate.no_less(alert.recover_threshold));
            if report(alert, seen, k - 1) == Some(AlertAction::Resolve) {
                assert(is_reported_within(alert, seen, AlertAction::Resolve, j, k - 1));
            }
        }
    }
}

/// How often an action was reported in the first `k` observations.
pub open spec fn times_reported(
    alert: AlertInstance,
    seen: Seq<Observation>,
    action: AlertAction,
    k: int,
) -> nat
    decreases k,
{
    if k <= 0 {
        0
    } else {
        times_reported(alert, seen, action, k - 1) + if report(alert, seen, k - 1) == Some(
            action,
        ) {
            1nat
        } else {
            0
        }
    }
}

/// Each alert that has fired is resolved before it fires again: at any time it was resolved as
/// often as it fired, or, while it is active, once less. Updates come only while it is active.
pub proof fn fires_and_resolves_alternate(alert: AlertInstance, seen: Seq<Observation>, k: int)
    requires
        alert.state is Normal,
        0 <= k <= seen.len(),
    ensures
        times_reported(alert, seen, AlertAction::Fire, k) == times_reported(
            alert,
            seen,
            AlertAction::Resolve,
            k,
        ) + if is_active(after(alert, seen, k).state) {
            1nat
        } else {
            0
        },
        k < seen.len() && report(alert, seen, k) == Some(AlertAction::Update) ==> is_active(
            after(alert, seen, k).state,
        ) && is_active(after(alert, seen, k + 1).state),
    decreases k,
{
    if k > 0 {
        fires_and_resolves_alternate(alert, seen, k - 1);
    }
}

/// A rate between the two thresholds neither starts a normal alert nor lets an active one
/// recover.
pub proof fn between_the_thresholds_nothing_changes(
    alert: AlertInstance,
    rate: Double,
    now: Instant,
)
    requires
        rate.no_less(alert.recover_threshold),
        rate.less(alert.trigger_threshold),
    ensures
        is_active(alert.step(rate, now).0) == is_active(alert.state),
        is_active(alert.state) ==> alert.step(rate, now).0 is Firing,
        !is_active(alert.state) ==> alert.step(rate, now).0 is Normal,
        alert.step(rate, now).1 != Some(AlertAction::Fire),
        alert.step(rate, now).1 != Some(AlertAction::Resolve),
{
}

/// Whether observations come in the order of time.
pub open spec fn in_order(seen: Seq<Observation>) -> bool {
    forall|i: int, j: int|
        0 <= i <= j < seen.len() ==> (#[trigger] seen[i]).now.nanos <= (
        #[trigger] seen[j]).now.nanos
}

/// Where observations come in the order of time, the update interval has passed between two
/// updates of an alert, and between its trigger and its first update.
pub proof fn updates_keep_their_distance(
    alert: AlertInstance,
    seen: Seq<Observation>,
    j: int,
    k: int,
)
    requires
        in_order(seen),
        0 <= j < k < seen.len(),
        report(alert, seen, j) == Some(AlertAction::Fire) || report(alert, seen, j) == Some(
            AlertAction::Update,
        ),
        report(alert, seen, k) == Some(AlertAction::Update),
    ensures
        passed(seen[k].now, seen[j].now, alert.mitigation_update_interval),
{
    let last = j + 1;
    lemma_setup_stays(alert, seen, j);
    lemma_setup_stays(alert, seen, k);
    assert(after(alert, seen, last).state == (AlertState::Firing { last_update: seen[j].now }));
    lemma_updated_since(alert, seen, j, last, k);
}

/// A firing alert was last updated, or began to fire, no earlier than at an observation from which
/// on it did so.
proof fn lemma_updated_since(
    alert: AlertInstance,
    seen: Seq<Observation>,
    j: int,
    from: int,
    k: int,
)
    requires
        in_order(seen),
        0 <= j <= from <= k < seen.len(),
        after(alert, seen, from).state matches AlertState::Firing { last_update }
            ==> last_update.nanos >= seen[j].now.nanos,
    ensures
        after(alert, seen, k).state matches AlertState::Firing { last_update } ==> last_update.nanos
            >= seen[j].now.nanos,
    decreases k,
{
    if k > from {
        lemma_updated_since(alert, seen, j, from, k - 1);
        assert(seen[k - 1].now.nanos >= seen[j].now.nanos);
    }
}

/// Where observations come in the order of time, an alert that did not fire at some point, because
/// it was normal, pending or recovering, is updated only when the update interval has passed since
/// then.
pub proof fn updates_wait_for_the_interval(
    alert: AlertInstance,
    seen: Seq<Observation>,
    j: int,
    k: int,
)
    requires
        in_order(seen),
        0 <= j < k < seen.len(),
        !(after(alert, seen, j).state is Firing),
        report(alert, seen, k) == Some(AlertAction::Update),
    ensures
        passed(seen[k].now, seen[j].now, alert.mitigation_update_interval),
{
    lemma_setup_stays(alert, seen, k);
    lemma_updated_since(alert, seen, j, j, k);
}

/// An alert that has fired or was updated is updated, at the latest, when the interval has passed
/// and its rate has not been below the recovery threshold in between.
pub proof fn staying_up_is_updated(alert: AlertInstance, seen: Seq<Observation>, j: int, k: int)
    requires
        0 <= j < k < seen.len(),
        report(alert, seen, j) == Some(AlertAction::Fire) || report(alert, seen, j) == Some(
            AlertAction::Update,
        ),
        forall|i: int|
            j < i <= k ==> !(#[trigger] seen[i]).rate.less(alert.recover_threshold),
        passed(seen[k].now, seen[j].now, alert.mitigation_update_interval),
    ensures
        is_reported_within(alert, seen, AlertAction::Update, j, k),
{
    lemma_setup_stays(alert, seen, k);
    let last = k - 1;
    if is_reported_within(alert, seen, AlertAction::Update, j, last) {
        let i = choose|i: int|
            j < i <= last && #[trigger] report(alert, seen, i) == Some(AlertAction::Update);
        assert(report(alert, seen, i) == Some(AlertAction::Update));
    } else {
        lemma_still_firing(alert, seen, j, k);
        assert(!seen[k].rate.less(alert.recover_threshold));
        assert(report(alert, seen, k) == Some(AlertAction::Update));
    }
}

proof fn lemma_still_firing(alert: AlertInstance, seen: Seq<Observation>, j: int, k: int)
    requires
        0 <= j < k < seen.len(),
        report(alert, seen, j) == Some(AlertAction::Fire) || report(alert, seen, j) == Some(
            AlertAction::Update,
        ),
        forall|i: int|
            j < i <= k ==> !(#[trigger] seen[i]).rate.less(alert.recover_threshold),
        !is_reported_within(alert, seen, AlertAction::Update, j, k - 1),
    ensures
        after(alert, seen, k).state == (AlertState::Firing { last_update: seen[j].now }),
    decreases k,
{
    lemma_setup_stays(alert, seen, k - 1);
    if k > j + 1 {
        let last = k - 1;
        assert(!is_reported_within(alert, seen, AlertAction::Update, j, k - 2)) by {
            let earlier = k - 2;
            if is_reported_within(alert, seen, AlertAction::Update, j, earlier) {
                let i = choose|i: int|
                    j < i <= earlier && #[trigger] report(alert, seen, i) == Some(
                        AlertAction::Update,
                    );
                assert(report(alert, seen, i) == Some(AlertAction::Update));
            }
        }
        lemma_still_firing(alert, seen, j, k - 1);
        assert(!seen[last].rate.less(alert.recover_threshold));
        assert(report(alert, seen, last) != Some(AlertAction::Update));
    }
}

/// An update is reported only of an alert that has fired once more than it was resolved, at a rate
/// that is not below the recovery threshold.
pub proof fn updates_come_between_trigger_and_resolve(
    alert: AlertInstance,
    seen: Seq<Observation>,
    k: int,
)
    requires
        alert.state is Normal,
        0 <= k < seen.len(),
        report(alert, seen, k) == Some(AlertAction::Update),
    ensures
        times_reported(alert, seen, AlertAction::Fire, k) == times_reported(
            alert,
            seen,
            AlertAction::Resolve,
            k,
        ) + 1,
        !seen[k].rate.less(alert.recover_threshold),
{
    lemma_setup_stays(alert, seen, k);
    fires_and_resolves_alternate(alert, seen, k);
}

/// An evaluation moves an alert on from one observation to the next and changes nothing but its
/// state.
pub proof fn evaluating_changes_only_the_state(
    alert: &mut AlertInstance,
    rate: Double,
    now: Instant,
    action: Option<AlertAction>,
)
    requires
        call_ensures(AlertInstance::evaluate, (alert, rate, now), action),
    ensures
        ({
            let seen = seq![Observation { rate, now }];
            &&& action == report(*old(alert), seen, 0)
            &&& *final(alert) == after(*old(alert), seen, 1)
        }),
        final(alert).alert_id == old(alert).alert_id,
        final(alert).prefix == old(alert).prefix,
        final(alert).protocol == old(alert).protocol,
        final(alert).direction == old(alert).direction,
        final(alert).metric == old(alert).metric,
        final(alert).trigger_threshold == old(alert).trigger_threshold,
        final(alert).recover_threshold == old(alert).recover_threshold,
        final(alert).trigger_for == old(alert).trigger_for,
        final(alert).recover_for == old(alert).recover_for,
        final(alert).mitigation_update_interval == old(alert).mitigation_update_interval,
        final(alert).labels == old(alert).labels,
{
    let seen = seq![Observation { rate, now }];
    assert(after(*old(alert), seen, 0) == *old(alert));
}

/// A reload orphans no alert that is still configured: its state and its id, such as that of a
/// firing alert, go over to one of the new alerts with its key.
pub proof fn reload_does_not_orphan(
    before: Seq<AlertInstance>,
    setups: Seq<AlertSetup>,
    m: int,
    n: int,
)
    requires
        0 <= m < before.len(),
        0 <= n < setups.len(),
        setups[n].key == before[m].key(),
        forall|l: int| m < l < before.len() ==> (#[trigger] before[l]).key() != before[m].key(),
    ensures
        exists|f: int|
            0 <= f < setups.len() && (#[trigger] setups[f]).key == before[m].key() && carried_over(
                before,
                setups,
                f,
            ) == (before[m].state, before[m].alert_id),
    decreases n,
{
    if is_first_with_key(setups, n) {
        lemma_last_state(before, m);
        assert(setups[n].key == before[m].key());
    } else {
        let f = choose|f: int| 0 <= f < n && (#[trigger] setups[f]).key == setups[n].key;
        reload_does_not_orphan(before, setups, m, f);
    }
}

pub(crate) proof fn lemma_last_state(alerts: Seq<AlertInstance>, m: int)
    requires
        0 <= m < alerts.len(),
        forall|l: int| m < l < alerts.len() ==> (#[trigger] alerts[l]).key() != alerts[m].key(),
    ensures
        last_state(alerts, alerts[m].key()) == Some((alerts[m].state, alerts[m].alert_id)),
    decreases alerts.len(),
{
    if m < alerts.len() - 1 {
        let shorter = alerts.drop_last();
        assert forall|l: int| m < l < shorter.len() implies (#[trigger] shorter[l]).key()
            != shorter[m].key() by {
            assert(alerts[l].key() != alerts[m].key());
        }
        assert(alerts[alerts.len() - 1].key() != alerts[m].key());
        lemma_last_state(shorter, m);
    }
}

/// A reload of the configuration that is in force keeps the state and the id of each alert, where
/// no two alerts have one key.
pub proof fn reloading_the_same_keeps_all(alerts: Seq<AlertInstance>, n: int)
    requires
        0 <= n < alerts.len(),
        forall|l: int, m: int|
            0 <= l < m < alerts.len() ==> (#[trigger] alerts[l]).key() != (
            #[trigger] alerts[m]).key(),
    ensures
        carried_over(alerts, setups_of(alerts), n) == (alerts[n].state, alerts[n].alert_id),
{
    let all = setups_of(alerts);
    assert forall|m: int| 0 <= m < n implies (#[trigger] all[m]).key != all[n].key by {
        assert(alerts[m].key() != alerts[n].key());
    }
    lemma_last_state(alerts, n);
}

/// Alerts of one prefix and direction that fire or are updated in one evaluation are all given
/// the same captured flows, whichever of them comes first.
pub proof fn alerts_share_captured_flows(
    a: AlertInstance,
    b: AlertInstance,
    snapshots: Seq<RateSnapshot>,
    now: Instant,
    rules: Seq<ProcessedRule>,
)
    requires
        a.prefix@ == b.prefix@,
        a.direction == b.direction,
        a.asks(snapshots, now),
        b.asks(snapshots, now),
    ensures
        ({
            let flows = drained(rules, a.prefix@, a.direction);
            &&& reported_rules(a, snapshots, now, rules) == mitigation_for(
                a,
                a.rate(snapshots),
                flows,
            )
            &&& reported_rules(b, snapshots, now, rules) == mitigation_for(
                b,
                b.rate(snapshots),
                flows,
            )
        }),
{
}


/// One evaluation of all alerts: the alerts before and after it, what it was given, and what it
/// reported.
pub struct Evaluation {
    pub before: Seq<AlertInstance>,
    pub after: Seq<AlertInstance>,
    pub snapshots: Seq<RateSnapshot>,
    pub now: Instant,
    pub rules: Seq<ProcessedRule>,
    pub payloads: Seq<AlertPayload>,
}

impl Evaluation {
    /// Whether the alerts moved on and were reported as an evaluation does it.
    pub open spec fn is_made(self) -> bool {
        &&& self.after.len() == self.before.len()
        &&& forall|n: int|
            0 <= n < self.before.len() ==> (#[trigger] self.before[n]).moves_to(
                self.after[n],
                self.snapshots,
                self.now,
            )
        &&& are_reported(
            self.payloads,
            self.before,
            self.after,
            self.snapshots,
            self.now,
            self.rules,
            self.before.len() as int,
        )
    }

    /// Whether an alert fires.
    pub open spec fn fires(self, n: int) -> bool {
        self.before[n].action(self.snapshots, self.now) == Some(AlertAction::Fire)
    }

    /// Whether payload `p` reports alert `n`.
    pub open spec fn is_report_of(self, p: int, n: int) -> bool {
        let places = acting(self.before, self.snapshots, self.now, self.before.len() as int);
        0 <= p < self.payloads.len() && places[p] == n
    }
}

/// Whether evaluations follow one another with no reload in between.
pub open spec fn follow(all: Seq<Evaluation>) -> bool {
    &&& forall|i: int| 0 <= i < all.len() ==> (#[trigger] all[i]).is_made()
    &&& forall|i: int| 0 <= i < all.len() - 1 ==> (#[trigger] all[i]).after == all[i + 1].before
}

/// Over evaluations `j` to `k`, the id of an alert that does not fire in them stays.
pub proof fn id_changes_only_when_firing(all: Seq<Evaluation>, j: int, k: int, n: int)
    requires
        follow(all),
        0 <= j <= k < all.len(),
        0 <= n < all[j].before.len(),
        forall|i: int| j <= i <= k ==> !(#[trigger] all[i]).fires(n),
    ensures
        n < all[k].after.len(),
        all[k].after[n].alert_id == all[j].before[n].alert_id,
    decreases k,
{
    assert(all[k].is_made());
    assert(!all[k].fires(n));
    if j < k {
        id_changes_only_when_firing(all, j, k - 1, n);
        assert(all[k - 1].after == all[k].before);
    }
    assert(all[k].before[n].moves_to(all[k].after[n], all[k].snapshots, all[k].now));
}

/// All that is reported of an alert from one trigger on until the next carries the id that the
/// trigger set: a random one, which the trigger itself reports too.
pub proof fn reports_carry_the_id_of_the_trigger(
    all: Seq<Evaluation>,
    j: int,
    k: int,
    n: int,
    p: int,
    q: int,
)
    requires
        follow(all),
        0 <= j <= k < all.len(),
        0 <= n < all[j].before.len(),
        all[j].fires(n),
        forall|i: int| j < i <= k ==> !(#[trigger] all[i]).fires(n),
        all[j].is_report_of(p, n),
        all[k].is_report_of(q, n),
    ensures
        is_random_id(all[j].payloads[p].alert_id),
        all[k].payloads[q].alert_id == all[j].payloads[p].alert_id,
{
    assert(all[j].is_made());
    assert(all[k].is_made());
    assert(all[j].before[n].moves_to(all[j].after[n], all[j].snapshots, all[j].now));
    if j < k {
        assert(all[j].after == all[j + 1].before);
        id_changes_only_when_firing(all, j + 1, k, n);
    }
    assert(all[j].payloads[p].alert_id == all[j].after[n].alert_id);
    assert(all[k].payloads[q].alert_id == all[k].after[n].alert_id);
}

} // verus!
