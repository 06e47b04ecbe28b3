//! What holds of the alerts that a configuration sets up.

use crate::alert::{
    carried_over, configured, direction_setups, is_first_with_key, last_state, metric_setups,
    policy_times, rule_setups, setups, setups_of, AlertInstance, AlertKey, AlertManager, AlertSetup,
    MetricType,
};
use crate::alert_laws::lemma_last_state;
use crate::config::{
    Config, Direction, DirectionMetrics, MetricThresholds, ProtocolCategory, RuleConfig,
    ThresholdPair,
};
use crate::maps::{label_map, policy_map};
use crate::net::text_of_prefix;
use vstd::prelude::*;

verus! {

/// The threshold of a metric.
pub open spec fn threshold_of(metrics: MetricThresholds, metric: MetricType) -> Option<
    ThresholdPair,
> {
    match metric {
        MetricType::Bps => metrics.bps,
        MetricType::Pps => metrics.pps,
        MetricType::Fps => metrics.fps,
    }
}

/// Whether a configuration has a threshold of a metric for the direction at place `j` of the
/// category at place `i` of rule `r`.
pub open spec fn has_threshold(config: Config, r: int, i: int, j: int, metric: MetricType) -> bool {
    &&& 0 <= r < config.rules@.len()
    &&& 0 <= i < config.rules@[r].thresholds@.len()
    &&& 0 <= j < config.rules@[r].thresholds@[i].1@.len()
    &&& threshold_of(config.rules@[r].thresholds@[i].1@[j].1.metrics, metric) is Some
}

/// Whether an alert has a prefix, a category, a direction and a metric.
pub open spec fn is_for(
    alert: AlertInstance,
    prefix: Seq<char>,
    protocol: ProtocolCategory,
    direction: Direction,
    metric: MetricType,
) -> bool {
    &&& alert.prefix@ == prefix
    &&& alert.protocol == protocol
    &&& alert.direction == direction
    &&& alert.metric == metric
}

/// Whether an alert watches a threshold of a configuration: it has the text of the rule's prefix,
/// the category, the direction and the metric of the threshold, its trigger and its recovery
/// threshold, the labels of the rule, and the times of the rule's policy.
pub open spec fn watches(
    alert: AlertInstance,
    config: Config,
    r: int,
    i: int,
    j: int,
    metric: MetricType,
) -> bool {
    let rule = config.rules@[r];
    let pair = threshold_of(rule.thresholds@[i].1@[j].1.metrics, metric)->Some_0;
    &&& is_for(
        alert,
        text_of_prefix(rule.prefix),
        rule.thresholds@[i].0,
        rule.thresholds@[i].1@[j].0,
        metric,
    )
    &&& alert.trigger_threshold == pair.trigger
    &&& alert.recover_threshold == match pair.recover {
        Some(recover) => recover,
        None => pair.trigger,
    }
    &&& label_map(alert.labels) == label_map(rule.labels)
    &&& alert.mitigation_update_interval == config.global.mitigation_update_interval
    &&& has_times_of(alert, config, rule)
}

/// Whether an alert has the times of a rule's policy, or 10 and 20 seconds where the rule has
/// none.
pub open spec fn has_times_of(alert: AlertInstance, config: Config, rule: RuleConfig) -> bool {
    let policies = policy_map(config.alert_policies);
    if rule.alert_policy matches Some(name) && policies.dom().contains(name@) {
        alert.trigger_for == policies[rule.alert_policy->Some_0@].trigger_for && alert.recover_for
            == policies[rule.alert_policy->Some_0@].recover_for
    } else {
        alert.trigger_for.secs == 10 && alert.trigger_for.nanos == 0 && alert.recover_for.secs == 20
            && alert.recover_for.nanos == 0
    }
}

/// After a reload, each threshold of the configuration has an alert that watches it. The alerts of
/// earlier rules come first.
pub proof fn each_threshold_has_its_alert(
    manager: &mut AlertManager,
    config: Config,
    r: int,
    i: int,
    j: int,
    metric: MetricType,
)
    requires
        config.valid(),
        call_ensures(AlertManager::reload_config, (manager, &config), ()),
        has_threshold(config, r, i, j, metric),
    ensures
        exists|n: int|
            thresholds_of_rules(config, r) <= n < thresholds_of_rules(config, r + 1) && n
                < final(manager).alerts@.len() && watches(
                #[trigger] final(manager).alerts@[n],
                config,
                r,
                i,
                j,
                metric,
            ),
{
    let n = place(config, r, i, j, metric);
    lemma_setup_at(config, r, i, j, metric);
    lemma_count_rules(config, r);
    lemma_count_rules(config, r + 1);
    let alerts = final(manager).alerts@;
    assert(setups_of(alerts) == configured(config));
    assert(setups_of(alerts)[n] == alerts[n].setup());
    assert(alerts[n].setup().key == alerts[n].key());
    assert(watches(alerts[n], config, r, i, j, metric));
}

/// After a reload, each alert watches a threshold of the configuration.
pub proof fn each_alert_has_its_threshold(manager: &mut AlertManager, config: Config, n: int)
    requires
        config.valid(),
        call_ensures(AlertManager::reload_config, (manager, &config), ()),
        0 <= n < final(manager).alerts@.len(),
    ensures
        exists|r: int, i: int, j: int, metric: MetricType| #[trigger]
            has_threshold(config, r, i, j, metric) && watches(
                final(manager).alerts@[n],
                config,
                r,
                i,
                j,
                metric,
            ),
{
    let alerts = final(manager).alerts@;
    assert(setups_of(alerts) == configured(config));
    assert(setups_of(alerts).len() == alerts.len());
    lemma_alert_from(config, config.rules@.len() as int, n);
    let (r, i, j, metric) = choose|r: int, i: int, j: int, metric: MetricType| #[trigger]
        has_threshold(config, r, i, j, metric) && place(config, r, i, j, metric) == n;
    lemma_setup_at(config, r, i, j, metric);
    assert(setups_of(alerts)[n] == alerts[n].setup());
    assert(alerts[n].setup().key == alerts[n].key());
    assert(watches(alerts[n], config, r, i, j, metric));
}

/// The place of a metric's alert among those of one direction.
spec fn offset(metrics: MetricThresholds, metric: MetricType) -> int {
    match metric {
        MetricType::Bps => 0,
        MetricType::Pps => one_if(metrics.bps),
        MetricType::Fps => one_if(metrics.bps) + one_if(metrics.pps),
    }
}

/// 1 where a metric has a threshold.
pub open spec fn one_if(threshold: Option<ThresholdPair>) -> int {
    if threshold is Some {
        1
    } else {
        0
    }
}

/// The place of the alert of a threshold.
spec fn place(config: Config, r: int, i: int, j: int, metric: MetricType) -> int {
    let rule = config.rules@[r];
    let (protocol, directions) = (rule.thresholds@[i].0, rule.thresholds@[i].1@);
    setups(config, r).len() + rule_setups(config, rule, i).len() + direction_setups(
        config,
        rule,
        protocol,
        directions,
        j,
    ).len() + offset(directions[j].1.metrics, metric)
}

/// What is configured of the alert of a threshold.
spec fn setup_for(
    config: Config,
    rule: RuleConfig,
    i: int,
    j: int,
    metric: MetricType,
) -> AlertSetup {
    let pair = threshold_of(rule.thresholds@[i].1@[j].1.metrics, metric)->Some_0;
    let times = policy_times(config, rule);
    AlertSetup {
        key: AlertKey {
            prefix: text_of_prefix(rule.prefix),
            protocol: rule.thresholds@[i].0,
            direction: rule.thresholds@[i].1@[j].0,
            metric,
        },
        trigger_threshold: pair.trigger,
        recover_threshold: match pair.recover {
            Some(recover) => recover,
            None => pair.trigger,
        },
        trigger_for: times.0,
        recover_for: times.1,
        mitigation_update_interval: config.global.mitigation_update_interval,
        labels: label_map(rule.labels),
    }
}

proof fn lemma_setups_grow(config: Config, n: int, m: int, k: int)
    requires
        0 <= n <= m,
        0 <= k < setups(config, n).len(),
    ensures
        k < setups(config, m).len(),
        setups(config, m)[k] == setups(config, n)[k],
    decreases m,
{
    if n < m {
        lemma_setups_grow(config, n, m - 1, k);
    }
}

proof fn lemma_rule_setups_grow(config: Config, rule: RuleConfig, n: int, m: int, k: int)
    requires
        0 <= n <= m,
        0 <= k < rule_setups(config, rule, n).len(),
    ensures
        k < rule_setups(config, rule, m).len(),
        rule_setups(config, rule, m)[k] == rule_setups(config, rule, n)[k],
    decreases m,
{
    if n < m {
        lemma_rule_setups_grow(config, rule, n, m - 1, k);
    }
}

proof fn lemma_direction_setups_grow(
    config: Config,
    rule: RuleConfig,
    protocol: ProtocolCategory,
    directions: Seq<(Direction, DirectionMetrics)>,
    n: int,
    m: int,
    k: int,
)
    requires
        0 <= n <= m,
        0 <= k < direction_setups(config, rule, protocol, directions, n).len(),
    ensures
        k < direction_setups(config, rule, protocol, directions, m).len(),
        direction_setups(config, rule, protocol, directions, m)[k] == direction_setups(
            config,
            rule,
            protocol,
            directions,
            n,
        )[k],
    decreases m,
{
    if n < m {
        lemma_direction_setups_grow(config, rule, protocol, directions, n, m - 1, k);
    }
}

proof fn lemma_metric_setups(config: Config, rule: RuleConfig, i: int, j: int)
    ensures
        ({
            let (direction, of_direction) = rule.thresholds@[i].1@[j];
            let all = metric_setups(
                text_of_prefix(rule.prefix),
                rule.thresholds@[i].0,
                direction,
                of_direction.metrics,
                policy_times(config, rule),
                config.global.mitigation_update_interval,
                label_map(rule.labels),
            );
            &&& all.len() == one_if(of_direction.metrics.bps) + one_if(of_direction.metrics.pps) + one_if(
                of_direction.metrics.fps,
            )
            &&& forall|metric: MetricType| #[trigger]
                threshold_of(of_direction.metrics, metric) is Some ==> 0 <= offset(
                    of_direction.metrics,
                    metric,
                ) < all.len() && all[offset(of_direction.metrics, metric)] == setup_for(
                    config,
                    rule,
                    i,
                    j,
                    metric,
                )
        }),
{
}

proof fn lemma_setup_at(config: Config, r: int, i: int, j: int, metric: MetricType)
    requires
        has_threshold(config, r, i, j, metric),
    ensures
        ({
            let n = place(config, r, i, j, metric);
            &&& setups(config, r).len() <= n < setups(config, r + 1).len()
            &&& n < configured(config).len()
            &&& configured(config)[n] == setup_for(config, config.rules@[r], i, j, metric)
        }),
{
    let rule = config.rules@[r];
    let (protocol, directions) = (rule.thresholds@[i].0, rule.thresholds@[i].1@);
    let metrics = directions[j].1.metrics;
    lemma_metric_setups(config, rule, i, j);
    assert(threshold_of(metrics, metric) is Some);
    let c = direction_setups(config, rule, protocol, directions, j).len() + offset(metrics, metric);
    assert(direction_setups(config, rule, protocol, directions, j + 1)[c] == setup_for(
        config,
        rule,
        i,
        j,
        metric,
    ));
    lemma_direction_setups_grow(
        config,
        rule,
        protocol,
        directions,
        j + 1,
        directions.len() as int,
        c,
    );
    let b = rule_setups(config, rule, i).len() + c;
    assert(rule_setups(config, rule, i + 1)[b] == setup_for(config, rule, i, j, metric));
    lemma_rule_setups_grow(config, rule, i + 1, rule.thresholds@.len() as int, b);
    let a = setups(config, r).len() + b;
    assert(setups(config, r + 1)[a] == setup_for(config, rule, i, j, metric));
    lemma_setups_grow(config, r + 1, config.rules@.len() as int, a);
}

proof fn lemma_alert_from(config: Config, m: int, n: int)
    requires
        0 <= m <= config.rules@.len(),
        0 <= n < setups(config, m).len(),
    ensures
        exists|r: int, i: int, j: int, metric: MetricType| #[trigger]
            has_threshold(config, r, i, j, metric) && place(config, r, i, j, metric) == n,
    decreases m,
{
    if n < setups(config, m - 1).len() {
        lemma_alert_from(config, m - 1, n);
    } else {
        let r = m - 1;
        lemma_alert_of_rule(
            config,
            r,
            config.rules@[r].thresholds@.len() as int,
            n - setups(config, r).len(),
        );
    }
}

proof fn lemma_alert_of_rule(config: Config, r: int, m: int, n: int)
    requires
        0 <= r < config.rules@.len(),
        0 <= m <= config.rules@[r].thresholds@.len(),
        0 <= n < rule_setups(config, config.rules@[r], m).len(),
    ensures
        exists|i: int, j: int, metric: MetricType| #[trigger]
            has_threshold(config, r, i, j, metric) && place(config, r, i, j, metric) == setups(
                config,
                r,
            ).len() + n,
    decreases m,
{
    let rule = config.rules@[r];
    if n < rule_setups(config, rule, m - 1).len() {
        lemma_alert_of_rule(config, r, m - 1, n);
    } else {
        let i = m - 1;
        lemma_alert_of_category(
            config,
            r,
            i,
            rule.thresholds@[i].1@.len() as int,
            n - rule_setups(config, rule, i).len(),
        );
        let (j, metric) = choose|j: int, metric: MetricType| #[trigger]
            has_threshold(config, r, i, j, metric) && place(config, r, i, j, metric) == setups(
                config,
                r,
            ).len() + n;
        assert(has_threshold(config, r, i, j, metric));
    }
}

proof fn lemma_alert_of_category(config: Config, r: int, i: int, m: int, n: int)
    requires
        0 <= r < config.rules@.len(),
        0 <= i < config.rules@[r].thresholds@.len(),
        0 <= m <= config.rules@[r].thresholds@[i].1@.len(),
        0 <= n < direction_setups(
            config,
            config.rules@[r],
            config.rules@[r].thresholds@[i].0,
            config.rules@[r].thresholds@[i].1@,
            m,
        ).len(),
    ensures
        exists|j: int, metric: MetricType| #[trigger]
            has_threshold(config, r, i, j, metric) && place(config, r, i, j, metric) == setups(
                config,
                r,
            ).len() + rule_setups(config, config.rules@[r], i).len() + n,
    decreases m,
{
    let rule = config.rules@[r];
    let (protocol, directions) = (rule.thresholds@[i].0, rule.thresholds@[i].1@);
    let j = m - 1;
    let earlier = direction_setups(config, rule, protocol, directions, j).len() as int;
    if n < earlier {
        lemma_alert_of_category(config, r, i, j, n);
    } else {
        lemma_metric_setups(config, rule, i, j);
        let metrics = directions[j].1.metrics;
        let k = n - earlier;
        let metric = if metrics.bps is Some && k == 0 {
            MetricType::Bps
        } else if metrics.pps is Some && k == one_if(metrics.bps) {
            MetricType::Pps
        } else {
            MetricType::Fps
        };
        assert(offset(metrics, metric) == k && threshold_of(metrics, metric) is Some);
        assert(has_threshold(config, r, i, j, metric));
    }
}

/// The number of thresholds of the first `n` directions of a category.
pub open spec fn thresholds_of_directions(
    directions: Seq<(Direction, DirectionMetrics)>,
    n: int,
) -> int
    decreases n,
{
    if n <= 0 {
        0
    } else {
        let metrics = directions[n - 1].1.metrics;
        thresholds_of_directions(directions, n - 1) + one_if(metrics.bps) + one_if(metrics.pps) + one_if(
            metrics.fps,
        )
    }
}

/// The number of thresholds of the first `n` categories of a rule.
pub open spec fn thresholds_of_categories(rule: RuleConfig, n: int) -> int
    decreases n,
{
    if n <= 0 {
        0
    } else {
        thresholds_of_categories(rule, n - 1) + thresholds_of_directions(
            rule.thresholds@[n - 1].1@,
            rule.thresholds@[n - 1].1@.len() as int,
        )
    }
}

/// The number of thresholds of the first `n` rules of a configuration.
pub open spec fn thresholds_of_rules(config: Config, n: int) -> int
    decreases n,
{
    if n <= 0 {
        0
    } else {
        thresholds_of_rules(config, n - 1) + thresholds_of_categories(
            config.rules@[n - 1],
            config.rules@[n - 1].thresholds@.len() as int,
        )
    }
}

/// After a reload there are as many alerts as the configuration has thresholds: none is watched
/// twice.
pub proof fn as_many_alerts_as_thresholds(manager: &mut AlertManager, config: Config)
    requires
        config.valid(),
        call_ensures(AlertManager::reload_config, (manager, &config), ()),
    ensures
        final(manager).alerts@.len() == thresholds_of_rules(config, config.rules@.len() as int),
{
    assert(setups_of(final(manager).alerts@).len() == final(manager).alerts@.len());
    lemma_count_rules(config, config.rules@.len() as int);
}

proof fn lemma_count_rules(config: Config, n: int)
    requires
        0 <= n <= config.rules@.len(),
    ensures
        setups(config, n).len() == thresholds_of_rules(config, n),
    decreases n,
{
    if n > 0 {
        lemma_count_rules(config, n - 1);
        lemma_count_categories(
            config,
            config.rules@[n - 1],
            config.rules@[n - 1].thresholds@.len() as int,
        );
    }
}

proof fn lemma_count_categories(config: Config, rule: RuleConfig, n: int)
    requires
        0 <= n <= rule.thresholds@.len(),
    ensures
        rule_setups(config, rule, n).len() == thresholds_of_categories(rule, n),
    decreases n,
{
    if n > 0 {
        lemma_count_categories(config, rule, n - 1);
        lemma_count_directions(config, rule, n - 1, rule.thresholds@[n - 1].1@.len() as int);
    }
}

proof fn lemma_count_directions(config: Config, rule: RuleConfig, i: int, n: int)
    requires
        0 <= i < rule.thresholds@.len(),
        0 <= n <= rule.thresholds@[i].1@.len(),
    ensures
        direction_setups(
            config,
            rule,
            rule.thresholds@[i].0,
            rule.thresholds@[i].1@,
            n,
        ).len() == thresholds_of_directions(rule.thresholds@[i].1@, n),
    decreases n,
{
    if n > 0 {
        lemma_count_directions(config, rule, i, n - 1);
        lemma_metric_setups(config, rule, i, n - 1);
    }
}

/// Whether two alerts have the same prefix, category, direction and metric.
pub open spec fn are_alike(a: AlertInstance, b: AlertInstance) -> bool {
    is_for(a, b.prefix@, b.protocol, b.direction, b.metric)
}

/// A reload keeps the state and the id of an alert that is still configured, and starts the others
/// as normal ones with no id. Where several were alike before, the last one is kept, and where
/// several are alike afterwards, the first one has it.
pub proof fn a_reload_keeps_states(manager: &mut AlertManager, config: Config, n: int)
    requires
        config.valid(),
        call_ensures(AlertManager::reload_config, (manager, &config), ()),
        0 <= n < final(manager).alerts@.len(),
    ensures
        ({
            let (before, alerts) = (old(manager).alerts@, final(manager).alerts@);
            let first = forall|m: int| 0 <= m < n ==> !are_alike(#[trigger] alerts[m], alerts[n]);
            &&& first ==> forall|m: int|
                0 <= m < before.len() && are_alike(#[trigger] before[m], alerts[n]) && (forall|
                    l: int,
                |
                    m < l < before.len() ==> !are_alike(#[trigger] before[l], alerts[n]))
                    ==> alerts[n].state == before[m].state && alerts[n].alert_id
                    == before[m].alert_id
            &&& !first || (forall|m: int|
                0 <= m < before.len() ==> !are_alike(#[trigger] before[m], alerts[n]))
                ==> alerts[n].state is Normal && alerts[n].alert_id == 0
        }),
        match config.global.alert_script {
            Some(script) => final(manager).script_path matches Some(path) && path@ == script@,
            None => final(manager).script_path == old(manager).script_path,
        },
{
    let (before, alerts) = (old(manager).alerts@, final(manager).alerts@);
    let all = configured(config);
    assert(setups_of(alerts) == all);
    assert forall|m: int| 0 <= m < alerts.len() implies (#[trigger] all[m]).key == alerts[m].key()
        by {
        assert(setups_of(alerts)[m] == alerts[m].setup());
    }
    assert((alerts[n].state, alerts[n].alert_id) == carried_over(before, all, n));
    let key = all[n].key;
    assert(key == alerts[n].key());
    if is_first_with_key(all, n) {
        assert forall|m: int| 0 <= m < n implies !are_alike(#[trigger] alerts[m], alerts[n]) by {
            assert(all[m].key != all[n].key);
        }
        assert forall|m: int|
            0 <= m < before.len() && are_alike(#[trigger] before[m], alerts[n]) && (forall|l: int|
                m < l < before.len() ==> !are_alike(
                    #[trigger] before[l],
                    alerts[n],
                )) implies alerts[n].state == before[m].state && alerts[n].alert_id
            == before[m].alert_id by {
            assert(before[m].key() == key);
            assert forall|l: int| m < l < before.len() implies (#[trigger] before[l]).key()
                != before[m].key() by {
                assert(!are_alike(before[l], alerts[n]));
            }
            lemma_last_state(before, m);
        }
        if forall|m: int| 0 <= m < before.len() ==> !are_alike(#[trigger] before[m], alerts[n]) {
            assert forall|m: int| 0 <= m < before.len() implies (#[trigger] before[m]).key()
                != key by {
                assert(!are_alike(before[m], alerts[n]));
            }
            lemma_no_last_state(before, key);
        }
    } else {
        let m = choose|m: int| 0 <= m < n && (#[trigger] all[m]).key == all[n].key;
        assert(all[m].key == alerts[m].key());
        assert(are_alike(alerts[m], alerts[n]));
    }
}

proof fn lemma_no_last_state(alerts: Seq<AlertInstance>, key: AlertKey)
    requires
        forall|m: int| 0 <= m < alerts.len() ==> (#[trigger] alerts[m]).key() != key,
    ensures
        last_state(alerts, key) is None,
    decreases alerts.len(),
{
    if alerts.len() > 0 {
        assert(alerts[alerts.len() - 1].key() != key);
        let shorter = alerts.drop_last();
        assert forall|m: int| 0 <= m < shorter.len() implies (#[trigger] shorter[m]).key()
            != key by {
            assert(alerts[m].key() != key);
        }
        lemma_no_last_state(shorter, key);
    }
}

} // verus!
