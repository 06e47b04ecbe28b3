//! Alerts: when they fire, are updated and resolve, and what is reported then.

use crate::config::{
    Config, Direction, DirectionMetrics, MetricThresholds, ProtocolCategory, RuleConfig,
    ThresholdPair,
};
use crate::double::Double;
use crate::flow::{value_or, FlowRecord};
use crate::maps::{clone_labels, find_policy, label_map, policy_map};
use crate::mitigation::{
    analyze_flows, lemma_category_fits, rule_texts, suggested, MitigationRule, RuleText,
};
use crate::net::{parse_prefix, prefix_of_text, prefix_text, text_of_prefix, Prefix};
use crate::processor::{
    are_drained_to, drained, CapturedFlow, FlowProcessor, ProcessedRule, RateSnapshot,
};
use crate::time::{passed, Duration, Instant};
use fxhash::FxHashMap;
use vstd::prelude::*;
use vstd::string::*;

verus! {

/// Where an alert stands.
#[derive(Clone, Copy, Debug, PartialEq, Eq, Structural)]
pub enum AlertState {
    /// The rate is below the trigger.
    Normal,
    /// The rate has reached the trigger, but not for long enough.
    Pending { since: Instant },
    /// The alert has fired; `last_update` is when its flows were last analyzed.
    Firing { last_update: Instant },
    /// The rate has dropped below the recovery threshold, but not for long enough.
    Recovering { since: Instant },
}

/// What is measured.
#[derive(Clone, Copy, Debug, PartialEq, Eq, Hash, Structural)]
pub enum MetricType {
    Bps,
    Pps,
    Fps,
}

impl MetricType {
    /// The name of the metric.
    pub open spec fn text(self) -> Seq<char> {
        match self {
            MetricType::Bps => "bps"@,
            MetricType::Pps => "pps"@,
            MetricType::Fps => "fps"@,
        }
    }

    /// The name of the metric.
    pub fn as_str(&self) -> (name: &'static str)
        ensures
            name@ == self.text(),
    {
        match self {
            MetricType::Bps => "bps",
            MetricType::Pps => "pps",
            MetricType::Fps => "fps",
        }
    }
}

/// What is reported of an alert.
#[derive(Clone, Copy, Debug, PartialEq, Eq, Structural)]
pub enum AlertAction {
    Fire,
    Update,
    Resolve,
}

impl AlertAction {
    /// The name of the action.
    pub open spec fn text(self) -> Seq<char> {
        match self {
            AlertAction::Fire => "trigger"@,
            AlertAction::Update => "update"@,
            AlertAction::Resolve => "resolve"@,
        }
    }

    /// The name of the action.
    pub fn as_str(&self) -> (name: &'static str)
        ensures
            name@ == self.text(),
    {
        match self {
            AlertAction::Fire => "trigger",
            AlertAction::Update => "update",
            AlertAction::Resolve => "resolve",
        }
    }

    /// Whether the captured flows are analyzed.
    pub open spec fn analyzes(self) -> bool {
        self is Fire || self is Update
    }
}

/// An alert for one metric of a protocol category and a direction of a rule. The id is 0 until
/// the alert first fires.
pub struct AlertInstance {
    pub state: AlertState,
    pub alert_id: u128,
    pub prefix: String,
    pub protocol: ProtocolCategory,
    pub direction: Direction,
    pub metric: MetricType,
    pub trigger_threshold: Double,
    pub recover_threshold: Double,
    pub trigger_for: Duration,
    pub recover_for: Duration,
    pub mitigation_update_interval: Duration,
    pub labels: FxHashMap<String, String>,
}

/// What is sent to the alert script.
pub struct AlertPayload {
    pub alert_id: u128,
    pub action: String,
    pub prefix: String,
    pub protocol: String,
    pub direction: String,
    pub metric: String,
    pub value: Double,
    pub threshold: Double,
    pub labels: FxHashMap<String, String>,
    pub mitigation_rules: Vec<MitigationRule>,
}

impl AlertPayload {
    /// Whether this reports an action of an alert, with the rate and the suggested rules.
    pub open spec fn reports(
        self,
        alert: AlertInstance,
        action: AlertAction,
        value: Double,
        rules: Seq<RuleText>,
    ) -> bool {
        &&& self.alert_id == alert.alert_id
        &&& self.action@ == action.text()
        &&& self.prefix@ == alert.prefix@
        &&& self.protocol@ == alert.protocol.text()
        &&& self.direction@ == alert.direction.text()
        &&& self.metric@ == alert.metric.text()
        &&& self.value == value
        &&& self.threshold == if action.analyzes() {
            alert.trigger_threshold
        } else {
            alert.recover_threshold
        }
        &&& label_map(self.labels) == label_map(alert.labels)
        &&& rule_texts(self.mitigation_rules@) == rules
    }
}

impl AlertInstance {
    /// The next state at a rate, and what is reported.
    pub open spec fn step(self, rate: Double, now: Instant) -> (AlertState, Option<AlertAction>) {
        match self.state {
            AlertState::Normal => if rate.no_less(self.trigger_threshold) {
                (AlertState::Pending { since: now }, None)
            } else {
                (AlertState::Normal, None)
            },
            AlertState::Pending { since } => if rate.less(self.trigger_threshold) {
                (AlertState::Normal, None)
            } else if passed(now, since, self.trigger_for) {
                (AlertState::Firing { last_update: now }, Some(AlertAction::Fire))
            } else {
                (self.state, None)
            },
            AlertState::Firing { last_update } => if rate.less(self.recover_threshold) {
                (AlertState::Recovering { since: now }, None)
            } else if passed(now, last_update, self.mitigation_update_interval) {
                (AlertState::Firing { last_update: now }, Some(AlertAction::Update))
            } else {
                (self.state, None)
            },
            AlertState::Recovering { since } => if rate.no_less(self.recover_threshold) {
                (AlertState::Firing { last_update: now }, None)
            } else if passed(now, since, self.recover_for) {
                (AlertState::Normal, Some(AlertAction::Resolve))
            } else {
                (self.state, None)
            },
        }
    }

    /// This alert in another state.
    pub open spec fn in_state(self, state: AlertState) -> AlertInstance {
        AlertInstance { state, ..self }
    }

    /// Moves on at a rate, and says what is to be reported.
    pub fn evaluate(&mut self, current_rate: Double, now: Instant) -> (action: Option<
        AlertAction,
    >)
        ensures
            action == old(self).step(current_rate, now).1,
            *final(self) == old(self).in_state(old(self).step(current_rate, now).0),
    {
        match self.state {
            AlertState::Normal => {
                if current_rate.at_least(self.trigger_threshold) {
                    self.state = AlertState::Pending { since: now };
                }
                None
            },
            AlertState::Pending { since } => {
                if current_rate.below(self.trigger_threshold) {
                    self.state = AlertState::Normal;
                    None
                } else if now.has_passed(since, self.trigger_for) {
                    self.state = AlertState::Firing { last_update: now };
                    Some(AlertAction::Fire)
                } else {
                    None
                }
            },
            AlertState::Firing { last_update } => {
                if current_rate.below(self.recover_threshold) {
                    self.state = AlertState::Recovering { since: now };
                    None
                } else if now.has_passed(last_update, self.mitigation_update_interval) {
                    self.state = AlertState::Firing { last_update: now };
                    Some(AlertAction::Update)
                } else {
                    None
                }
            },
            AlertState::Recovering { since } => {
                if current_rate.at_least(self.recover_threshold) {
                    self.state = AlertState::Firing { last_update: now };
                    None
                } else if now.has_passed(since, self.recover_for) {
                    self.state = AlertState::Normal;
                    Some(AlertAction::Resolve)
                } else {
                    None
                }
            },
        }
    }

    /// The report of an action.
    pub fn build_payload(
        &self,
        value: Double,
        action: AlertAction,
        mitigation_rules: Vec<MitigationRule>,
    ) -> (payload: AlertPayload)
        ensures
            payload.reports(*self, action, value, rule_texts(mitigation_rules@)),
    {
        AlertPayload {
            alert_id: self.alert_id,
            action: action.as_str().to_owned(),
            prefix: self.prefix.clone(),
            protocol: self.protocol.as_str().to_owned(),
            direction: self.direction.as_str().to_owned(),
            metric: self.metric.as_str().to_owned(),
            value,
            threshold: match action {
                AlertAction::Fire | AlertAction::Update => self.trigger_threshold,
                AlertAction::Resolve => self.recover_threshold,
            },
            labels: clone_labels(&self.labels),
            mitigation_rules,
        }
    }
}

/// By what an alert is found again.
pub struct AlertKey {
    pub prefix: Seq<char>,
    pub protocol: ProtocolCategory,
    pub direction: Direction,
    pub metric: MetricType,
}

/// What is configured of an alert.
pub struct AlertSetup {
    pub key: AlertKey,
    pub trigger_threshold: Double,
    pub recover_threshold: Double,
    pub trigger_for: Duration,
    pub recover_for: Duration,
    pub mitigation_update_interval: Duration,
    pub labels: Map<Seq<char>, Seq<char>>,
}

impl AlertInstance {
    /// By what the alert is found again.
    pub open spec fn key(self) -> AlertKey {
        AlertKey {
            prefix: self.prefix@,
            protocol: self.protocol,
            direction: self.direction,
            metric: self.metric,
        }
    }

    /// What is configured of the alert.
    pub open spec fn setup(self) -> AlertSetup {
        AlertSetup {
            key: self.key(),
            trigger_threshold: self.trigger_threshold,
            recover_threshold: self.recover_threshold,
            trigger_for: self.trigger_for,
            recover_for: self.recover_for,
            mitigation_update_interval: self.mitigation_update_interval,
            labels: label_map(self.labels),
        }
    }
}

/// How long a rate must stay at the trigger, and below the recovery threshold: what the policy of
/// the rule says, or 10 and 20 seconds where it has none.
pub open spec fn policy_times(config: Config, rule: RuleConfig) -> (Duration, Duration) {
    match rule.alert_policy {
        Some(name) => if policy_map(config.alert_policies).contains_key(name@) {
            (
                policy_map(config.alert_policies)[name@].trigger_for,
                policy_map(config.alert_policies)[name@].recover_for,
            )
        } else {
            (Duration { secs: 10, nanos: 0 }, Duration { secs: 20, nanos: 0 })
        },
        None => (Duration { secs: 10, nanos: 0 }, Duration { secs: 20, nanos: 0 }),
    }
}

/// The alert for one metric, where it has a threshold.
pub open spec fn metric_setup(
    key: AlertKey,
    threshold: Option<ThresholdPair>,
    times: (Duration, Duration),
    mitigation_update_interval: Duration,
    labels: Map<Seq<char>, Seq<char>>,
) -> Seq<AlertSetup> {
    match threshold {
        Some(pair) => seq![
            AlertSetup {
                key,
                trigger_threshold: pair.trigger,
                recover_threshold: pair.recovery(),
                trigger_for: times.0,
                recover_for: times.1,
                mitigation_update_interval,
                labels,
            },
        ],
        None => Seq::empty(),
    }
}

/// The alerts for the thresholds of one category and direction.
pub open spec fn metric_setups(
    prefix: Seq<char>,
    protocol: ProtocolCategory,
    direction: Direction,
    metrics: MetricThresholds,
    times: (Duration, Duration),
    interval: Duration,
    labels: Map<Seq<char>, Seq<char>>,
) -> Seq<AlertSetup> {
    let bps = AlertKey { prefix, protocol, direction, metric: MetricType::Bps };
    let pps = AlertKey { prefix, protocol, direction, metric: MetricType::Pps };
    let fps = AlertKey { prefix, protocol, direction, metric: MetricType::Fps };
    metric_setup(bps, metrics.bps, times, interval, labels) + metric_setup(
        pps,
        metrics.pps,
        times,
        interval,
        labels,
    ) + metric_setup(fps, metrics.fps, times, interval, labels)
}

/// The alerts for the first `n` directions of a category.
pub open spec fn direction_setups(
    config: Config,
    rule: RuleConfig,
    protocol: ProtocolCategory,
    directions: Seq<(Direction, DirectionMetrics)>,
    n: int,
) -> Seq<AlertSetup>
    decreases n,
{
    if n <= 0 {
        Seq::empty()
    } else {
        direction_setups(config, rule, protocol, directions, n - 1) + metric_setups(
            text_of_prefix(rule.prefix),
            protocol,
            directions[n - 1].0,
            directions[n - 1].1.metrics,
            policy_times(config, rule),
            config.global.mitigation_update_interval,
            label_map(rule.labels),
        )
    }
}

/// The alerts for the first `n` categories of a rule.
pub open spec fn rule_setups(config: Config, rule: RuleConfig, n: int) -> Seq<AlertSetup>
    decreases n,
{
    if n <= 0 {
        Seq::empty()
    } else {
        rule_setups(config, rule, n - 1) + direction_setups(
            config,
            rule,
            rule.thresholds@[n - 1].0,
            rule.thresholds@[n - 1].1@,
            rule.thresholds@[n - 1].1@.len() as int,
        )
    }
}

/// The alerts for the first `n` rules of a configuration.
pub open spec fn setups(config: Config, n: int) -> Seq<AlertSetup>
    decreases n,
{
    if n <= 0 {
        Seq::empty()
    } else {
        setups(config, n - 1) + rule_setups(
            config,
            config.rules@[n - 1],
            config.rules@[n - 1].thresholds@.len() as int,
        )
    }
}

/// The alerts of a configuration: rule by rule, category by category, direction by direction, and
/// of each direction the bits, the packets and the flows per second.
pub open spec fn configured(config: Config) -> Seq<AlertSetup> {
    setups(config, config.rules@.len() as int)
}

/// What is configured of some alerts.
pub open spec fn setups_of(alerts: Seq<AlertInstance>) -> Seq<AlertSetup> {
    alerts.map_values(|alert: AlertInstance| alert.setup())
}

/// The state and the id of the last of some alerts with a key.
pub open spec fn last_state(alerts: Seq<AlertInstance>, key: AlertKey) -> Option<
    (AlertState, u128),
>
    decreases alerts.len(),
{
    if alerts.len() == 0 {
        None
    } else if alerts.last().key() == key {
        Some((alerts.last().state, alerts.last().alert_id))
    } else {
        last_state(alerts.drop_last(), key)
    }
}

/// Whether no earlier alert has the same key.
pub open spec fn is_first_with_key(setups: Seq<AlertSetup>, n: int) -> bool {
    forall|m: int| 0 <= m < n ==> (#[trigger] setups[m]).key != setups[n].key
}

/// The state and the id that a configured alert starts with: those of the last alert that had its
/// key before, where there is one and no earlier alert takes them over.
pub open spec fn carried_over(
    before: Seq<AlertInstance>,
    setups: Seq<AlertSetup>,
    n: int,
) -> (AlertState, u128) {
    if is_first_with_key(setups, n) {
        value_or(last_state(before, setups[n].key), (AlertState::Normal, 0u128))
    } else {
        (AlertState::Normal, 0u128)
    }
}

/// All alerts, and the script to which they are reported.
pub struct AlertManager {
    pub alerts: Vec<AlertInstance>,
    pub script_path: Option<String>,
}

/// Whether two alerts have one key.
fn same_key(a: &AlertInstance, b: &AlertInstance) -> (same: bool)
    ensures
        same == (a.key() == b.key()),
{
    a.prefix == b.prefix && a.protocol == b.protocol && a.direction == b.direction && a.metric
        == b.metric
}

/// Whether all alerts are in the state in which a new one starts.
spec fn are_new(alerts: Seq<AlertInstance>) -> bool {
    forall|n: int|
        0 <= n < alerts.len() ==> (#[trigger] alerts[n]).state == AlertState::Normal
            && alerts[n].alert_id == 0
}

impl AlertManager {
    /// A manager without alerts.
    pub fn new(script_path: Option<String>) -> (manager: AlertManager)
        ensures
            manager.alerts@.len() == 0,
            manager.script_path == script_path,
    {
        AlertManager { alerts: Vec::new(), script_path }
    }

    /// Adds the alert for one metric, where it has a threshold.
    fn add_metric_alert(
        &mut self,
        prefix: &str,
        protocol: ProtocolCategory,
        direction: Direction,
        metric: MetricType,
        threshold: &Option<ThresholdPair>,
        times: (Duration, Duration),
        mitigation_update_interval: Duration,
        labels: &FxHashMap<String, String>,
    )
        requires
            are_new(old(self).alerts@),
        ensures
            are_new(final(self).alerts@),
            final(self).script_path == old(self).script_path,
            setups_of(final(self).alerts@) == setups_of(old(self).alerts@) + metric_setup(
                (AlertKey { prefix: prefix@, protocol, direction, metric }),
                *threshold,
                times,
                mitigation_update_interval,
                label_map(*labels),
            ),
    {
        let ghost before = self.alerts@;
        let ghost key = AlertKey { prefix: prefix@, protocol, direction, metric };
        let ghost new = metric_setup(
            key,
            *threshold,
            times,
            mitigation_update_interval,
            label_map(*labels),
        );
        if let Some(pair) = threshold {
            self.alerts.push(
                AlertInstance {
                    state: AlertState::Normal,
                    alert_id: 0,
                    prefix: prefix.to_owned(),
                    protocol,
                    direction,
                    metric,
                    trigger_threshold: pair.trigger,
                    recover_threshold: pair.recover_value(),
                    trigger_for: times.0,
                    recover_for: times.1,
                    mitigation_update_interval,
                    labels: clone_labels(labels),
                },
            );
        }
        assert(setups_of(self.alerts@) =~= setups_of(before) + new);
    }

    /// Adds the alerts for the thresholds of one category and direction.
    fn add_metric_alerts(
        &mut self,
        prefix: &str,
        protocol: ProtocolCategory,
        direction: Direction,
        thresholds: &MetricThresholds,
        times: (Duration, Duration),
        mitigation_update_interval: Duration,
        labels: &FxHashMap<String, String>,
    )
        requires
            are_new(old(self).alerts@),
        ensures
            are_new(final(self).alerts@),
            final(self).script_path == old(self).script_path,
            setups_of(final(self).alerts@) == setups_of(old(self).alerts@) + metric_setups(
                prefix@,
                protocol,
                direction,
                *thresholds,
                times,
                mitigation_update_interval,
                label_map(*labels),
            ),
    {
        let ghost before = setups_of(self.alerts@);
        self.add_metric_alert(
            prefix,
            protocol,
            direction,
            MetricType::Bps,
            &thresholds.bps,
            times,
            mitigation_update_interval,
            labels,
        );
        self.add_metric_alert(
            prefix,
            protocol,
            direction,
            MetricType::Pps,
            &thresholds.pps,
            times,
            mitigation_update_interval,
            labels,
        );
        self.add_metric_alert(
            prefix,
            protocol,
            direction,
            MetricType::Fps,
            &thresholds.fps,
            times,
            mitigation_update_interval,
            labels,
        );
        assert(setups_of(self.alerts@) =~= before + metric_setups(
            prefix@,
            protocol,
            direction,
            *thresholds,
            times,
            mitigation_update_interval,
            label_map(*labels),
        ));
    }

    /// Adds the alerts of a rule.
    fn add_rule_alerts(&mut self, config: &Config, rule: &RuleConfig)
        requires
            are_new(old(self).alerts@),
            rule.valid(),
        ensures
            are_new(final(self).alerts@),
            final(self).script_path == old(self).script_path,
            setups_of(final(self).alerts@) == setups_of(old(self).alerts@) + rule_setups(
                *config,
                *rule,
                rule.thresholds@.len() as int,
            ),
    {
        let default_times: (Duration, Duration) = (
            Duration::from_secs(10),
            Duration::from_secs(20),
        );
        let times: (Duration, Duration) = match &rule.alert_policy {
            Some(name) => match find_policy(&config.alert_policies, name.as_str()) {
                Some(policy) => (policy.trigger_for, policy.recover_for),
                None => default_times,
            },
            None => default_times,
        };
        let prefix: String = prefix_text(&rule.prefix);
        let ghost before = setups_of(self.alerts@);
        let mut i: usize = 0;
        assert(before + rule_setups(*config, *rule, 0) =~= before);
        while i < rule.thresholds.len()
            invariant
                i <= rule.thresholds@.len(),
                times == policy_times(*config, *rule),
                prefix@ == text_of_prefix(rule.prefix),
                are_new(self.alerts@),
                self.script_path == old(self).script_path,
                setups_of(self.alerts@) == before + rule_setups(*config, *rule, i as int),
            decreases rule.thresholds@.len() - i,
        {
            let protocol: ProtocolCategory = rule.thresholds[i].0;
            let directions: &Vec<(Direction, DirectionMetrics)> = &rule.thresholds[i].1;
            let ghost middle = setups_of(self.alerts@);
            let mut j: usize = 0;
            assert(middle + direction_setups(*config, *rule, protocol, directions@, 0) =~= middle);
            while j < directions.len()
                invariant
                    j <= directions@.len(),
                    times == policy_times(*config, *rule),
                    prefix@ == text_of_prefix(rule.prefix),
                    are_new(self.alerts@),
                    self.script_path == old(self).script_path,
                    setups_of(self.alerts@) == middle + direction_setups(
                        *config,
                        *rule,
                        protocol,
                        directions@,
                        j as int,
                    ),
                decreases directions@.len() - j,
            {
                self.add_metric_alerts(
                    prefix.as_str(),
                    protocol,
                    directions[j].0,
                    &directions[j].1.metrics,
                    times,
                    config.global.mitigation_update_interval,
                    &rule.labels,
                );
                assert(setups_of(self.alerts@) =~= middle + direction_setups(
                    *config,
                    *rule,
                    protocol,
                    directions@,
                    j + 1,
                ));
                j = j + 1;
            }
            assert(setups_of(self.alerts@) =~= before + rule_setups(*config, *rule, i + 1));
            i = i + 1;
        }
    }

    /// Replaces all alerts by those of a configuration. An alert with the same prefix, category,
    /// direction and metric as one before keeps its state and its id, so that one that fires is
    /// still resolved. The script is replaced where the configuration names one.
    pub fn reload_config(&mut self, config: &Config)
        requires
            config.valid(),
        ensures
            setups_of(final(self).alerts@) == configured(*config),
            forall|n: int|
                0 <= n < final(self).alerts@.len() ==> (
                    (#[trigger] final(self).alerts@[n]).state,
                    final(self).alerts@[n].alert_id,
                ) == carried_over(old(self).alerts@, configured(*config), n),
            match config.global.alert_script {
                Some(script) => final(self).script_path matches Some(path) && path@ == script@,
                None => final(self).script_path == old(self).script_path,
            },
    {
        let mut previous: Vec<AlertInstance> = Vec::new();
        std::mem::swap(&mut previous, &mut self.alerts);
        if let Some(script) = &config.global.alert_script {
            self.script_path = Some(script.clone());
        }
        let ghost script = self.script_path;
        let mut i: usize = 0;
        assert(setups_of(self.alerts@) =~= Seq::<AlertSetup>::empty());
        while i < config.rules.len()
            invariant
                i <= config.rules@.len(),
                config.valid(),
                are_new(self.alerts@),
                self.script_path == script,
                setups_of(self.alerts@) == setups(*config, i as int),
            decreases config.rules@.len() - i,
        {
            self.add_rule_alerts(config, &config.rules[i]);
            i = i + 1;
        }
        let ghost all = configured(*config);
        let mut n: usize = 0;
        while n < self.alerts.len()
            invariant
                n <= self.alerts@.len(),
                all == configured(*config),
                self.script_path == script,
                setups_of(self.alerts@) == all,
                previous@ == old(self).alerts@,
                forall|m: int|
                    0 <= m < n ==> (
                        (#[trigger] self.alerts@[m]).state,
                        self.alerts@[m].alert_id,
                    ) == carried_over(previous@, all, m),
                forall|m: int|
                    n <= m < self.alerts@.len() ==> (#[trigger] self.alerts@[m]).state
                        == AlertState::Normal && self.alerts@[m].alert_id == 0,
            decreases self.alerts@.len() - n,
        {
            let ghost before = self.alerts@;
            assert(forall|m: int| 0 <= m < before.len() ==> all[m] == (#[trigger] before[m]).setup());
            if !self.has_earlier(n) {
                if let Some((state, alert_id)) = find_last(&previous, &self.alerts[n]) {
                    let alert: &mut AlertInstance = &mut self.alerts[n];
                    alert.state = state;
                    alert.alert_id = alert_id;
                }
            }
            proof {
                assert(setups_of(self.alerts@) =~= all);
                assert forall|m: int| 0 <= m < n + 1 implies (
                    (#[trigger] self.alerts@[m]).state,
                    self.alerts@[m].alert_id,
                ) == carried_over(previous@, all, m) by {
                    if m < n {
                        assert(self.alerts@[m] == before[m]);
                    }
                }
            }
            n = n + 1;
        }
        assert(setups_of(self.alerts@).len() == self.alerts@.len());
    }

    /// Whether an earlier alert has the key of an alert.
    fn has_earlier(&self, n: usize) -> (b: bool)
        requires
            n < self.alerts@.len(),
        ensures
            b == !is_first_with_key(setups_of(self.alerts@), n as int),
    {
        let mut m: usize = 0;
        let ghost all = setups_of(self.alerts@);
        while m < n
            invariant
                m <= n < self.alerts@.len(),
                all == setups_of(self.alerts@),
                forall|k: int| 0 <= k < m ==> (#[trigger] all[k]).key != all[n as int].key,
            decreases n - m,
        {
            if same_key(&self.alerts[m], &self.alerts[n]) {
                assert(all[m as int].key == all[n as int].key);
                return true;
            }
            m = m + 1;
        }
        false
    }
}

/// The state and the id of the last of some alerts that has the key of another one.
fn find_last(alerts: &Vec<AlertInstance>, other: &AlertInstance) -> (found: Option<
    (AlertState, u128),
>)
    ensures
        found == last_state(alerts@, other.key()),
{
    let mut n: usize = alerts.len();
    assert(alerts@.take(n as int) =~= alerts@);
    while n > 0
        invariant
            n <= alerts@.len(),
            last_state(alerts@, other.key()) == last_state(alerts@.take(n as int), other.key()),
        decreases n,
    {
        assert(alerts@.take(n as int).drop_last() =~= alerts@.take(n - 1));
        if same_key(&alerts[n - 1], other) {
            return Some((alerts[n - 1].state, alerts[n - 1].alert_id));
        }
        n = n - 1;
    }
    None
}


/// The rate of a metric.
pub open spec fn rate_of(snapshot: RateSnapshot, metric: MetricType) -> Double {
    match metric {
        MetricType::Bps => snapshot.bps,
        MetricType::Pps => snapshot.pps,
        MetricType::Fps => snapshot.fps,
    }
}

/// The rate that the first fitting snapshot gives for a key.
pub open spec fn first_rate(snapshots: Seq<RateSnapshot>, key: AlertKey) -> Option<Double>
    decreases snapshots.len(),
{
    if snapshots.len() == 0 {
        None
    } else {
        let last = snapshots.last();
        match first_rate(snapshots.drop_last(), key) {
            Some(rate) => Some(rate),
            None => if last.prefix@ == key.prefix && last.protocol == key.protocol
                && last.direction == key.direction {
                Some(rate_of(last, key.metric))
            } else {
                None
            },
        }
    }
}

/// The rate that the first fitting snapshot gives for a key, or 0 where none fits.
pub open spec fn rate_for(snapshots: Seq<RateSnapshot>, key: AlertKey) -> Double {
    value_or(first_rate(snapshots, key), Double { bits: 0 })
}

/// The rate that the first fitting snapshot gives for an alert, or 0 where none fits.
pub fn find_rate(snapshots: &[RateSnapshot], alert: &AlertInstance) -> (rate: Double)
    ensures
        rate == rate_for(snapshots@, alert.key()),
{
    let mut i: usize = 0;
    assert(snapshots@.take(0) =~= Seq::empty());
    while i < snapshots.len()
        invariant
            i <= snapshots@.len(),
            first_rate(snapshots@.take(i as int), alert.key()) is None,
        decreases snapshots@.len() - i,
    {
        let s: &RateSnapshot = &snapshots[i];
        proof {
            assert(snapshots@.take(i + 1).drop_last() =~= snapshots@.take(i as int));
            assert(snapshots@.take(i + 1).last() == *s);
        }
        if s.prefix == alert.prefix && s.protocol == alert.protocol && s.direction
            == alert.direction {
            let rate: Double = match alert.metric {
                MetricType::Bps => s.bps,
                MetricType::Pps => s.pps,
                MetricType::Fps => s.fps,
            };
            proof {
                lemma_first_rate_stays(snapshots@, alert.key(), i + 1);
            }
            return rate;
        }
        i = i + 1;
    }
    assert(snapshots@.take(i as int) =~= snapshots@);
    Double::from_bits(0)
}

proof fn lemma_first_rate_stays(snapshots: Seq<RateSnapshot>, key: AlertKey, n: int)
    requires
        0 <= n <= snapshots.len(),
        first_rate(snapshots.take(n), key) is Some,
    ensures
        first_rate(snapshots, key) == first_rate(snapshots.take(n), key),
    decreases snapshots.len(),
{
    if n < snapshots.len() {
        let shorter = snapshots.drop_last();
        assert(shorter.take(n) =~= snapshots.take(n));
        lemma_first_rate_stays(shorter, key, n);
    } else {
        assert(snapshots.take(n) =~= snapshots);
    }
}

impl AlertInstance {
    /// The rate of the alert, by the snapshots.
    pub open spec fn rate(self, snapshots: Seq<RateSnapshot>) -> Double {
        rate_for(snapshots, self.key())
    }

    /// What is to be reported of the alert.
    pub open spec fn action(self, snapshots: Seq<RateSnapshot>, now: Instant) -> Option<
        AlertAction,
    > {
        self.step(self.rate(snapshots), now).1
    }

    /// Whether the captured flows are to be analyzed.
    pub open spec fn asks(self, snapshots: Seq<RateSnapshot>, now: Instant) -> bool {
        self.action(snapshots, now) matches Some(action) && action.analyzes()
    }

    /// Whether `after` is this alert after one evaluation: it gets a new id where it fires, and
    /// nothing but its state changes otherwise.
    pub open spec fn moves_to(
        self,
        after: AlertInstance,
        snapshots: Seq<RateSnapshot>,
        now: Instant,
    ) -> bool {
        &&& after == (AlertInstance {
            state: self.step(self.rate(snapshots), now).0,
            alert_id: after.alert_id,
            ..self
        })
        &&& if self.action(snapshots, now) == Some(AlertAction::Fire) {
            is_random_id(after.alert_id)
        } else {
            after.alert_id == self.alert_id
        }
    }
}

/// Whether an id has the shape of a random one, which none that is 0 has.
pub open spec fn is_random_id(id: u128) -> bool {
    (id >> 76) & 0xf == 4 && (id >> 62) & 3 == 2
}

/// A new id, by `uuid::Uuid::new_v4` as a number: random but for the four bits of the version and
/// the two of the variant. It panics where the system has no random bytes to give.
#[verifier::external_body]
fn new_id() -> (id: u128)
    ensures
        is_random_id(id),
{
    uuid::Uuid::new_v4().as_u128()
}

/// The places of the first `n` alerts of which something is to be reported.
pub open spec fn acting(
    alerts: Seq<AlertInstance>,
    snapshots: Seq<RateSnapshot>,
    now: Instant,
    n: int,
) -> Seq<int>
    decreases n,
{
    if n <= 0 {
        Seq::empty()
    } else {
        let earlier = acting(alerts, snapshots, now, n - 1);
        if alerts[n - 1].action(snapshots, now) is Some {
            earlier.push(n - 1)
        } else {
            earlier
        }
    }
}

/// Whether one of the first `n` alerts asks for the captured flows of a prefix and a direction.
pub open spec fn is_asked(
    alerts: Seq<AlertInstance>,
    snapshots: Seq<RateSnapshot>,
    now: Instant,
    n: int,
    prefix: Seq<char>,
    direction: Direction,
) -> bool {
    exists|m: int|
        0 <= m < n && (#[trigger] alerts[m]).asks(snapshots, now) && alerts[m].prefix@ == prefix
            && alerts[m].direction == direction
}

/// The captured flows of a prefix that none of the first `n` alerts asks for.
pub open spec fn unasked(
    captured: Seq<CapturedFlow>,
    alerts: Seq<AlertInstance>,
    snapshots: Seq<RateSnapshot>,
    now: Instant,
    n: int,
    prefix: Seq<char>,
) -> Seq<CapturedFlow> {
    captured.filter(
        |c: CapturedFlow| !is_asked(alerts, snapshots, now, n, prefix, c.direction),
    )
}

/// Whether `after` are some rules without the captured flows that the first `n` alerts ask for.
pub open spec fn are_left(
    before: Seq<ProcessedRule>,
    after: Seq<ProcessedRule>,
    alerts: Seq<AlertInstance>,
    snapshots: Seq<RateSnapshot>,
    now: Instant,
    n: int,
) -> bool {
    &&& after.len() == before.len()
    &&& forall|r: int|
        0 <= r < before.len() ==> {
            &&& (#[trigger] after[r]).prefix == before[r].prefix
            &&& after[r].network == before[r].network
            &&& after[r].labels == before[r].labels
            &&& after[r].buffers == before[r].buffers
            &&& after[r].capture_buffer_size == before[r].capture_buffer_size
            &&& after[r].capture_buffer@ == unasked(
                before[r].capture_buffer@,
                alerts,
                snapshots,
                now,
                n,
                text_of_prefix(before[r].prefix),
            )
        }
}

/// The rules that are suggested for an alert from the captured flows: none where there are no
/// flows, or where its prefix cannot be read.
pub open spec fn mitigation_for(
    alert: AlertInstance,
    rate: Double,
    flows: Seq<FlowRecord>,
) -> Seq<RuleText> {
    match prefix_of_text(alert.prefix@) {
        Some(prefix) => if flows.len() > 0 {
            suggested(
                flows,
                prefix,
                alert.direction,
                alert.protocol,
                rate,
                alert.trigger_threshold,
            )
        } else {
            Seq::empty()
        },
        None => Seq::empty(),
    }
}

/// The rules that are reported for an alert, from what the watched rules had captured when the
/// evaluation began.
pub open spec fn reported_rules(
    alert: AlertInstance,
    snapshots: Seq<RateSnapshot>,
    now: Instant,
    rules: Seq<ProcessedRule>,
) -> Seq<RuleText> {
    if alert.asks(snapshots, now) {
        mitigation_for(
            alert,
            alert.rate(snapshots),
            drained(rules, alert.prefix@, alert.direction),
        )
    } else {
        Seq::empty()
    }
}

/// Whether an alert that asks for captured flows, where there are any, gets the rules that are
/// suggested from them for the prefix that its text stands for.
pub open spec fn gets_suggestions(
    alert: AlertInstance,
    snapshots: Seq<RateSnapshot>,
    now: Instant,
    rules: Seq<ProcessedRule>,
) -> bool {
    let flows = drained(rules, alert.prefix@, alert.direction);
    forall|p: Prefix|
        p.valid() && alert.prefix@ == #[trigger] text_of_prefix(p) && alert.asks(snapshots, now)
            && flows.len() > 0 ==> reported_rules(alert, snapshots, now, rules) == suggested(
            flows,
            p,
            alert.direction,
            alert.protocol,
            alert.rate(snapshots),
            alert.trigger_threshold,
        )
}

/// The rules that are suggested for an alert from captured flows.
fn suggest(alert: &AlertInstance, rate: Double, flows: &Vec<FlowRecord>) -> (rules: Vec<
    MitigationRule,
>)
    requires
        forall|i: int| 0 <= i < flows@.len() ==> (#[trigger] flows@[i]).fits(),
    ensures
        rule_texts(rules@) == mitigation_for(*alert, rate, flows@),
        forall|p: Prefix|
            p.valid() && flows@.len() > 0 && alert.prefix@ == #[trigger] text_of_prefix(p)
                ==> rule_texts(rules@) == suggested(
                flows@,
                p,
                alert.direction,
                alert.protocol,
                rate,
                alert.trigger_threshold,
            ),
{
    if flows.len() > 0 {
        match parse_prefix(alert.prefix.as_str()) {
            Ok(prefix) => {
                proof {
                    lemma_category_fits(flows@, alert.protocol);
                }
                return analyze_flows(
                    flows.as_slice(),
                    prefix,
                    alert.direction,
                    alert.protocol,
                    rate,
                    alert.trigger_threshold,
                );
            },
            Err(_) => {},
        }
    }
    let rules: Vec<MitigationRule> = Vec::new();
    assert(rule_texts(rules@) =~= Seq::<RuleText>::empty());
    rules
}

proof fn lemma_unasked_same(
    captured: Seq<CapturedFlow>,
    alerts: Seq<AlertInstance>,
    snapshots: Seq<RateSnapshot>,
    now: Instant,
    n: int,
    m: int,
    prefix: Seq<char>,
)
    requires
        forall|direction: Direction|
            #[trigger] is_asked(alerts, snapshots, now, n, prefix, direction) == is_asked(
                alerts,
                snapshots,
                now,
                m,
                prefix,
                direction,
            ),
    ensures
        unasked(captured, alerts, snapshots, now, n, prefix) == unasked(
            captured,
            alerts,
            snapshots,
            now,
            m,
            prefix,
        ),
    decreases captured.len(),
{
    reveal(Seq::filter);
    if captured.len() > 0 {
        lemma_unasked_same(captured.drop_last(), alerts, snapshots, now, n, m, prefix);
        assert(is_asked(alerts, snapshots, now, n, prefix, captured.last().direction) == is_asked(
            alerts,
            snapshots,
            now,
            m,
            prefix,
            captured.last().direction,
        ));
    }
}

proof fn lemma_unasked_more(
    captured: Seq<CapturedFlow>,
    alerts: Seq<AlertInstance>,
    snapshots: Seq<RateSnapshot>,
    now: Instant,
    n: int,
    prefix: Seq<char>,
    new: Direction,
)
    requires
        !is_asked(alerts, snapshots, now, n, prefix, new),
        forall|direction: Direction|
            #[trigger] is_asked(alerts, snapshots, now, n + 1, prefix, direction) <==> is_asked(
                alerts,
                snapshots,
                now,
                n,
                prefix,
                direction,
            ) || direction == new,
    ensures
        ({
            let left = unasked(captured, alerts, snapshots, now, n, prefix);
            &&& left.filter(|c: CapturedFlow| c.direction == new) == captured.filter(
                |c: CapturedFlow| c.direction == new,
            )
            &&& left.filter(|c: CapturedFlow| c.direction != new) == unasked(
                captured,
                alerts,
                snapshots,
                now,
                n + 1,
                prefix,
            )
        }),
    decreases captured.len(),
{
    reveal(Seq::filter);
    if captured.len() > 0 {
        let shorter = captured.drop_last();
        lemma_unasked_more(shorter, alerts, snapshots, now, n, prefix, new);
        let left = unasked(shorter, alerts, snapshots, now, n, prefix);
        let last = captured.last();
        assert(is_asked(alerts, snapshots, now, n + 1, prefix, last.direction) <==> is_asked(
            alerts,
            snapshots,
            now,
            n,
            prefix,
            last.direction,
        ) || last.direction == new);
        assert(left.push(last).drop_last() =~= left);
    }
}

/// Draining what no earlier alert asked for gives what was captured at first.
proof fn lemma_drained_same(
    before: Seq<ProcessedRule>,
    after: Seq<ProcessedRule>,
    alerts: Seq<AlertInstance>,
    snapshots: Seq<RateSnapshot>,
    now: Instant,
    n: int,
    prefix: Seq<char>,
    direction: Direction,
)
    requires
        are_left(before, after, alerts, snapshots, now, n),
        !is_asked(alerts, snapshots, now, n, prefix, direction),
        forall|d: Direction|
            #[trigger] is_asked(alerts, snapshots, now, n + 1, prefix, d) <==> is_asked(
                alerts,
                snapshots,
                now,
                n,
                prefix,
                d,
            ) || d == direction,
    ensures
        drained(after, prefix, direction) == drained(before, prefix, direction),
    decreases before.len(),
{
    if before.len() > 0 {
        let (a, b) = (before.drop_last(), after.drop_last());
        assert forall|r: int| 0 <= r < a.len() implies {
            &&& (#[trigger] b[r]).prefix == a[r].prefix
            &&& b[r].network == a[r].network
            &&& b[r].labels == a[r].labels
            &&& b[r].buffers == a[r].buffers
            &&& b[r].capture_buffer_size == a[r].capture_buffer_size
            &&& b[r].capture_buffer@ == unasked(
                a[r].capture_buffer@,
                alerts,
                snapshots,
                now,
                n,
                text_of_prefix(a[r].prefix),
            )
        } by {
            assert(b[r] == after[r] && a[r] == before[r]);
        }
        lemma_drained_same(a, b, alerts, snapshots, now, n, prefix, direction);
        let last = before.len() - 1;
        assert(after[last].prefix == before[last].prefix);
        if text_of_prefix(before[last].prefix) == prefix {
            lemma_unasked_more(
                before[last].capture_buffer@,
                alerts,
                snapshots,
                now,
                n,
                prefix,
                direction,
            );
        }
    }
}


proof fn lemma_unasked_at_first(
    captured: Seq<CapturedFlow>,
    alerts: Seq<AlertInstance>,
    snapshots: Seq<RateSnapshot>,
    now: Instant,
    prefix: Seq<char>,
)
    ensures
        unasked(captured, alerts, snapshots, now, 0, prefix) == captured,
    decreases captured.len(),
{
    reveal(Seq::filter);
    if captured.len() > 0 {
        lemma_unasked_at_first(captured.drop_last(), alerts, snapshots, now, prefix);
        assert(captured.drop_last().push(captured.last()) =~= captured);
    }
}

/// What is left after one more alert that asks for nothing new.
proof fn lemma_left_same(
    before: Seq<ProcessedRule>,
    after: Seq<ProcessedRule>,
    alerts: Seq<AlertInstance>,
    snapshots: Seq<RateSnapshot>,
    now: Instant,
    n: int,
)
    requires
        0 <= n < alerts.len(),
        are_left(before, after, alerts, snapshots, now, n),
        alerts[n].asks(snapshots, now) ==> is_asked(
            alerts,
            snapshots,
            now,
            n,
            alerts[n].prefix@,
            alerts[n].direction,
        ),
    ensures
        are_left(before, after, alerts, snapshots, now, n + 1),
{
    assert forall|r: int| 0 <= r < before.len() implies (
    #[trigger] after[r]).capture_buffer@ == unasked(
        before[r].capture_buffer@,
        alerts,
        snapshots,
        now,
        n + 1,
        text_of_prefix(before[r].prefix),
    ) by {
        let prefix = text_of_prefix(before[r].prefix);
        assert forall|d: Direction| #[trigger] is_asked(
            alerts,
            snapshots,
            now,
            n + 1,
            prefix,
            d,
        ) == is_asked(alerts, snapshots, now, n, prefix, d) by {
            lemma_asked_step(alerts, snapshots, now, n, prefix, d);
        }
        lemma_unasked_same(
            before[r].capture_buffer@,
            alerts,
            snapshots,
            now,
            n + 1,
            n,
            prefix,
        );
    }
}

/// What is asked for by one alert more.
proof fn lemma_asked_step(
    alerts: Seq<AlertInstance>,
    snapshots: Seq<RateSnapshot>,
    now: Instant,
    n: int,
    prefix: Seq<char>,
    direction: Direction,
)
    requires
        0 <= n < alerts.len(),
    ensures
        is_asked(alerts, snapshots, now, n + 1, prefix, direction) <==> is_asked(
            alerts,
            snapshots,
            now,
            n,
            prefix,
            direction,
        ) || (alerts[n].asks(snapshots, now) && alerts[n].prefix@ == prefix && alerts[n].direction
            == direction),
{
    if is_asked(alerts, snapshots, now, n, prefix, direction) {
        let m = choose|m: int|
            0 <= m < n && (#[trigger] alerts[m]).asks(snapshots, now) && alerts[m].prefix@
                == prefix && alerts[m].direction == direction;
        assert(alerts[m].asks(snapshots, now));
    }
}

/// What is left after one more alert that asks for something new.
proof fn lemma_left_drained(
    before: Seq<ProcessedRule>,
    middle: Seq<ProcessedRule>,
    after: Seq<ProcessedRule>,
    alerts: Seq<AlertInstance>,
    snapshots: Seq<RateSnapshot>,
    now: Instant,
    n: int,
)
    requires
        0 <= n < alerts.len(),
        are_left(before, middle, alerts, snapshots, now, n),
        alerts[n].asks(snapshots, now),
        !is_asked(alerts, snapshots, now, n, alerts[n].prefix@, alerts[n].direction),
        are_drained_to(middle, after, alerts[n].prefix@, alerts[n].direction),
    ensures
        are_left(before, after, alerts, snapshots, now, n + 1),
        drained(middle, alerts[n].prefix@, alerts[n].direction) == drained(
            before,
            alerts[n].prefix@,
            alerts[n].direction,
        ),
{
    let (prefix, direction) = (alerts[n].prefix@, alerts[n].direction);
    assert forall|d: Direction| #[trigger] is_asked(
        alerts,
        snapshots,
        now,
        n + 1,
        prefix,
        d,
    ) <==> is_asked(alerts, snapshots, now, n, prefix, d) || d == direction by {
        lemma_asked_step(alerts, snapshots, now, n, prefix, d);
    }
    lemma_drained_same(before, middle, alerts, snapshots, now, n, prefix, direction);
    assert forall|r: int| 0 <= r < before.len() implies {
        &&& (#[trigger] after[r]).prefix == before[r].prefix
        &&& after[r].network == before[r].network
        &&& after[r].labels == before[r].labels
        &&& after[r].buffers == before[r].buffers
        &&& after[r].capture_buffer_size == before[r].capture_buffer_size
        &&& after[r].capture_buffer@ == unasked(
            before[r].capture_buffer@,
            alerts,
            snapshots,
            now,
            n + 1,
            text_of_prefix(before[r].prefix),
        )
    } by {
        let own = text_of_prefix(before[r].prefix);
        assert(middle[r].prefix == before[r].prefix);
        if own == prefix {
            assert(middle[r].is_drained_to(after[r], direction));
            lemma_unasked_more(
                before[r].capture_buffer@,
                alerts,
                snapshots,
                now,
                n,
                prefix,
                direction,
            );
        } else {
            assert(after[r] == middle[r]);
            assert forall|d: Direction| #[trigger] is_asked(
                alerts,
                snapshots,
                now,
                n + 1,
                own,
                d,
            ) == is_asked(alerts, snapshots, now, n, own, d) by {
                lemma_asked_step(alerts, snapshots, now, n, own, d);
            }
            lemma_unasked_same(
                before[r].capture_buffer@,
                alerts,
                snapshots,
                now,
                n + 1,
                n,
                own,
            );
        }
    }
}

/// The flows that were drained in one evaluation, by prefix and direction.
struct Drained {
    entries: Vec<(String, Direction, Vec<FlowRecord>)>,
}

impl Drained {
    /// Whether each entry holds what was captured at first, and there is one for exactly what the
    /// first `n` alerts ask for.
    spec fn holds(
        self,
        rules: Seq<ProcessedRule>,
        alerts: Seq<AlertInstance>,
        snapshots: Seq<RateSnapshot>,
        now: Instant,
        n: int,
    ) -> bool {
        &&& forall|k: int|
            0 <= k < self.entries@.len() ==> {
                &&& (#[trigger] self.entries@[k]).2@ == drained(
                    rules,
                    self.entries@[k].0@,
                    self.entries@[k].1,
                )
                &&& is_asked(
                    alerts,
                    snapshots,
                    now,
                    n,
                    self.entries@[k].0@,
                    self.entries@[k].1,
                )
                &&& all_fit(self.entries@[k].2@)
            }
        &&& forall|prefix: Seq<char>, direction: Direction|
            #[trigger] is_asked(alerts, snapshots, now, n, prefix, direction) ==> self.has(
                prefix,
                direction,
            )
    }

    spec fn has(self, prefix: Seq<char>, direction: Direction) -> bool {
        exists|k: int|
            0 <= k < self.entries@.len() && (#[trigger] self.entries@[k]).0@ == prefix
                && self.entries@[k].1 == direction
    }

    /// The place of a prefix and a direction, or the number of entries.
    fn find(&self, prefix: &String, direction: Direction) -> (k: usize)
        ensures
            k <= self.entries@.len(),
            k < self.entries@.len() ==> self.entries@[k as int].0@ == prefix@
                && self.entries@[k as int].1 == direction,
            k == self.entries@.len() ==> !self.has(prefix@, direction),
    {
        let mut k: usize = 0;
        while k < self.entries.len()
            invariant
                k <= self.entries@.len(),
                forall|i: int|
                    0 <= i < k ==> (#[trigger] self.entries@[i]).0@ != prefix@
                        || self.entries@[i].1 != direction,
            decreases self.entries@.len() - k,
        {
            if self.entries[k].0 == *prefix && self.entries[k].1 == direction {
                return k;
            }
            k = k + 1;
        }
        k
    }
}

spec fn all_fit(flows: Seq<FlowRecord>) -> bool {
    forall|i: int| 0 <= i < flows.len() ==> (#[trigger] flows[i]).fits()
}

impl AlertManager {
    /// Evaluates all alerts against the current rates, one after the other, and gives what is to
    /// be reported. Where an alert fires or is updated, rules are suggested from the captured
    /// flows of its prefix and direction. These are drained once, and all alerts of the prefix
    /// and direction share them.
    pub fn evaluate(
        &mut self,
        snapshots: &[RateSnapshot],
        processor: &mut FlowProcessor,
        now: Instant,
    ) -> (payloads: Vec<AlertPayload>)
        requires
            old(processor).valid(),
        ensures
            final(processor).valid(),
            final(processor).window_secs == old(processor).window_secs,
            are_left(
                old(processor).rules@,
                final(processor).rules@,
                old(self).alerts@,
                snapshots@,
                now,
                old(self).alerts@.len() as int,
            ),
            final(self).script_path == old(self).script_path,
            final(self).alerts@.len() == old(self).alerts@.len(),
            forall|n: int|
                0 <= n < old(self).alerts@.len() ==> (#[trigger] old(self).alerts@[n]).moves_to(
                    final(self).alerts@[n],
                    snapshots@,
                    now,
                ),
            are_reported(
                payloads@,
                old(self).alerts@,
                final(self).alerts@,
                snapshots@,
                now,
                old(processor).rules@,
                old(self).alerts@.len() as int,
            ),
            forall|n: int|
                0 <= n < old(self).alerts@.len() ==> gets_suggestions(
                    #[trigger] old(self).alerts@[n],
                    snapshots@,
                    now,
                    old(processor).rules@,
                ),
    {
        let mut payloads: Vec<AlertPayload> = Vec::new();
        let mut taken: Drained = Drained { entries: Vec::new() };
        let ghost before = self.alerts@;
        let ghost rules = processor.rules@;
        proof {
            assert forall|r: int| 0 <= r < rules.len() implies (
            #[trigger] rules[r]).capture_buffer@ == unasked(
                rules[r].capture_buffer@,
                before,
                snapshots@,
                now,
                0,
                text_of_prefix(rules[r].prefix),
            ) by {
                lemma_unasked_at_first(
                    rules[r].capture_buffer@,
                    before,
                    snapshots@,
                    now,
                    text_of_prefix(rules[r].prefix),
                );
            }
        }
        let mut n: usize = 0;
        while n < self.alerts.len()
            invariant
                n <= before.len(),
                before == old(self).alerts@,
                rules == old(processor).rules@,
                processor.valid(),
                processor.window_secs == old(processor).window_secs,
                self.script_path == old(self).script_path,
                self.alerts@.len() == before.len(),
                are_left(rules, processor.rules@, before, snapshots@, now, n as int),
                taken.holds(rules, before, snapshots@, now, n as int),
                forall|m: int|
                    n <= m < before.len() ==> #[trigger] self.alerts@[m] == before[m],
                forall|m: int|
                    0 <= m < n ==> (#[trigger] before[m]).moves_to(
                        self.alerts@[m],
                        snapshots@,
                        now,
                    ),
                forall|m: int|
                    0 <= m < n ==> gets_suggestions(
                        #[trigger] before[m],
                        snapshots@,
                        now,
                        rules,
                    ),
                are_reported(
                    payloads@,
                    before,
                    self.alerts@,
                    snapshots@,
                    now,
                    rules,
                    n as int,
                ),
            decreases before.len() - n,
        {
            let ghost alerts = self.alerts@;
            assert(alerts[n as int] == before[n as int]);
            let rate: Double = find_rate(snapshots, &self.alerts[n]);
            let alert: &mut AlertInstance = &mut self.alerts[n];
            let found: Option<AlertAction> = alert.evaluate(rate, now);
            if let Some(AlertAction::Fire) = found {
                alert.alert_id = new_id();
            }
            let ghost middle = self.alerts@;
            proof {
                assert(middle =~= alerts.update(n as int, middle[n as int]));
                assert(before[n as int].moves_to(middle[n as int], snapshots@, now));
                lemma_reported_stay(
                    payloads@,
                    before,
                    alerts,
                    middle,
                    snapshots@,
                    now,
                    rules,
                    n as int,
                );
            }
            match found {
                None => {
                    proof {
                        lemma_left_same(rules, processor.rules@, before, snapshots@, now, n as int);
                        lemma_taken_same(taken, rules, before, snapshots@, now, n as int);
                    }
                },
                Some(AlertAction::Resolve) => {
                    proof {
                        lemma_left_same(rules, processor.rules@, before, snapshots@, now, n as int);
                        lemma_taken_same(taken, rules, before, snapshots@, now, n as int);
                    }
                    let none: Vec<MitigationRule> = Vec::new();
                    let ghost earlier = payloads@;
                    payloads.push(self.alerts[n].build_payload(rate, AlertAction::Resolve, none));
                    proof {
                        assert(rule_texts(none@) =~= Seq::<RuleText>::empty());
                        lemma_one_more_reported(
                            earlier,
                            payloads@[earlier.len() as int],
                            before,
                            middle,
                            snapshots@,
                            now,
                            rules,
                            n as int,
                        );
                        assert(payloads@ =~= earlier.push(payloads@[earlier.len() as int]));
                    }
                },
                Some(action) => {
                    let k: usize = taken.find(&self.alerts[n].prefix, self.alerts[n].direction);
                    if k == taken.entries.len() {
                        let ghost left = processor.rules@;
                        let ghost old_taken = taken;
                        let flows: Vec<FlowRecord> = processor.drain_captured_flows(
                            self.alerts[n].prefix.as_str(),
                            self.alerts[n].direction,
                        );
                        proof {
                            lemma_left_drained(
                                rules,
                                left,
                                processor.rules@,
                                before,
                                snapshots@,
                                now,
                                n as int,
                            );
                        }
                        taken.entries.push(
                            (self.alerts[n].prefix.clone(), self.alerts[n].direction, flows),
                        );
                        proof {
                            lemma_taken_more(
                                old_taken,
                                taken,
                                rules,
                                before,
                                snapshots@,
                                now,
                                n as int,
                            );
                        }
                    } else {
                        proof {
                            lemma_left_same(
                                rules,
                                processor.rules@,
                                before,
                                snapshots@,
                                now,
                                n as int,
                            );
                            lemma_taken_same(taken, rules, before, snapshots@, now, n as int);
                        }
                    }
                    assert(taken.entries@[k as int].2@ == drained(
                        rules,
                        before[n as int].prefix@,
                        before[n as int].direction,
                    ));
                    assert(all_fit(taken.entries@[k as int].2@));
                    let suggestions: Vec<MitigationRule> = suggest(
                        &self.alerts[n],
                        rate,
                        &taken.entries[k].2,
                    );
                    let ghost earlier = payloads@;
                    payloads.push(self.alerts[n].build_payload(rate, action, suggestions));
                    proof {
                        lemma_one_more_reported(
                            earlier,
                            payloads@[earlier.len() as int],
                            before,
                            middle,
                            snapshots@,
                            now,
                            rules,
                            n as int,
                        );
                        assert(payloads@ =~= earlier.push(payloads@[earlier.len() as int]));
                    }
                },
            }
            n = n + 1;
        }
        payloads
    }
}

/// Whether the payloads report the actions of the first `n` alerts, in their order. The rules come
/// from what the watched rules had captured when the evaluation began.
pub open spec fn are_reported(
    payloads: Seq<AlertPayload>,
    before: Seq<AlertInstance>,
    after: Seq<AlertInstance>,
    snapshots: Seq<RateSnapshot>,
    now: Instant,
    rules: Seq<ProcessedRule>,
    n: int,
) -> bool {
    let places = acting(before, snapshots, now, n);
    &&& payloads.len() == places.len()
    &&& forall|k: int|
        0 <= k < places.len() ==> (#[trigger] payloads[k]).reports(
            after[places[k]],
            before[places[k]].action(snapshots, now)->Some_0,
            before[places[k]].rate(snapshots),
            reported_rules(before[places[k]], snapshots, now, rules),
        )
}

proof fn lemma_acting_places(
    alerts: Seq<AlertInstance>,
    snapshots: Seq<RateSnapshot>,
    now: Instant,
    n: int,
)
    ensures
        forall|k: int|
            0 <= k < acting(alerts, snapshots, now, n).len() ==> 0 <= #[trigger] acting(
                alerts,
                snapshots,
                now,
                n,
            )[k] < n,
    decreases n,
{
    if n > 0 {
        lemma_acting_places(alerts, snapshots, now, n - 1);
        let earlier = acting(alerts, snapshots, now, n - 1);
        assert forall|k: int|
            0 <= k < acting(alerts, snapshots, now, n).len() implies 0 <= #[trigger] acting(
            alerts,
            snapshots,
            now,
            n,
        )[k] < n by {
            if k < earlier.len() {
                assert(acting(alerts, snapshots, now, n)[k] == earlier[k]);
            }
        }
    }
}

/// Reports stay right while a later alert changes.
proof fn lemma_reported_stay(
    payloads: Seq<AlertPayload>,
    before: Seq<AlertInstance>,
    after: Seq<AlertInstance>,
    changed: Seq<AlertInstance>,
    snapshots: Seq<RateSnapshot>,
    now: Instant,
    rules: Seq<ProcessedRule>,
    n: int,
)
    requires
        are_reported(payloads, before, after, snapshots, now, rules, n),
        forall|m: int| 0 <= m < n ==> #[trigger] changed[m] == after[m],
    ensures
        are_reported(payloads, before, changed, snapshots, now, rules, n),
        before[n].action(snapshots, now) is None ==> are_reported(
            payloads,
            before,
            changed,
            snapshots,
            now,
            rules,
            n + 1,
        ),
{
    lemma_acting_places(before, snapshots, now, n);
    let places = acting(before, snapshots, now, n);
    assert forall|k: int| 0 <= k < places.len() implies (#[trigger] payloads[k]).reports(
        changed[places[k]],
        before[places[k]].action(snapshots, now)->Some_0,
        before[places[k]].rate(snapshots),
        reported_rules(before[places[k]], snapshots, now, rules),
    ) by {
        assert(changed[places[k]] == after[places[k]]);
    }
}

proof fn lemma_one_more_reported(
    payloads: Seq<AlertPayload>,
    payload: AlertPayload,
    before: Seq<AlertInstance>,
    after: Seq<AlertInstance>,
    snapshots: Seq<RateSnapshot>,
    now: Instant,
    rules: Seq<ProcessedRule>,
    n: int,
)
    requires
        0 <= n < before.len(),
        are_reported(payloads, before, after, snapshots, now, rules, n),
        before[n].action(snapshots, now) is Some,
        payload.reports(
            after[n],
            before[n].action(snapshots, now)->Some_0,
            before[n].rate(snapshots),
            reported_rules(before[n], snapshots, now, rules),
        ),
    ensures
        are_reported(payloads.push(payload), before, after, snapshots, now, rules, n + 1),
{
    let places = acting(before, snapshots, now, n);
    let more = acting(before, snapshots, now, n + 1);
    assert(more == places.push(n));
    assert forall|k: int| 0 <= k < more.len() implies (
    #[trigger] payloads.push(payload)[k]).reports(
        after[more[k]],
        before[more[k]].action(snapshots, now)->Some_0,
        before[more[k]].rate(snapshots),
        reported_rules(before[more[k]], snapshots, now, rules),
    ) by {
        if k < places.len() {
            assert(payloads.push(payload)[k] == payloads[k]);
            assert(more[k] == places[k]);
        }
    }
}

proof fn lemma_taken_same(
    taken: Drained,
    rules: Seq<ProcessedRule>,
    alerts: Seq<AlertInstance>,
    snapshots: Seq<RateSnapshot>,
    now: Instant,
    n: int,
)
    requires
        0 <= n < alerts.len(),
        taken.holds(rules, alerts, snapshots, now, n),
        alerts[n].asks(snapshots, now) ==> taken.has(alerts[n].prefix@, alerts[n].direction),
    ensures
        taken.holds(rules, alerts, snapshots, now, n + 1),
{
    assert forall|k: int| 0 <= k < taken.entries@.len() implies is_asked(
        alerts,
        snapshots,
        now,
        n + 1,
        (#[trigger] taken.entries@[k]).0@,
        taken.entries@[k].1,
    ) by {
        lemma_asked_step(
            alerts,
            snapshots,
            now,
            n,
            taken.entries@[k].0@,
            taken.entries@[k].1,
        );
    }
    assert forall|prefix: Seq<char>, direction: Direction| #[trigger] is_asked(
        alerts,
        snapshots,
        now,
        n + 1,
        prefix,
        direction,
    ) implies taken.has(prefix, direction) by {
        lemma_asked_step(alerts, snapshots, now, n, prefix, direction);
    }
}

proof fn lemma_taken_more(
    taken: Drained,
    more: Drained,
    rules: Seq<ProcessedRule>,
    alerts: Seq<AlertInstance>,
    snapshots: Seq<RateSnapshot>,
    now: Instant,
    n: int,
)
    requires
        0 <= n < alerts.len(),
        taken.holds(rules, alerts, snapshots, now, n),
        alerts[n].asks(snapshots, now),
        more.entries@.len() == taken.entries@.len() + 1,
        forall|k: int|
            0 <= k < taken.entries@.len() ==> #[trigger] more.entries@[k] == taken.entries@[k],
        more.entries@.last().0@ == alerts[n].prefix@,
        more.entries@.last().1 == alerts[n].direction,
        more.entries@.last().2@ == drained(rules, alerts[n].prefix@, alerts[n].direction),
        all_fit(more.entries@.last().2@),
    ensures
        more.holds(rules, alerts, snapshots, now, n + 1),
{
    let last = taken.entries@.len() as int;
    assert(more.entries@[last] == more.entries@.last());
    assert forall|k: int| 0 <= k < more.entries@.len() implies {
        &&& (#[trigger] more.entries@[k]).2@ == drained(
            rules,
            more.entries@[k].0@,
            more.entries@[k].1,
        )
        &&& is_asked(alerts, snapshots, now, n + 1, more.entries@[k].0@, more.entries@[k].1)
        &&& all_fit(more.entries@[k].2@)
    } by {
        if k < last {
            assert(more.entries@[k] == taken.entries@[k]);
        }
        lemma_asked_step(alerts, snapshots, now, n, more.entries@[k].0@, more.entries@[k].1);
    }
    assert forall|prefix: Seq<char>, direction: Direction| #[trigger] is_asked(
        alerts,
        snapshots,
        now,
        n + 1,
        prefix,
        direction,
    ) implies more.has(prefix, direction) by {
        lemma_asked_step(alerts, snapshots, now, n, prefix, direction);
        if is_asked(alerts, snapshots, now, n, prefix, direction) {
            assert(taken.has(prefix, direction));
            let k = choose|k: int|
                0 <= k < taken.entries@.len() && (#[trigger] taken.entries@[k]).0@ == prefix
                    && taken.entries@[k].1 == direction;
            assert(more.entries@[k] == taken.entries@[k]);
        }
    }
}


/// The state of an alert, for the metrics endpoint.
#[derive(Debug)]
pub struct AlertStateSnapshot {
    pub prefix: String,
    pub protocol: ProtocolCategory,
    pub direction: Direction,
    pub metric: MetricType,
    /// 0 is normal, 1 pending, 2 firing and 3 recovering.
    pub state: u8,
}

/// The number of a state.
pub open spec fn state_number(state: AlertState) -> u8 {
    match state {
        AlertState::Normal => 0,
        AlertState::Pending { .. } => 1,
        AlertState::Firing { .. } => 2,
        AlertState::Recovering { .. } => 3,
    }
}

impl AlertStateSnapshot {
    /// Whether this is the state of an alert.
    pub open spec fn is_of(self, alert: AlertInstance) -> bool {
        &&& self.prefix@ == alert.prefix@
        &&& self.protocol == alert.protocol
        &&& self.direction == alert.direction
        &&& self.metric == alert.metric
        &&& self.state == state_number(alert.state)
    }
}

impl AlertManager {
    /// The states of all alerts.
    pub fn state_snapshots(&self) -> (states: Vec<AlertStateSnapshot>)
        ensures
            states@.len() == self.alerts@.len(),
            forall|n: int|
                0 <= n < states@.len() ==> (#[trigger] states@[n]).is_of(self.alerts@[n]),
    {
        let mut states: Vec<AlertStateSnapshot> = Vec::new();
        let mut n: usize = 0;
        while n < self.alerts.len()
            invariant
                n <= self.alerts@.len(),
                states@.len() == n,
                forall|m: int|
                    0 <= m < n ==> (#[trigger] states@[m]).is_of(self.alerts@[m]),
            decreases self.alerts@.len() - n,
        {
            let alert: &AlertInstance = &self.alerts[n];
            let state: u8 = match alert.state {
                AlertState::Normal => 0,
                AlertState::Pending { .. } => 1,
                AlertState::Firing { .. } => 2,
                AlertState::Recovering { .. } => 3,
            };
            states.push(
                AlertStateSnapshot {
                    prefix: alert.prefix.clone(),
                    protocol: alert.protocol,
                    direction: alert.direction,
                    metric: alert.metric,
                    state,
                },
            );
            n = n + 1;
        }
        states
    }
}


/// Whether two states are those of alerts with one key.
pub open spec fn is_same_alert(a: AlertStateSnapshot, b: AlertStateSnapshot) -> bool {
    a.prefix@ == b.prefix@ && a.protocol == b.protocol && a.direction == b.direction && a.metric
        == b.metric
}

/// Whether the alert at a place was not normal and is no longer there. Of alerts with one key the
/// last one counts, as it does on a reload.
pub open spec fn is_removed_active(
    before: Seq<AlertStateSnapshot>,
    after: Seq<AlertStateSnapshot>,
    i: int,
) -> bool {
    &&& 0 <= i < before.len()
    &&& before[i].state != 0
    &&& forall|j: int| i < j < before.len() ==> !is_same_alert(before[i], #[trigger] before[j])
    &&& forall|j: int| 0 <= j < after.len() ==> !is_same_alert(before[i], #[trigger] after[j])
}

/// The places of the alerts that were not normal and are no longer there, the first one first.
/// Nothing more will be reported of them. Of alerts with one key the last one counts.
pub fn removed_active(before: &[AlertStateSnapshot], after: &[AlertStateSnapshot]) -> (removed: Vec<
    usize,
>)
    ensures
        forall|a: int, b: int|
            0 <= a < b < removed@.len() ==> #[trigger] removed@[a] < #[trigger] removed@[b],
        forall|i: usize|
            #[trigger] removed@.contains(i) <==> is_removed_active(before@, after@, i as int),
{
    let mut removed: Vec<usize> = Vec::new();
    let mut n: usize = 0;
    while n < before.len()
        invariant
            n <= before@.len(),
            forall|a: int, b: int|
                0 <= a < b < removed@.len() ==> #[trigger] removed@[a] < #[trigger] removed@[b],
            forall|i: usize|
                #[trigger] removed@.contains(i) <==> i < n && is_removed_active(
                    before@,
                    after@,
                    i as int,
                ),
        decreases before@.len() - n,
    {
        let ghost earlier = removed@;
        if before[n].state != 0 && !has_alert(before, n + 1, &before[n]) && !has_alert(
            after,
            0,
            &before[n],
        ) {
            proof {
                assert forall|a: int| 0 <= a < earlier.len() implies #[trigger] earlier[a] < n by {
                    assert(earlier.contains(earlier[a]));
                }
            }
            removed.push(n);
        }
        proof {
            assert forall|i: usize| #[trigger] removed@.contains(i) <==> i < n + 1
                && is_removed_active(before@, after@, i as int) by {
                assert(earlier.contains(i) <==> i < n && is_removed_active(
                    before@,
                    after@,
                    i as int,
                ));
                if earlier.contains(i) {
                    let k = choose|k: int| 0 <= k < earlier.len() && earlier[k] == i;
                    assert(removed@[k] == i);
                }
                if removed@.len() > earlier.len() {
                    assert(removed@[earlier.len() as int] == n);
                }
            }
        }
        n = n + 1;
    }
    removed
}

/// Whether an alert is among some states, from a place on.
fn has_alert(states: &[AlertStateSnapshot], from: usize, alert: &AlertStateSnapshot) -> (found: bool)
    requires
        from <= states@.len(),
    ensures
        found == exists|j: int|
            from <= j < states@.len() && is_same_alert(*alert, #[trigger] states@[j]),
{
    let mut j: usize = from;
    while j < states.len()
        invariant
            from <= j <= states@.len(),
            forall|k: int| from <= k < j ==> !is_same_alert(*alert, #[trigger] states@[k]),
        decreases states@.len() - j,
    {
        let s: &AlertStateSnapshot = &states[j];
        if alert.prefix == s.prefix && alert.protocol == s.protocol && alert.direction
            == s.direction && alert.metric == s.metric {
            assert(is_same_alert(*alert, states@[j as int]));
            return true;
        }
        j = j + 1;
    }
    false
}

} // verus!
