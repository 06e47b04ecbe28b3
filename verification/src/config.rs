//! What the daemon is configured to watch, and when the configuration is refused.

use crate::double::Double;
use crate::maps::{exporter_entries, exporter_map, find_policy, policy_map};
use crate::net::{address_text, prefix_text, text_of_address, text_of_prefix, IpAddr, Prefix};
use crate::text::{decimal, decimal_text};
use crate::time::Duration;
use fxhash::FxHashMap;
use vstd::prelude::*;
use vstd::string::*;

verus! {

/// Which way traffic goes, seen from a watched prefix.
#[derive(Clone, Copy, Debug, PartialEq, Eq, Hash, Structural)]
pub enum Direction {
    Inbound,
    Outbound,
}

impl Direction {
    /// The name of the direction.
    pub open spec fn text(self) -> Seq<char> {
        match self {
            Direction::Inbound => "inbound"@,
            Direction::Outbound => "outbound"@,
        }
    }

    /// The name of the direction.
    pub fn as_str(&self) -> (name: &'static str)
        ensures
            name@ == self.text(),
    {
        match self {
            Direction::Inbound => "inbound",
            Direction::Outbound => "outbound",
        }
    }
}

/// The kinds of traffic that thresholds are set for.
#[derive(Clone, Copy, Debug, PartialEq, Eq, Hash, Structural)]
pub enum ProtocolCategory {
    Tcp,
    Udp,
    Icmp,
    Gre,
    Esp,
    TcpSyn,
    Dns,
    Https,
    Any,
}

/// One category, where a condition holds.
pub open spec fn category_if(holds: bool, category: ProtocolCategory) -> Seq<ProtocolCategory> {
    if holds {
        seq![category]
    } else {
        Seq::empty()
    }
}

/// Whether a flow is of a category: its IP protocol number decides, and for some categories its
/// TCP flags or its destination port.
pub open spec fn in_category(
    category: ProtocolCategory,
    protocol: u8,
    tcp_flags: u8,
    dst_port: u16,
) -> bool {
    match category {
        ProtocolCategory::Any => true,
        ProtocolCategory::Tcp => protocol == 6,
        ProtocolCategory::TcpSyn => protocol == 6 && tcp_flags & 0x02 != 0,
        ProtocolCategory::Https => protocol == 6 && dst_port == 443,
        ProtocolCategory::Udp => protocol == 17,
        ProtocolCategory::Dns => (protocol == 6 || protocol == 17) && dst_port == 53,
        ProtocolCategory::Icmp => protocol == 1 || protocol == 58,
        ProtocolCategory::Gre => protocol == 47,
        ProtocolCategory::Esp => protocol == 50,
    }
}

/// All categories in the order in which those of a flow are listed.
pub open spec fn categories_in_order() -> Seq<ProtocolCategory> {
    seq![
        ProtocolCategory::Any,
        ProtocolCategory::Tcp,
        ProtocolCategory::TcpSyn,
        ProtocolCategory::Https,
        ProtocolCategory::Udp,
        ProtocolCategory::Dns,
        ProtocolCategory::Icmp,
        ProtocolCategory::Gre,
        ProtocolCategory::Esp,
    ]
}

/// The first `n` of all categories, without those that a flow is not of.
pub open spec fn first_categories(
    protocol: u8,
    tcp_flags: u8,
    dst_port: u16,
    n: nat,
) -> Seq<ProtocolCategory>
    decreases n,
{
    if n == 0 {
        Seq::empty()
    } else {
        let category = categories_in_order()[n - 1];
        first_categories(protocol, tcp_flags, dst_port, (n - 1) as nat) + category_if(
            in_category(category, protocol, tcp_flags, dst_port),
            category,
        )
    }
}

/// The categories of a flow.
pub open spec fn categories(protocol: u8, tcp_flags: u8, dst_port: u16) -> Seq<ProtocolCategory> {
    first_categories(protocol, tcp_flags, dst_port, 9)
}

/// A flow is listed under exactly the categories that it is of, each one once.
pub proof fn categories_are_exact(
    protocol: u8,
    tcp_flags: u8,
    dst_port: u16,
    category: ProtocolCategory,
)
    ensures
        categories(protocol, tcp_flags, dst_port).contains(category) <==> in_category(
            category,
            protocol,
            tcp_flags,
            dst_port,
        ),
        categories(protocol, tcp_flags, dst_port).no_duplicates(),
        categories(protocol, tcp_flags, dst_port)[0] == ProtocolCategory::Any,
{
    lemma_first_categories(protocol, tcp_flags, dst_port, 9);
    reveal_with_fuel(first_categories, 10);
    let order = categories_in_order();
    assert(order[0] == ProtocolCategory::Any);
    assert(order[1] == ProtocolCategory::Tcp);
    assert(order[2] == ProtocolCategory::TcpSyn);
    assert(order[3] == ProtocolCategory::Https);
    assert(order[4] == ProtocolCategory::Udp);
    assert(order[5] == ProtocolCategory::Dns);
    assert(order[6] == ProtocolCategory::Icmp);
    assert(order[7] == ProtocolCategory::Gre);
    assert(order[8] == ProtocolCategory::Esp);
    if in_category(category, protocol, tcp_flags, dst_port) {
        assert(exists|i: int| 0 <= i < 9 && order[i] == category);
        let i = choose|i: int| 0 <= i < 9 && order[i] == category;
        assert(listed(order, protocol, tcp_flags, dst_port, i));
    }
}

spec fn listed(
    order: Seq<ProtocolCategory>,
    protocol: u8,
    tcp_flags: u8,
    dst_port: u16,
    i: int,
) -> bool {
    in_category(order[i], protocol, tcp_flags, dst_port)
}

proof fn lemma_first_categories(protocol: u8, tcp_flags: u8, dst_port: u16, n: nat)
    requires
        n <= 9,
    ensures
        ({
            let order = categories_in_order();
            let first = first_categories(protocol, tcp_flags, dst_port, n);
            &&& first.no_duplicates()
            &&& forall|j: int|
                0 <= j < first.len() ==> exists|i: int|
                    0 <= i < n && order[i] == #[trigger] first[j] && listed(
                        order,
                        protocol,
                        tcp_flags,
                        dst_port,
                        i,
                    )
            &&& forall|i: int|
                0 <= i < n && #[trigger] listed(order, protocol, tcp_flags, dst_port, i)
                    ==> first.contains(order[i])
        }),
    decreases n,
{
    let order = categories_in_order();
    if n > 0 {
        lemma_first_categories(protocol, tcp_flags, dst_port, (n - 1) as nat);
        let shorter = first_categories(protocol, tcp_flags, dst_port, (n - 1) as nat);
        let first = first_categories(protocol, tcp_flags, dst_port, n);
        let last = order[n - 1];
        if listed(order, protocol, tcp_flags, dst_port, n - 1) {
            assert(first == shorter.push(last));
            assert(first[first.len() - 1] == last);
            if shorter.contains(last) {
                let j = choose|j: int| 0 <= j < shorter.len() && shorter[j] == last;
                let i = choose|i: int|
                    0 <= i < n - 1 && order[i] == shorter[j] && listed(
                        order,
                        protocol,
                        tcp_flags,
                        dst_port,
                        i,
                    );
                assert(order[i] == order[n - 1]);
            }
            assert forall|i: int|
                0 <= i < n && #[trigger] listed(
                    order,
                    protocol,
                    tcp_flags,
                    dst_port,
                    i,
                ) implies first.contains(order[i]) by {
                if i < n - 1 {
                    let j = choose|j: int| 0 <= j < shorter.len() && shorter[j] == order[i];
                    assert(first[j] == order[i]);
                }
            }
            assert forall|j: int| 0 <= j < first.len() implies exists|i: int|
                0 <= i < n && order[i] == #[trigger] first[j] && listed(
                    order,
                    protocol,
                    tcp_flags,
                    dst_port,
                    i,
                ) by {
                if j < shorter.len() {
                    assert(first[j] == shorter[j]);
                } else {
                    assert(listed(order, protocol, tcp_flags, dst_port, n - 1));
                }
            }
        } else {
            assert(first == shorter);
        }
    }
}

impl ProtocolCategory {
    /// The name of the category.
    pub open spec fn text(self) -> Seq<char> {
        match self {
            ProtocolCategory::Tcp => "tcp"@,
            ProtocolCategory::Udp => "udp"@,
            ProtocolCategory::Icmp => "icmp"@,
            ProtocolCategory::Gre => "gre"@,
            ProtocolCategory::Esp => "esp"@,
            ProtocolCategory::TcpSyn => "tcp_syn"@,
            ProtocolCategory::Dns => "dns"@,
            ProtocolCategory::Https => "https"@,
            ProtocolCategory::Any => "any"@,
        }
    }

    /// The name of the category.
    pub fn as_str(&self) -> (name: &'static str)
        ensures
            name@ == self.text(),
    {
        match self {
            ProtocolCategory::Tcp => "tcp",
            ProtocolCategory::Udp => "udp",
            ProtocolCategory::Icmp => "icmp",
            ProtocolCategory::Gre => "gre",
            ProtocolCategory::Esp => "esp",
            ProtocolCategory::TcpSyn => "tcp_syn",
            ProtocolCategory::Dns => "dns",
            ProtocolCategory::Https => "https",
            ProtocolCategory::Any => "any",
        }
    }

    /// The categories of a flow, by its IP protocol number, its TCP flags and its destination
    /// port.
    pub fn classify(protocol: u8, tcp_flags: u8, dst_port: u16) -> (found: Vec<ProtocolCategory>)
        ensures
            found@ == categories(protocol, tcp_flags, dst_port),
    {
        let mut found: Vec<ProtocolCategory> = Vec::new();
        found.push(ProtocolCategory::Any);
        match protocol {
            6 => {
                found.push(ProtocolCategory::Tcp);
                if tcp_flags & 0x02 != 0 {
                    found.push(ProtocolCategory::TcpSyn);
                }
                if dst_port == 443 {
                    found.push(ProtocolCategory::Https);
                }
                if dst_port == 53 {
                    found.push(ProtocolCategory::Dns);
                }
            },
            17 => {
                found.push(ProtocolCategory::Udp);
                if dst_port == 53 {
                    found.push(ProtocolCategory::Dns);
                }
            },
            1 | 58 => found.push(ProtocolCategory::Icmp),
            47 => found.push(ProtocolCategory::Gre),
            50 => found.push(ProtocolCategory::Esp),
            _ => {},
        }
        proof {
            reveal_with_fuel(first_categories, 10);
            assert(found@ =~= categories(protocol, tcp_flags, dst_port));
        }
        found
    }
}

/// Whether a category is listed.
pub(crate) fn has_category(found: &Vec<ProtocolCategory>, category: ProtocolCategory) -> (b: bool)
    ensures
        b == found@.contains(category),
{
    let mut i: usize = 0;
    while i < found.len()
        invariant
            i <= found@.len(),
            forall|j: int| 0 <= j < i ==> #[trigger] found@[j] != category,
        decreases found@.len() - i,
    {
        if found[i] == category {
            return true;
        }
        i = i + 1;
    }
    false
}

/// When an alert fires and when it recovers, for one metric.
#[derive(Clone, Copy, Debug, PartialEq, Eq, Structural)]
pub struct ThresholdPair {
    pub trigger: Double,
    pub recover: Option<Double>,
}

impl ThresholdPair {
    /// The rate below which an alert recovers: the trigger, where no other is set.
    pub open spec fn recovery(self) -> Double {
        match self.recover {
            Some(recover) => recover,
            None => self.trigger,
        }
    }

    /// The rate below which an alert recovers: the trigger, where no other is set.
    pub fn recover_value(&self) -> (value: Double)
        ensures
            value == self.recovery(),
    {
        match self.recover {
            Some(recover) => recover,
            None => self.trigger,
        }
    }
}

/// The thresholds of the three metrics, each of which may be missing.
#[derive(Clone, Copy, Debug, PartialEq, Eq, Structural)]
pub struct MetricThresholds {
    pub bps: Option<ThresholdPair>,
    pub pps: Option<ThresholdPair>,
    pub fps: Option<ThresholdPair>,
}

/// The thresholds of one direction.
#[derive(Clone, Copy, Debug, PartialEq, Eq, Structural)]
pub struct DirectionMetrics {
    pub metrics: MetricThresholds,
}

impl MetricThresholds {
    /// Whether no metric has a threshold.
    pub open spec fn is_empty(self) -> bool {
        self.bps is None && self.pps is None && self.fps is None
    }
}

/// What holds for all rules.
pub struct GlobalConfig {
    pub evaluation_interval: Duration,
    pub window: Duration,
    pub alert_script: Option<String>,
    pub capture_buffer_size: usize,
    pub mitigation_update_interval: Duration,
}

/// How many flows are captured per rule where the configuration does not say.
pub fn default_capture_buffer_size() -> (size: usize)
    ensures
        size == 500,
{
    500
}

/// How often a firing alert is analyzed again where the configuration does not say.
pub fn default_mitigation_update_interval() -> (interval: Duration)
    ensures
        interval == (Duration { secs: 30, nanos: 0 }),
{
    Duration::from_secs(30)
}

/// A device that sends flows, and the rate at which it samples them.
#[derive(Clone, Copy, Debug, PartialEq, Eq, Structural)]
pub struct ExporterConfig {
    pub address: IpAddr,
    pub sampling_rate: u32,
}

/// How long a rate must stay above the trigger, and below the recovery threshold.
#[derive(Clone, Copy, Debug, PartialEq, Eq, Structural)]
pub struct AlertPolicyConfig {
    pub trigger_for: Duration,
    pub recover_for: Duration,
}

/// A watched prefix. The thresholds are listed by protocol category and then by direction.
pub struct RuleConfig {
    pub prefix: Prefix,
    pub labels: FxHashMap<String, String>,
    pub alert_policy: Option<String>,
    pub thresholds: Vec<(ProtocolCategory, Vec<(Direction, DirectionMetrics)>)>,
}

/// The configuration of the daemon.
pub struct Config {
    pub global: GlobalConfig,
    pub exporters: FxHashMap<String, ExporterConfig>,
    pub alert_policies: FxHashMap<String, AlertPolicyConfig>,
    pub rules: Vec<RuleConfig>,
}

/// Why a configuration is refused.
#[derive(Debug)]
pub enum ConfigError {
    /// A rule names a policy that is not there.
    UnknownPolicy { rule: usize, prefix: Prefix, policy: String },
    /// A rule has no thresholds.
    NoThresholds { rule: usize, prefix: Prefix },
    /// A rule has thresholds for a protocol and a direction, but none for any metric.
    NoMetrics {
        rule: usize,
        prefix: Prefix,
        protocol: ProtocolCategory,
        direction: Direction,
    },
    /// An exporter has the address of another one.
    DuplicateAddress { exporter: String, address: IpAddr },
}

impl ConfigError {
    /// The message of the error.
    pub open spec fn text(self) -> Seq<char> {
        match self {
            ConfigError::UnknownPolicy { rule, prefix, policy } => "Rule "@ + decimal_text(
                rule as nat,
            ) + " (prefix "@ + text_of_prefix(prefix) + ") references unknown alert_policy '"@
                + policy@ + "'"@,
            ConfigError::NoThresholds { rule, prefix } => "Rule "@ + decimal_text(rule as nat)
                + " (prefix "@ + text_of_prefix(prefix) + ") has no thresholds defined"@,
            ConfigError::NoMetrics { rule, prefix, protocol, direction } => "Rule "@
                + decimal_text(rule as nat) + " (prefix "@ + text_of_prefix(prefix)
                + "): threshold "@ + protocol.text() + "/"@ + direction.text()
                + " has no metrics defined"@,
            ConfigError::DuplicateAddress { exporter, address } => "Exporter '"@ + exporter@
                + "' has duplicate address "@ + text_of_address(address),
        }
    }

    /// The message of the error.
    pub fn message(&self) -> (text: String)
        requires
            self.prefix_valid(),
        ensures
            text@ == self.text(),
    {
        match self {
            ConfigError::UnknownPolicy { rule, prefix, policy } => {
                let mut text: String = rule_text(*rule, prefix);
                text.append(") references unknown alert_policy '");
                text.append(policy.as_str());
                text.append("'");
                text
            },
            ConfigError::NoThresholds { rule, prefix } => {
                let mut text: String = rule_text(*rule, prefix);
                text.append(") has no thresholds defined");
                text
            },
            ConfigError::NoMetrics { rule, prefix, protocol, direction } => {
                let mut text: String = rule_text(*rule, prefix);
                text.append("): threshold ");
                text.append(protocol.as_str());
                text.append("/");
                text.append(direction.as_str());
                text.append(" has no metrics defined");
                text
            },
            ConfigError::DuplicateAddress { exporter, address } => {
                let mut text: String = "Exporter '".to_owned();
                text.append(exporter.as_str());
                text.append("' has duplicate address ");
                text.append(address_text(address).as_str());
                text
            },
        }
    }

    /// Whether the prefix of the rule, if the error names one, is valid.
    pub open spec fn prefix_valid(self) -> bool {
        match self {
            ConfigError::UnknownPolicy { prefix, .. } => prefix.valid(),
            ConfigError::NoThresholds { prefix, .. } => prefix.valid(),
            ConfigError::NoMetrics { prefix, .. } => prefix.valid(),
            ConfigError::DuplicateAddress { .. } => true,
        }
    }
}

/// How a message about a rule begins.
fn rule_text(rule: usize, prefix: &Prefix) -> (text: String)
    requires
        prefix.valid(),
    ensures
        text@ == "Rule "@ + decimal_text(rule as nat) + " (prefix "@ + text_of_prefix(*prefix),
{
    let mut text: String = "Rule ".to_owned();
    text.append(decimal(rule as u64).as_str());
    text.append(" (prefix ");
    text.append(prefix_text(prefix).as_str());
    text
}


impl RuleConfig {
    /// Whether the prefix is valid, and no category, and no direction of a category, is listed
    /// twice.
    pub open spec fn valid(self) -> bool {
        &&& self.prefix.valid()
        &&& forall|i: int, j: int|
            0 <= i < j < self.thresholds@.len() ==> (#[trigger] self.thresholds@[i]).0 != (
            #[trigger] self.thresholds@[j]).0
        &&& forall|i: int, j: int, k: int|
            0 <= i < self.thresholds@.len() && 0 <= j < k < self.thresholds@[i].1@.len() ==> (
            #[trigger] self.thresholds@[i].1@[j]).0 != (#[trigger] self.thresholds@[i].1@[k]).0
    }

    /// Whether the prefix is valid, and no category, and no direction of a category, is listed
    /// twice.
    fn is_valid(&self) -> (b: bool)
        ensures
            b == self.valid(),
    {
        let widest: u8 = match self.prefix.addr {
            IpAddr::V4(_) => 32,
            IpAddr::V6(_) => 128,
        };
        if self.prefix.len > widest {
            return false;
        }
        let mut i: usize = 0;
        while i < self.thresholds.len()
            invariant
                i <= self.thresholds@.len(),
                self.prefix.valid(),
                forall|k: int, l: int|
                    0 <= k < l < i ==> (#[trigger] self.thresholds@[k]).0 != (
                    #[trigger] self.thresholds@[l]).0,
                forall|n: int, k: int, l: int|
                    0 <= n < i && 0 <= k < l < self.thresholds@[n].1@.len() ==> (
                    #[trigger] self.thresholds@[n].1@[k]).0 != (
                    #[trigger] self.thresholds@[n].1@[l]).0,
            decreases self.thresholds@.len() - i,
        {
            let mut j: usize = 0;
            while j < i
                invariant
                    j <= i < self.thresholds@.len(),
                    forall|k: int|
                        0 <= k < j ==> (#[trigger] self.thresholds@[k]).0
                            != self.thresholds@[i as int].0,
                decreases i - j,
            {
                if self.thresholds[j].0 == self.thresholds[i].0 {
                    return false;
                }
                j = j + 1;
            }
            let directions: &Vec<(Direction, DirectionMetrics)> = &self.thresholds[i].1;
            let mut l: usize = 0;
            while l < directions.len()
                invariant
                    l <= directions@.len(),
                    i < self.thresholds@.len(),
                    *directions == self.thresholds@[i as int].1,
                    forall|a: int, b: int|
                        0 <= a < b < l ==> (#[trigger] directions@[a]).0 != (
                        #[trigger] directions@[b]).0,
                decreases directions@.len() - l,
            {
                let mut k: usize = 0;
                while k < l
                    invariant
                        k <= l < directions@.len(),
                        i < self.thresholds@.len(),
                        *directions == self.thresholds@[i as int].1,
                        forall|a: int|
                            0 <= a < k ==> (#[trigger] directions@[a]).0
                                != directions@[l as int].0,
                    decreases l - k,
                {
                    if directions[k].0 == directions[l].0 {
                        assert(self.thresholds@[i as int].1@[k as int].0
                            == self.thresholds@[i as int].1@[l as int].0);
                        return false;
                    }
                    k = k + 1;
                }
                l = l + 1;
            }
            i = i + 1;
        }
        true
    }

    /// Whether the thresholds at a place of the list name at least one metric.
    pub open spec fn has_metrics(self, i: int, j: int) -> bool {
        !self.thresholds@[i].1@[j].1.metrics.is_empty()
    }
}

impl Config {
    /// Whether each rule is valid.
    pub open spec fn valid(self) -> bool {
        forall|i: int| 0 <= i < self.rules@.len() ==> (#[trigger] self.rules@[i]).valid()
    }

    /// Whether each rule is valid.
    pub fn is_valid(&self) -> (b: bool)
        ensures
            b == self.valid(),
    {
        let mut i: usize = 0;
        while i < self.rules.len()
            invariant
                i <= self.rules@.len(),
                forall|k: int| 0 <= k < i ==> (#[trigger] self.rules@[k]).valid(),
            decreases self.rules@.len() - i,
        {
            if !self.rules[i].is_valid() {
                return false;
            }
            i = i + 1;
        }
        true
    }

    /// Whether the policy that a rule names, if it names one, is there.
    pub open spec fn knows_policy(self, rule: RuleConfig) -> bool {
        rule.alert_policy matches Some(name) ==> policy_map(self.alert_policies).contains_key(name@)
    }

    /// Whether nothing is wrong with a rule.
    pub open spec fn rule_ok(self, rule: RuleConfig) -> bool {
        &&& self.knows_policy(rule)
        &&& rule.thresholds@.len() > 0
        &&& forall|i: int, j: int|
            0 <= i < rule.thresholds@.len() && 0 <= j < rule.thresholds@[i].1@.len()
                ==> #[trigger] rule.has_metrics(i, j)
    }

    /// Whether nothing is wrong with the first `n` rules.
    pub open spec fn rules_ok(self, n: int) -> bool {
        forall|i: int| 0 <= i < n ==> self.rule_ok(#[trigger] self.rules@[i])
    }

    /// Whether no two exporters share an address.
    pub open spec fn addresses_unique(self) -> bool {
        let exporters = exporter_map(self.exporters);
        forall|a: Seq<char>, b: Seq<char>|
            exporters.contains_key(a) && exporters.contains_key(b) && a != b ==> (
            #[trigger] exporters[a]).address != (#[trigger] exporters[b]).address
    }

    /// Whether an exporter has an address and a rate.
    pub open spec fn has_exporter(self, address: IpAddr, sampling_rate: u32) -> bool {
        exists|name: Seq<char>|
            exporter_map(self.exporters).contains_key(name) && (#[trigger] exporter_map(
                self.exporters,
            )[name]) == (ExporterConfig { address, sampling_rate })
    }

    /// Whether `error` names the first thing that is wrong: the rules come first, in their order,
    /// and of each rule first its policy, then its thresholds in their order. Which of two
    /// exporters with one address is named is left open.
    pub open spec fn is_first_fault(self, error: ConfigError) -> bool {
        match error {
            ConfigError::UnknownPolicy { rule, prefix, policy } => {
                &&& rule < self.rules@.len()
                &&& self.rules_ok(rule as int)
                &&& prefix == self.rules@[rule as int].prefix
                &&& self.rules@[rule as int].alert_policy matches Some(name)
                &&& name@ == policy@
                &&& !policy_map(self.alert_policies).contains_key(policy@)
            },
            ConfigError::NoThresholds { rule, prefix } => {
                &&& rule < self.rules@.len()
                &&& self.rules_ok(rule as int)
                &&& prefix == self.rules@[rule as int].prefix
                &&& self.knows_policy(self.rules@[rule as int])
                &&& self.rules@[rule as int].thresholds@.len() == 0
            },
            ConfigError::NoMetrics { rule, prefix, protocol, direction } => {
                &&& rule < self.rules@.len()
                &&& self.rules_ok(rule as int)
                &&& prefix == self.rules@[rule as int].prefix
                &&& self.knows_policy(self.rules@[rule as int])
                &&& exists|i: int, j: int|
                    first_without_metrics(
                        self.rules@[rule as int],
                        i,
                        j,
                    ) && self.rules@[rule as int].thresholds@[i].0 == protocol
                        && self.rules@[rule as int].thresholds@[i].1@[j].0 == direction
            },
            ConfigError::DuplicateAddress { exporter, address } => {
                let exporters = exporter_map(self.exporters);
                &&& self.rules_ok(self.rules@.len() as int)
                &&& exporters.contains_key(exporter@)
                &&& exporters[exporter@].address == address
                &&& exists|other: Seq<char>|
                    other != exporter@ && exporters.contains_key(other) && (
                    #[trigger] exporters[other]).address == address
            },
        }
    }

    /// Checks the configuration.
    pub fn validate(&self) -> (result: Result<(), ConfigError>)
        ensures
            match result {
                Ok(_) => self.rules_ok(self.rules@.len() as int) && self.addresses_unique(),
                Err(error) => self.is_first_fault(error),
            },
    {
        let mut idx: usize = 0;
        while idx < self.rules.len()
            invariant
                idx <= self.rules@.len(),
                self.rules_ok(idx as int),
            decreases self.rules@.len() - idx,
        {
            let rule: &RuleConfig = &self.rules[idx];
            if let Some(name) = &rule.alert_policy {
                if find_policy(&self.alert_policies, name.as_str()).is_none() {
                    return Err(
                        ConfigError::UnknownPolicy {
                            rule: idx,
                            prefix: rule.prefix,
                            policy: name.clone(),
                        },
                    );
                }
            }
            if rule.thresholds.len() == 0 {
                return Err(ConfigError::NoThresholds { rule: idx, prefix: rule.prefix });
            }
            if let Some((i, j)) = missing_metrics(rule) {
                return Err(
                    ConfigError::NoMetrics {
                        rule: idx,
                        prefix: rule.prefix,
                        protocol: rule.thresholds[i].0,
                        direction: rule.thresholds[i].1[j].0,
                    },
                );
            }
            idx = idx + 1;
        }
        let entries: Vec<(String, ExporterConfig)> = exporter_entries(&self.exporters);
        let ghost names = entries@.map_values(|e: (String, ExporterConfig)| e.0@);
        let ghost exporters = exporter_map(self.exporters);
        assert(forall|i: int| 0 <= i < entries@.len() ==> names[i] == (#[trigger] entries@[i]).0@);
        assert(forall|i: int|
            0 <= i < entries@.len() ==> exporters.contains_key(#[trigger] names[i])) by {
            assert forall|i: int| 0 <= i < entries@.len() implies exporters.contains_key(
                #[trigger] names[i],
            ) by {
                assert(names.contains(names[i]));
                assert(names.to_set().contains(names[i]));
            }
        }
        let mut i: usize = 0;
        while i < entries.len()
            invariant
                i <= entries@.len(),
                self.rules_ok(self.rules@.len() as int),
                exporters == exporter_map(self.exporters),
                names.len() == entries@.len(),
                names.no_duplicates(),
                forall|k: int|
                    0 <= k < entries@.len() ==> (#[trigger] entries@[k]).1 == exporters[names[k]]
                        && entries@[k].0@ == names[k],
                forall|k: int| 0 <= k < entries@.len() ==> exporters.contains_key(#[trigger] names[k]),
                forall|k: int, l: int|
                    0 <= k < l < i ==> (#[trigger] entries@[k]).1.address != (
                    #[trigger] entries@[l]).1.address,
            decreases entries@.len() - i,
        {
            let mut j: usize = 0;
            while j < i
                invariant
                    j <= i < entries@.len(),
                    self.rules_ok(self.rules@.len() as int),
                    exporters == exporter_map(self.exporters),
                    names.len() == entries@.len(),
                    names.no_duplicates(),
                    forall|k: int|
                        0 <= k < entries@.len() ==> (#[trigger] entries@[k]).1
                            == exporters[names[k]] && entries@[k].0@ == names[k],
                    forall|k: int|
                        0 <= k < entries@.len() ==> exporters.contains_key(#[trigger] names[k]),
                    forall|k: int|
                        0 <= k < j ==> (#[trigger] entries@[k]).1.address
                            != entries@[i as int].1.address,
                decreases i - j,
            {
                if entries[j].1.address == entries[i].1.address {
                    assert(names[j as int] != names[i as int]);
                    assert(exporters[names[j as int]].address == entries@[i as int].1.address);
                    return Err(
                        ConfigError::DuplicateAddress {
                            exporter: entries[i].0.clone(),
                            address: entries[i].1.address,
                        },
                    );
                }
                j = j + 1;
            }
            i = i + 1;
        }
        proof {
            assert forall|a: Seq<char>, b: Seq<char>|
                exporters.contains_key(a) && exporters.contains_key(b) && a != b implies (
            #[trigger] exporters[a]).address != (#[trigger] exporters[b]).address by {
                assert(names.to_set().contains(a) && names.to_set().contains(b));
                let k = choose|k: int| 0 <= k < names.len() && names[k] == a;
                let l = choose|l: int| 0 <= l < names.len() && names[l] == b;
                assert(entries@[k].1 == exporters[a]);
                assert(entries@[l].1 == exporters[b]);
            }
        }
        Ok(())
    }

    /// The sampling rates of the exporters by their addresses. Where two exporters share an
    /// address, the rate of one of them stands; in a configuration that passed validation each
    /// exporter keeps its own.
    pub fn exporter_sampling_rates(&self) -> (rates: Vec<(IpAddr, u32)>)
        ensures
            forall|i: int, j: int|
                0 <= i < j < rates@.len() ==> (#[trigger] rates@[i]).0 != (#[trigger] rates@[j]).0,
            forall|i: int|
                0 <= i < rates@.len() ==> self.has_exporter(
                    (#[trigger] rates@[i]).0,
                    rates@[i].1,
                ),
            forall|name: Seq<char>|
                exporter_map(self.exporters).contains_key(name) ==> sampling_rate_at(
                    rates@,
                    (#[trigger] exporter_map(self.exporters)[name]).address,
                ) is Some,
            self.addresses_unique() ==> forall|name: Seq<char>|
                exporter_map(self.exporters).contains_key(name) ==> sampling_rate_at(
                    rates@,
                    (#[trigger] exporter_map(self.exporters)[name]).address,
                ) == Some(exporter_map(self.exporters)[name].sampling_rate),
    {
        let entries: Vec<(String, ExporterConfig)> = exporter_entries(&self.exporters);
        let rates: Vec<(IpAddr, u32)> = sampling_rates(&entries);
        proof {
            let names = entries@.map_values(|e: (String, ExporterConfig)| e.0@);
            let exporters = exporter_map(self.exporters);
            assert forall|i: int| 0 <= i < rates@.len() implies self.has_exporter(
                (#[trigger] rates@[i]).0,
                rates@[i].1,
            ) by {
                lemma_rate_is_listed(rates@, i);
                lemma_last_rate_listed(entries@, rates@[i].0);
                let k = choose|k: int|
                    0 <= k < entries@.len() && (#[trigger] entries@[k]).1.address == rates@[i].0
                        && entries@[k].1.sampling_rate == rates@[i].1;
                assert(names[k] == entries@[k].0@);
                assert(names.to_set().contains(names[k]));
                assert(exporters[names[k]] == entries@[k].1);
            }
            assert forall|name: Seq<char>| exporters.contains_key(name) implies sampling_rate_at(
                rates@,
                (#[trigger] exporters[name]).address,
            ) is Some && (self.addresses_unique() ==> sampling_rate_at(
                rates@,
                exporters[name].address,
            ) == Some(exporters[name].sampling_rate)) by {
                assert(names.to_set().contains(name));
                let k = choose|k: int| 0 <= k < names.len() && names[k] == name;
                assert(entries@[k].1 == exporters[name]);
                lemma_last_rate_found(entries@, k);
                lemma_last_rate_listed(entries@, exporters[name].address);
                let found = last_rate(entries@, exporters[name].address)->Some_0;
                let l = choose|l: int|
                    0 <= l < entries@.len() && (#[trigger] entries@[l]).1.address
                        == exporters[name].address && entries@[l].1.sampling_rate == found;
                assert(entries@[l].1 == exporters[names[l]]);
                assert(names.to_set().contains(names[l]));
                assert(exporters.contains_key(names[l]));
            }
        }
        rates
    }
}

/// The rate that a list gives for an address.
pub open spec fn sampling_rate_at(rates: Seq<(IpAddr, u32)>, address: IpAddr) -> Option<u32>
    decreases rates.len(),
{
    if rates.len() == 0 {
        None
    } else if rates.last().0 == address {
        Some(rates.last().1)
    } else {
        sampling_rate_at(rates.drop_last(), address)
    }
}

/// The rate of the last of the exporters that has an address.
pub open spec fn last_rate(entries: Seq<(String, ExporterConfig)>, address: IpAddr) -> Option<u32>
    decreases entries.len(),
{
    if entries.len() == 0 {
        None
    } else if entries.last().1.address == address {
        Some(entries.last().1.sampling_rate)
    } else {
        last_rate(entries.drop_last(), address)
    }
}

/// The sampling rates of a list of exporters by their addresses: the last exporter of an address
/// decides.
pub fn sampling_rates(entries: &Vec<(String, ExporterConfig)>) -> (rates: Vec<(IpAddr, u32)>)
    ensures
        forall|i: int, j: int|
            0 <= i < j < rates@.len() ==> (#[trigger] rates@[i]).0 != (#[trigger] rates@[j]).0,
        forall|address: IpAddr|
            #[trigger] sampling_rate_at(rates@, address) == last_rate(entries@, address),
{
    let mut rates: Vec<(IpAddr, u32)> = Vec::new();
    let mut n: usize = 0;
    assert(entries@.take(0) =~= Seq::empty());
    while n < entries.len()
        invariant
            n <= entries@.len(),
            forall|i: int, j: int|
                0 <= i < j < rates@.len() ==> (#[trigger] rates@[i]).0 != (#[trigger] rates@[j]).0,
            forall|address: IpAddr|
                #[trigger] sampling_rate_at(rates@, address) == last_rate(
                    entries@.take(n as int),
                    address,
                ),
        decreases entries@.len() - n,
    {
        let address: IpAddr = entries[n].1.address;
        let rate: u32 = entries[n].1.sampling_rate;
        assert(entries@.take(n + 1).drop_last() =~= entries@.take(n as int));
        let mut k: usize = 0;
        while k < rates.len() && rates[k].0 != address
            invariant
                k <= rates@.len(),
                forall|i: int| 0 <= i < k ==> (#[trigger] rates@[i]).0 != address,
            decreases rates@.len() - k,
        {
            k = k + 1;
        }
        let ghost before = rates@;
        if k < rates.len() {
            rates.set(k, (address, rate));
        } else {
            rates.push((address, rate));
        }
        proof {
            assert forall|other: IpAddr| #[trigger] sampling_rate_at(rates@, other) == last_rate(
                entries@.take(n + 1),
                other,
            ) by {
                if k < before.len() {
                    lemma_rate_updated(before, k as int, rate, other);
                } else {
                    assert(rates@.drop_last() =~= before);
                }
            }
        }
        n = n + 1;
    }
    assert(entries@.take(n as int) =~= entries@);
    rates
}

/// The sampling rate of an exporter, where its address is listed.
pub fn sampling_rate_for(rates: &Vec<(IpAddr, u32)>, address: IpAddr) -> (rate: Option<u32>)
    ensures
        rate == sampling_rate_at(rates@, address),
{
    let mut n: usize = rates.len();
    assert(rates@.take(n as int) =~= rates@);
    while n > 0
        invariant
            n <= rates@.len(),
            sampling_rate_at(rates@, address) == sampling_rate_at(rates@.take(n as int), address),
        decreases n,
    {
        assert(rates@.take(n as int).drop_last() =~= rates@.take(n - 1));
        if rates[n - 1].0 == address {
            return Some(rates[n - 1].1);
        }
        n = n - 1;
    }
    None
}

proof fn lemma_rate_updated(rates: Seq<(IpAddr, u32)>, k: int, rate: u32, other: IpAddr)
    requires
        0 <= k < rates.len(),
        forall|i: int, j: int|
            0 <= i < j < rates.len() ==> (#[trigger] rates[i]).0 != (#[trigger] rates[j]).0,
    ensures
        sampling_rate_at(rates.update(k, (rates[k].0, rate)), other) == if other == rates[k].0 {
            Some(rate)
        } else {
            sampling_rate_at(rates, other)
        },
    decreases rates.len(),
{
    let updated = rates.update(k, (rates[k].0, rate));
    if k == rates.len() - 1 {
        assert(updated.drop_last() =~= rates.drop_last());
    } else {
        assert(updated.drop_last() =~= rates.drop_last().update(k, (rates[k].0, rate)));
        lemma_rate_updated(rates.drop_last(), k, rate, other);
    }
}

proof fn lemma_rate_is_listed(rates: Seq<(IpAddr, u32)>, i: int)
    requires
        0 <= i < rates.len(),
        forall|i: int, j: int|
            0 <= i < j < rates.len() ==> (#[trigger] rates[i]).0 != (#[trigger] rates[j]).0,
    ensures
        sampling_rate_at(rates, rates[i].0) == Some(rates[i].1),
    decreases rates.len(),
{
    if i < rates.len() - 1 {
        lemma_rate_is_listed(rates.drop_last(), i);
    }
}

proof fn lemma_last_rate_listed(entries: Seq<(String, ExporterConfig)>, address: IpAddr)
    ensures
        last_rate(entries, address) matches Some(rate) ==> exists|k: int|
            0 <= k < entries.len() && (#[trigger] entries[k]).1.address == address
                && entries[k].1.sampling_rate == rate,
    decreases entries.len(),
{
    if entries.len() > 0 {
        if entries.last().1.address == address {
            assert(entries[entries.len() - 1].1.address == address);
        } else {
            lemma_last_rate_listed(entries.drop_last(), address);
            if last_rate(entries.drop_last(), address) is Some {
                let rate = last_rate(entries, address)->Some_0;
                let k = choose|k: int|
                    0 <= k < entries.len() - 1 && (#[trigger] entries.drop_last()[k]).1.address
                        == address && entries.drop_last()[k].1.sampling_rate == rate;
                assert(entries[k].1.address == address);
            }
        }
    }
}

proof fn lemma_last_rate_found(entries: Seq<(String, ExporterConfig)>, k: int)
    requires
        0 <= k < entries.len(),
    ensures
        last_rate(entries, entries[k].1.address) is Some,
    decreases entries.len(),
{
    if k < entries.len() - 1 {
        lemma_last_rate_found(entries.drop_last(), k);
    }
}

/// Whether the thresholds at place `i`, `j` are the first of a rule that name no metric.
pub open spec fn first_without_metrics(rule: RuleConfig, i: int, j: int) -> bool {
    &&& 0 <= i < rule.thresholds@.len()
    &&& 0 <= j < rule.thresholds@[i].1@.len()
    &&& !rule.has_metrics(i, j)
    &&& forall|k: int, l: int|
        0 <= k < rule.thresholds@.len() && 0 <= l < rule.thresholds@[k].1@.len() && (k < i || (k
            == i && l < j)) ==> #[trigger] rule.has_metrics(k, l)
}

/// The first thresholds of a rule that name no metric.
fn missing_metrics(rule: &RuleConfig) -> (place: Option<(usize, usize)>)
    ensures
        match place {
            Some((i, j)) => first_without_metrics(*rule, i as int, j as int),
            None => forall|i: int, j: int|
                0 <= i < rule.thresholds@.len() && 0 <= j < rule.thresholds@[i].1@.len()
                    ==> #[trigger] rule.has_metrics(i, j),
        },
{
    let mut i: usize = 0;
    while i < rule.thresholds.len()
        invariant
            i <= rule.thresholds@.len(),
            forall|k: int, l: int|
                0 <= k < i && 0 <= l < rule.thresholds@[k].1@.len() ==> #[trigger] rule.has_metrics(
                    k,
                    l,
                ),
        decreases rule.thresholds@.len() - i,
    {
        let mut j: usize = 0;
        while j < rule.thresholds[i].1.len()
            invariant
                i < rule.thresholds@.len(),
                j <= rule.thresholds@[i as int].1@.len(),
                forall|k: int, l: int|
                    0 <= k < i && 0 <= l < rule.thresholds@[k].1@.len()
                        ==> #[trigger] rule.has_metrics(k, l),
                forall|l: int| 0 <= l < j ==> #[trigger] rule.has_metrics(i as int, l),
            decreases rule.thresholds@[i as int].1@.len() - j,
        {
            let metrics: &MetricThresholds = &rule.thresholds[i].1[j].1.metrics;
            if metrics.bps.is_none() && metrics.pps.is_none() && metrics.fps.is_none() {
                assert(!rule.has_metrics(i as int, j as int));
                return Some((i, j));
            }
            assert(rule.has_metrics(i as int, j as int));
            j = j + 1;
        }
        i = i + 1;
    }
    None
}

} // verus!
