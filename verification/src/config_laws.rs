//! What holds of the configuration, of its check and of the protocol categories.

use crate::config::{
    categories, categories_are_exact, default_capture_buffer_size,
    default_mitigation_update_interval, first_without_metrics, in_category, last_rate,
    sampling_rate_at, sampling_rates, Config, ConfigError, Direction, ExporterConfig,
    ProtocolCategory, RuleConfig, ThresholdPair,
};
use crate::maps::{exporter_map, policy_map};
use crate::net::IpAddr;
use crate::time::Duration;
use vstd::prelude::*;

verus! {

/// A flow is listed under a category by its IP protocol number alone, but for three: handshakes
/// also have the SYN flag, secure web traffic goes to port 443, and name lookups go to port 53
/// over TCP or UDP.
pub proof fn traffic_is_classified(protocol: u8, tcp_flags: u8, dst_port: u16)
    ensures
        ({
            let found = categories(protocol, tcp_flags, dst_port);
            &&& found.contains(ProtocolCategory::Any)
            &&& found.contains(ProtocolCategory::Tcp) <==> protocol == 6
            &&& found.contains(ProtocolCategory::TcpSyn) <==> protocol == 6 && tcp_flags & 0x02
                != 0
            &&& found.contains(ProtocolCategory::Https) <==> protocol == 6 && dst_port == 443
            &&& found.contains(ProtocolCategory::Udp) <==> protocol == 17
            &&& found.contains(ProtocolCategory::Dns) <==> (protocol == 6 || protocol == 17)
                && dst_port == 53
            &&& found.contains(ProtocolCategory::Icmp) <==> protocol == 1 || protocol == 58
            &&& found.contains(ProtocolCategory::Gre) <==> protocol == 47
            &&& found.contains(ProtocolCategory::Esp) <==> protocol == 50
            &&& found.no_duplicates()
        }),
{
    assert forall|c: ProtocolCategory| true implies #[trigger] categories(
        protocol,
        tcp_flags,
        dst_port,
    ).contains(c) == in_category(c, protocol, tcp_flags, dst_port) by {
        categories_are_exact(protocol, tcp_flags, dst_port, c);
    }
    categories_are_exact(protocol, tcp_flags, dst_port, ProtocolCategory::Any);
}

/// Categories and directions are written as the configuration writes them.
pub proof fn names_are_those_of_the_configuration()
    ensures
        ProtocolCategory::Any.text() == "any"@,
        ProtocolCategory::Tcp.text() == "tcp"@,
        ProtocolCategory::Udp.text() == "udp"@,
        ProtocolCategory::Icmp.text() == "icmp"@,
        ProtocolCategory::Gre.text() == "gre"@,
        ProtocolCategory::Esp.text() == "esp"@,
        ProtocolCategory::TcpSyn.text() == "tcp_syn"@,
        ProtocolCategory::Dns.text() == "dns"@,
        ProtocolCategory::Https.text() == "https"@,
        Direction::Inbound.text() == "inbound"@,
        Direction::Outbound.text() == "outbound"@,
{
}

/// Where no recovery threshold is set, an alert recovers below its trigger.
pub proof fn recovery_defaults_to_the_trigger(pair: ThresholdPair)
    ensures
        pair.recover is None ==> pair.recovery() == pair.trigger,
        pair.recover matches Some(recover) ==> pair.recovery() == recover,
{
}

/// Whether a rule names no policy, or one that the configuration has.
pub open spec fn has_known_policy(config: Config, rule: RuleConfig) -> bool {
    rule.alert_policy matches Some(name) ==> policy_map(config.alert_policies).dom().contains(name@)
}

/// Whether a rule names no unknown policy and has thresholds, each of which sets at least one of
/// the three metrics.
pub open spec fn is_sound_rule(config: Config, rule: RuleConfig) -> bool {
    &&& has_known_policy(config, rule)
    &&& rule.thresholds@.len() > 0
    &&& forall|i: int, j: int|
        0 <= i < rule.thresholds@.len() && 0 <= j < rule.thresholds@[i].1@.len() ==> {
            let metrics = (#[trigger] rule.thresholds@[i].1@[j]).1.metrics;
            metrics.bps is Some || metrics.pps is Some || metrics.fps is Some
        }
}

/// Whether a rule's threshold at place `j` of place `i` is for a category and a direction and sets
/// none of the three metrics, and those before it set one.
pub open spec fn has_no_metrics(
    rule: RuleConfig,
    protocol: ProtocolCategory,
    direction: Direction,
    i: int,
    j: int,
) -> bool {
    &&& 0 <= i < rule.thresholds@.len()
    &&& 0 <= j < rule.thresholds@[i].1@.len()
    &&& rule.thresholds@[i].0 == protocol
    &&& rule.thresholds@[i].1@[j].0 == direction
    &&& rule.thresholds@[i].1@[j].1.metrics.bps is None
    &&& rule.thresholds@[i].1@[j].1.metrics.pps is None
    &&& rule.thresholds@[i].1@[j].1.metrics.fps is None
    &&& forall|k: int, l: int|
        0 <= k <= i && 0 <= l < rule.thresholds@[k].1@.len() && (k < i || l < j) ==> {
            let metrics = (#[trigger] rule.thresholds@[k].1@[l]).1.metrics;
            metrics.bps is Some || metrics.pps is Some || metrics.fps is Some
        }
}

/// Whether all rules are sound and no two exporters have one address.
pub open spec fn is_sound(config: Config) -> bool {
    let exporters = exporter_map(config.exporters);
    &&& forall|r: int|
        0 <= r < config.rules@.len() ==> is_sound_rule(config, #[trigger] config.rules@[r])
    &&& forall|a: Seq<char>, b: Seq<char>|
        exporters.dom().contains(a) && exporters.dom().contains(b) && a != b ==> (
        #[trigger] exporters[a]).address != (#[trigger] exporters[b]).address
}

proof fn lemma_rule_ok(config: Config, rule: RuleConfig)
    ensures
        config.rule_ok(rule) == is_sound_rule(config, rule),
{
    assert forall|i: int, j: int|
        0 <= i < rule.thresholds@.len() && 0 <= j < rule.thresholds@[i].1@.len() implies (
    #[trigger] rule.has_metrics(i, j)) == {
        let metrics = rule.thresholds@[i].1@[j].1.metrics;
        metrics.bps is Some || metrics.pps is Some || metrics.fps is Some
    } by {}
    if is_sound_rule(config, rule) {
        assert forall|i: int, j: int|
            0 <= i < rule.thresholds@.len() && 0 <= j
                < rule.thresholds@[i].1@.len() implies #[trigger] rule.has_metrics(i, j) by {
            let metrics = rule.thresholds@[i].1@[j].1.metrics;
        }
    }
    if config.rule_ok(rule) {
        assert forall|i: int, j: int|
            0 <= i < rule.thresholds@.len() && 0 <= j < rule.thresholds@[i].1@.len() implies {
            let metrics = (#[trigger] rule.thresholds@[i].1@[j]).1.metrics;
            metrics.bps is Some || metrics.pps is Some || metrics.fps is Some
        } by {
            assert(rule.has_metrics(i, j));
        }
    }
}

/// A configuration is accepted exactly where it is sound: the check finds nothing wrong with a
/// sound one, and each error that it gives names a fault that is there, the first one in the order
/// of the rules. Of a rule the policy is looked at before the thresholds, and the exporters come
/// last.
pub proof fn accepted_exactly_where_sound(config: Config, result: Result<(), ConfigError>)
    requires
        call_ensures(Config::validate, (&config,), result),
    ensures
        result is Ok <==> is_sound(config),
        match result {
            Ok(_) => true,
            Err(ConfigError::UnknownPolicy { rule, prefix, policy }) => {
                &&& rule < config.rules@.len()
                &&& prefix == config.rules@[rule as int].prefix
                &&& config.rules@[rule as int].alert_policy matches Some(name)
                &&& name@ == policy@
                &&& !policy_map(config.alert_policies).dom().contains(name@)
                &&& forall|r: int|
                    0 <= r < rule ==> is_sound_rule(config, #[trigger] config.rules@[r])
            },
            Err(ConfigError::NoThresholds { rule, prefix }) => {
                &&& rule < config.rules@.len()
                &&& prefix == config.rules@[rule as int].prefix
                &&& has_known_policy(config, config.rules@[rule as int])
                &&& config.rules@[rule as int].thresholds@.len() == 0
                &&& forall|r: int|
                    0 <= r < rule ==> is_sound_rule(config, #[trigger] config.rules@[r])
            },
            Err(ConfigError::NoMetrics { rule, prefix, protocol, direction }) => {
                &&& rule < config.rules@.len()
                &&& prefix == config.rules@[rule as int].prefix
                &&& has_known_policy(config, config.rules@[rule as int])
                &&& exists|i: int, j: int|
                    has_no_metrics(config.rules@[rule as int], protocol, direction, i, j)
                &&& forall|r: int|
                    0 <= r < rule ==> is_sound_rule(config, #[trigger] config.rules@[r])
            },
            Err(ConfigError::DuplicateAddress { exporter, address }) => {
                let exporters = exporter_map(config.exporters);
                &&& exporters.dom().contains(exporter@)
                &&& exporters[exporter@].address == address
                &&& exists|other: Seq<char>|
                    other != exporter@ && exporters.dom().contains(other) && (
                    #[trigger] exporters[other]).address == address
                &&& forall|r: int|
                    0 <= r < config.rules@.len() ==> is_sound_rule(
                        config,
                        #[trigger] config.rules@[r],
                    )
            },
        },
{
    assert forall|r: int| 0 <= r < config.rules@.len() implies config.rule_ok(
        #[trigger] config.rules@[r],
    ) == is_sound_rule(config, config.rules@[r]) by {
        lemma_rule_ok(config, config.rules@[r]);
    }
    match result {
        Ok(_) => {},
        Err(error) => {
            assert(config.is_first_fault(error));
            match error {
                ConfigError::UnknownPolicy { rule, prefix, policy } => {
                    assert(!is_sound_rule(config, config.rules@[rule as int]));
                },
                ConfigError::NoThresholds { rule, prefix } => {
                    assert(!is_sound_rule(config, config.rules@[rule as int]));
                },
                ConfigError::NoMetrics { rule, prefix, protocol, direction } => {
                    let found = config.rules@[rule as int];
                    let (i, j) = choose|i: int, j: int|
                        first_without_metrics(found, i, j)
                            && found.thresholds@[i].0 == protocol
                            && found.thresholds@[i].1@[j].0 == direction;
                    assert(!found.has_metrics(i, j));
                    assert forall|k: int, l: int|
                        0 <= k <= i && 0 <= l < found.thresholds@[k].1@.len() && (k < i || l
                            < j) implies {
                        let metrics = (#[trigger] found.thresholds@[k].1@[l]).1.metrics;
                        metrics.bps is Some || metrics.pps is Some || metrics.fps is Some
                    } by {
                        assert(found.has_metrics(k, l));
                    }
                    assert(has_no_metrics(found, protocol, direction, i, j));
                    assert(!is_sound_rule(config, found));
                },
                ConfigError::DuplicateAddress { exporter, address } => {},
            }
        },
    }
}

/// A list gives for an address a rate that it holds for it, and none where it holds none. Where no
/// address is listed twice, each entry is found.
pub proof fn listed_rates_are_found(rates: Seq<(IpAddr, u32)>, address: IpAddr)
    ensures
        sampling_rate_at(rates, address) matches Some(rate) ==> rates.contains((address, rate)),
        sampling_rate_at(rates, address) is None ==> forall|i: int|
            0 <= i < rates.len() ==> (#[trigger] rates[i]).0 != address,
        forall|i: int|
            0 <= i < rates.len() && (#[trigger] rates[i]).0 == address && (forall|j: int|
                0 <= j < rates.len() && j != i ==> (#[trigger] rates[j]).0 != address)
                ==> sampling_rate_at(rates, address) == Some(rates[i].1),
    decreases rates.len(),
{
    if rates.len() > 0 {
        let shorter = rates.drop_last();
        listed_rates_are_found(shorter, address);
        assert(rates[rates.len() - 1] == rates.last());
        if rates.last().0 == address {
            assert(rates.contains((address, rates.last().1)));
        } else {
            if let Some(rate) = sampling_rate_at(shorter, address) {
                let k = choose|k: int| 0 <= k < shorter.len() && shorter[k] == (address, rate);
                assert(rates[k] == (address, rate));
            } else {
                assert forall|i: int| 0 <= i < rates.len() implies (
                #[trigger] rates[i]).0 != address by {
                    if i < shorter.len() {
                        assert(shorter[i] == rates[i]);
                    }
                }
            }
        }
        assert forall|i: int|
            0 <= i < rates.len() && (#[trigger] rates[i]).0 == address && (forall|j: int|
                0 <= j < rates.len() && j != i ==> (#[trigger] rates[j]).0
                    != address) implies sampling_rate_at(rates, address) == Some(rates[i].1) by {
            if i < shorter.len() {
                assert(shorter[i] == rates[i]);
                assert forall|j: int| 0 <= j < shorter.len() && j != i implies (
                #[trigger] shorter[j]).0 != address by {
                    assert(rates[j] == shorter[j]);
                }
                assert(rates[rates.len() - 1].0 != address);
            }
        }
    }
}

/// Of exporters with one address the last one gives the rate, and an address that no exporter has
/// gets none.
pub proof fn the_last_exporter_decides(entries: Seq<(String, ExporterConfig)>, k: int)
    requires
        0 <= k < entries.len(),
        forall|j: int|
            k < j < entries.len() ==> (#[trigger] entries[j]).1.address != entries[k].1.address,
    ensures
        last_rate(entries, entries[k].1.address) == Some(entries[k].1.sampling_rate),
        forall|address: IpAddr|
            (forall|j: int| 0 <= j < entries.len() ==> (#[trigger] entries[j]).1.address != address)
                ==> #[trigger] last_rate(entries, address) is None,
    decreases entries.len(),
{
    assert forall|address: IpAddr|
        (forall|j: int|
            0 <= j < entries.len() ==> (#[trigger] entries[j]).1.address
                != address) implies #[trigger] last_rate(entries, address) is None by {
        lemma_no_exporter_no_rate(entries, address);
    }
    if k < entries.len() - 1 {
        let shorter = entries.drop_last();
        assert forall|j: int| k < j < shorter.len() implies (#[trigger] shorter[j]).1.address
            != shorter[k].1.address by {
            assert(entries[j].1.address != entries[k].1.address);
        }
        assert(entries[entries.len() - 1].1.address != entries[k].1.address);
        the_last_exporter_decides(shorter, k);
    }
}

proof fn lemma_no_exporter_no_rate(entries: Seq<(String, ExporterConfig)>, address: IpAddr)
    requires
        forall|j: int| 0 <= j < entries.len() ==> (#[trigger] entries[j]).1.address != address,
    ensures
        last_rate(entries, address) is None,
    decreases entries.len(),
{
    if entries.len() > 0 {
        assert(entries[entries.len() - 1].1.address != address);
        let shorter = entries.drop_last();
        assert forall|j: int| 0 <= j < shorter.len() implies (#[trigger] shorter[j]).1.address
            != address by {
            assert(entries[j].1.address != address);
        }
        lemma_no_exporter_no_rate(shorter, address);
    }
}

/// The list of rates has each address once. It gives for the address of an exporter the rate of an
/// exporter that has the address, and that of the exporter itself where no other has it. It gives
/// nothing else.
pub proof fn rates_are_those_of_the_exporters(
    config: Config,
    rates: Vec<(IpAddr, u32)>,
    name: Seq<char>,
    i: int,
)
    requires
        call_ensures(Config::exporter_sampling_rates, (&config,), rates),
    ensures
        forall|k: int, l: int|
            0 <= k < l < rates@.len() ==> (#[trigger] rates@[k]).0 != (#[trigger] rates@[l]).0,
        0 <= i < rates@.len() ==> exists|other: Seq<char>|
            exporter_map(config.exporters).dom().contains(other) && (#[trigger] exporter_map(
                config.exporters,
            )[other]).address == rates@[i].0 && exporter_map(
                config.exporters,
            )[other].sampling_rate == rates@[i].1,
        exporter_map(config.exporters).dom().contains(name) ==> exists|k: int|
            0 <= k < rates@.len() && (#[trigger] rates@[k]).0 == exporter_map(
                config.exporters,
            )[name].address,
        is_sound(config) && exporter_map(config.exporters).dom().contains(name) ==> rates@.contains(
            (
                exporter_map(config.exporters)[name].address,
                exporter_map(config.exporters)[name].sampling_rate,
            ),
        ),
{
    let exporters = exporter_map(config.exporters);
    if 0 <= i < rates@.len() {
        assert(config.has_exporter(rates@[i].0, rates@[i].1));
        let other = choose|other: Seq<char>|
            exporters.contains_key(other) && (#[trigger] exporters[other]) == (ExporterConfig {
                address: rates@[i].0,
                sampling_rate: rates@[i].1,
            });
        assert(exporters[other].address == rates@[i].0);
    }
    if exporters.dom().contains(name) {
        let address = exporters[name].address;
        assert(exporters.contains_key(name));
        assert(sampling_rate_at(rates@, address) is Some);
        listed_rates_are_found(rates@, address);
        let rate = sampling_rate_at(rates@, address)->Some_0;
        let k = choose|k: int| 0 <= k < rates@.len() && rates@[k] == (address, rate);
        assert(rates@[k].0 == address);
        if is_sound(config) {
            assert(config.addresses_unique());
        }
    }
}

/// A list of exporters gives each address once, with the rate of the last exporter that has it.
pub proof fn the_last_exporter_of_an_address_counts(
    entries: Vec<(String, ExporterConfig)>,
    rates: Vec<(IpAddr, u32)>,
    k: int,
)
    requires
        call_ensures(sampling_rates, (&entries,), rates),
        0 <= k < entries@.len(),
        forall|j: int|
            k < j < entries@.len() ==> (#[trigger] entries@[j]).1.address
                != entries@[k].1.address,
    ensures
        rates@.contains((entries@[k].1.address, entries@[k].1.sampling_rate)),
        forall|i: int, j: int|
            0 <= i < j < rates@.len() ==> (#[trigger] rates@[i]).0 != (#[trigger] rates@[j]).0,
{
    let address = entries@[k].1.address;
    the_last_exporter_decides(entries@, k);
    assert(sampling_rate_at(rates@, address) == last_rate(entries@, address));
    listed_rates_are_found(rates@, address);
}

/// A configuration is well formed exactly where no prefix is longer than its address, and no rule
/// lists a category twice, or a direction of a category.
pub proof fn well_formed_configurations(config: Config, formed: bool)
    requires
        call_ensures(Config::is_valid, (&config,), formed),
    ensures
        formed <==> forall|r: int|
            0 <= r < config.rules@.len() ==> is_well_formed(#[trigger] config.rules@[r]),
{
    assert forall|r: int| 0 <= r < config.rules@.len() implies (
    #[trigger] config.rules@[r]).valid() == is_well_formed(config.rules@[r]) by {
        lemma_well_formed(config.rules@[r]);
    }
}

/// Whether the prefix of a rule is no longer than its address, and no category, and no direction of
/// a category, is listed twice.
pub open spec fn is_well_formed(rule: RuleConfig) -> bool {
    &&& match rule.prefix.addr {
        IpAddr::V4(_) => rule.prefix.len <= 32,
        IpAddr::V6(_) => rule.prefix.len <= 128,
    }
    &&& forall|i: int, j: int|
        0 <= i < rule.thresholds@.len() && 0 <= j < rule.thresholds@.len() && (
        #[trigger] rule.thresholds@[i]).0 == (#[trigger] rule.thresholds@[j]).0 ==> i == j
    &&& forall|i: int, j: int, k: int|
        0 <= i < rule.thresholds@.len() && 0 <= j < rule.thresholds@[i].1@.len() && 0 <= k
            < rule.thresholds@[i].1@.len() && (#[trigger] rule.thresholds@[i].1@[j]).0 == (
        #[trigger] rule.thresholds@[i].1@[k]).0 ==> j == k
}

proof fn lemma_well_formed(rule: RuleConfig)
    ensures
        rule.valid() == is_well_formed(rule),
{
}

/// Where the configuration does not say, 500 flows are captured per rule, and a firing alert is
/// analyzed again after 30 seconds.
pub proof fn defaults(size: usize, interval: Duration)
    requires
        call_ensures(default_capture_buffer_size, (), size),
        call_ensures(default_mitigation_update_interval, (), interval),
    ensures
        size == 500,
        interval.secs == 30,
        interval.nanos == 0,
{
}

/// Each error of a well formed configuration has a message.
pub proof fn each_error_has_a_message(config: Config, error: ConfigError)
    requires
        config.valid(),
        call_ensures(Config::validate, (&config,), Err(error)),
    ensures
        call_requires(ConfigError::message, (&error,)),
{
    match error {
        ConfigError::UnknownPolicy { rule, prefix, policy } => {
            assert(config.rules@[rule as int].valid());
        },
        ConfigError::NoThresholds { rule, prefix } => {
            assert(config.rules@[rule as int].valid());
        },
        ConfigError::NoMetrics { rule, prefix, protocol, direction } => {
            assert(config.rules@[rule as int].valid());
        },
        ConfigError::DuplicateAddress { exporter, address } => {},
    }
}

} // verus!
