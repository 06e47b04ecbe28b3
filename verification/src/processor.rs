//! The watched rules, and how flows are counted and captured for them.

use crate::config::{
    categories_are_exact, has_category, in_category, Config, Direction, DirectionMetrics, ProtocolCategory,
    RuleConfig,
};
use crate::double::Double;
use crate::flow::FlowRecord;
use crate::maps::{clone_labels, label_map};
use crate::net::{parse_network, prefix_text, text_of_prefix, IpAddr, Prefix};
use crate::prefix_table::{
    entries_below, entries_for, entry_mut, insert_entry, matching_entries, new_table, table_map,
};
use crate::ring_buffer::{rates, with_flow, Bucket, RingBuffer};
use fxhash::FxHashMap;
use ip_network_table::IpNetworkTable;
use std::collections::VecDeque;
use vstd::arithmetic::div_mod::*;
use vstd::arithmetic::mul::*;
use vstd::arithmetic::power2::*;
use vstd::prelude::*;
use vstd::string::*;

verus! {

/// What a buffer of a rule counts.
#[derive(Clone, Copy, Debug, PartialEq, Eq, Hash, Structural)]
pub struct BufferKey {
    pub protocol: ProtocolCategory,
    pub direction: Direction,
}

/// A captured flow and the direction in which it goes, seen from the rule's prefix.
#[derive(Clone, Copy, Debug, PartialEq, Eq, Structural)]
pub struct CapturedFlow {
    pub flow: FlowRecord,
    pub direction: Direction,
}

impl CapturedFlow {
    /// Whether the flow goes in the direction, seen from a network, and its counts fit in 64 bits.
    pub open spec fn is_seen_from(self, network: Prefix) -> bool {
        flow_direction(network, self.flow) == Some(self.direction) && self.flow.fits()
    }
}

/// A watched rule: a buffer for each protocol category and direction with thresholds, and the
/// latest flows for analysis.
pub struct ProcessedRule {
    pub prefix: Prefix,
    pub network: Prefix,
    pub labels: FxHashMap<String, String>,
    pub buffers: Vec<(BufferKey, RingBuffer)>,
    pub capture_buffer: VecDeque<CapturedFlow>,
    pub capture_buffer_size: usize,
}

/// The prefix of a rule is refused: a bit is set after the leading ones.
#[derive(Clone, Copy, Debug, PartialEq, Eq, Structural)]
pub struct HostBitsSet {
    pub prefix: Prefix,
}

impl HostBitsSet {
    /// The message of the error.
    pub open spec fn text(self) -> Seq<char> {
        "Invalid prefix "@ + text_of_prefix(self.prefix)
            + ": IP network address has host bits set"@
    }

    /// The message of the error.
    pub fn message(&self) -> (text: String)
        requires
            self.prefix.valid(),
        ensures
            text@ == self.text(),
    {
        let mut text: String = "Invalid prefix ".to_owned();
        text.append(prefix_text(&self.prefix).as_str());
        text.append(": IP network address has host bits set");
        text
    }
}

/// The keys of the thresholds of one category.
pub open spec fn direction_keys(
    protocol: ProtocolCategory,
    directions: Seq<(Direction, DirectionMetrics)>,
) -> Seq<BufferKey> {
    Seq::new(
        directions.len(),
        |j: int| BufferKey { protocol, direction: directions[j].0 },
    )
}

/// The keys of the thresholds of some categories, in their order.
pub open spec fn threshold_keys(
    thresholds: Seq<(ProtocolCategory, Vec<(Direction, DirectionMetrics)>)>,
) -> Seq<BufferKey>
    decreases thresholds.len(),
{
    if thresholds.len() == 0 {
        Seq::empty()
    } else {
        threshold_keys(thresholds.drop_last()) + direction_keys(
            thresholds.last().0,
            thresholds.last().1@,
        )
    }
}

/// The keys of the buffers of a rule.
pub open spec fn buffer_keys(buffers: Seq<(BufferKey, RingBuffer)>) -> Seq<BufferKey> {
    Seq::new(buffers.len(), |i: int| buffers[i].0)
}

impl ProcessedRule {
    /// Whether the prefix is a network, no two buffers have one key, each captured flow is seen
    /// from the network in its direction, and its counts fit in 64 bits. No more flows are captured
    /// than the buffer is for.
    pub open spec fn valid(self) -> bool {
        &&& self.prefix.valid()
        &&& self.prefix.is_network()
        &&& self.network == self.prefix
        &&& buffer_keys(self.buffers@).no_duplicates()
        &&& forall|i: int|
            0 <= i < self.capture_buffer@.len() ==> (#[trigger] self.capture_buffer@[i]).is_seen_from(
                self.network,
            )
        &&& self.capture_buffer@.len() <= self.capture_buffer_size
    }

    /// Whether this is the rule of a configured one before any flow: empty buffers for its
    /// thresholds, and nothing captured.
    pub open spec fn is_fresh(
        self,
        config: RuleConfig,
        window_secs: usize,
        capture_buffer_size: usize,
    ) -> bool {
        &&& self.prefix == config.prefix
        &&& self.network == config.prefix
        &&& label_map(self.labels) == label_map(config.labels)
        &&& buffer_keys(self.buffers@) == threshold_keys(config.thresholds@)
        &&& forall|i: int|
            0 <= i < self.buffers@.len() ==> (#[trigger] self.buffers@[i]).1@ == Seq::new(
                window_secs as nat,
                |i: int| Bucket::empty(0),
            )
        &&& self.capture_buffer@.len() == 0
        &&& self.capture_buffer_size == capture_buffer_size
    }

    /// The rule of a configured one. It is refused where the prefix has a bit set after the
    /// leading ones.
    pub fn from_config(
        config: &RuleConfig,
        window_secs: usize,
        capture_buffer_size: usize,
    ) -> (result: Result<ProcessedRule, HostBitsSet>)
        requires
            config.valid(),
        ensures
            match result {
                Ok(rule) => {
                    &&& config.prefix.is_network()
                    &&& rule.is_fresh(*config, window_secs, capture_buffer_size)
                    &&& rule.valid()
                },
                Err(error) => !config.prefix.is_network() && error.prefix == config.prefix,
            },
    {
        let text: String = prefix_text(&config.prefix);
        let network: Prefix = match parse_network(text.as_str()) {
            Ok(network) => network,
            Err(_) => {
                return Err(HostBitsSet { prefix: config.prefix });
            },
        };
        let mut buffers: Vec<(BufferKey, RingBuffer)> = Vec::new();
        let ghost empty = Seq::new(window_secs as nat, |i: int| Bucket::empty(0));
        let mut i: usize = 0;
        proof {
            assert(config.thresholds@.take(0) =~= Seq::empty());
            assert(buffer_keys(buffers@) =~= Seq::<BufferKey>::empty());
        }
        while i < config.thresholds.len()
            invariant
                i <= config.thresholds@.len(),
                empty == Seq::new(window_secs as nat, |i: int| Bucket::empty(0)),
                buffer_keys(buffers@) == threshold_keys(config.thresholds@.take(i as int)),
                forall|k: int|
                    0 <= k < buffers@.len() ==> (#[trigger] buffers@[k]).1@ == empty,
            decreases config.thresholds@.len() - i,
        {
            let protocol: ProtocolCategory = config.thresholds[i].0;
            let directions: &Vec<(Direction, DirectionMetrics)> = &config.thresholds[i].1;
            let ghost before = buffer_keys(buffers@);
            let mut j: usize = 0;
            assert(before + direction_keys(protocol, directions@).take(0) =~= before);
            while j < directions.len()
                invariant
                    j <= directions@.len(),
                    empty == Seq::new(window_secs as nat, |i: int| Bucket::empty(0)),
                    buffer_keys(buffers@) == before + direction_keys(
                        protocol,
                        directions@,
                    ).take(j as int),
                    forall|k: int|
                        0 <= k < buffers@.len() ==> (#[trigger] buffers@[k]).1@ == empty,
                decreases directions@.len() - j,
            {
                let key: BufferKey = BufferKey { protocol, direction: directions[j].0 };
                let ghost earlier = buffers@;
                buffers.push((key, RingBuffer::new(window_secs)));
                proof {
                    assert(buffer_keys(buffers@) =~= buffer_keys(earlier).push(key));
                    assert(direction_keys(protocol, directions@).take(j + 1) =~= direction_keys(
                        protocol,
                        directions@,
                    ).take(j as int).push(key));
                    assert(buffer_keys(buffers@) =~= before + direction_keys(
                        protocol,
                        directions@,
                    ).take(j + 1));
                }
                j = j + 1;
            }
            proof {
                assert(config.thresholds@.take(i + 1).drop_last() =~= config.thresholds@.take(
                    i as int,
                ));
                assert(direction_keys(protocol, directions@).take(j as int) =~= direction_keys(
                    protocol,
                    directions@,
                ));
            }
            i = i + 1;
        }
        proof {
            assert(config.thresholds@.take(i as int) =~= config.thresholds@);
            lemma_threshold_keys_unique(*config, i as int);
        }
        Ok(
            ProcessedRule {
                prefix: config.prefix,
                network,
                labels: clone_labels(&config.labels),
                buffers,
                capture_buffer: VecDeque::new(),
                capture_buffer_size,
            },
        )
    }
}

/// No key occurs twice among the thresholds of a valid rule.
proof fn lemma_threshold_keys_unique(config: RuleConfig, n: int)
    requires
        config.valid(),
        0 <= n <= config.thresholds@.len(),
    ensures
        threshold_keys(config.thresholds@.take(n)).no_duplicates(),
        forall|k: int|
            0 <= k < threshold_keys(config.thresholds@.take(n)).len() ==> exists|i: int|
                0 <= i < n && (#[trigger] config.thresholds@[i]).0 == (#[trigger] threshold_keys(
                    config.thresholds@.take(n),
                )[k]).protocol,
    decreases n,
{
    if n > 0 {
        lemma_threshold_keys_unique(config, n - 1);
        let all = config.thresholds@;
        assert(all.take(n).drop_last() =~= all.take(n - 1));
        let before = threshold_keys(all.take(n - 1));
        let new = direction_keys(all[n - 1].0, all[n - 1].1@);
        let keys = threshold_keys(all.take(n));
        assert(keys == before + new);
        assert forall|k: int| 0 <= k < keys.len() implies exists|i: int|
            0 <= i < n && (#[trigger] all[i]).0 == (#[trigger] keys[k]).protocol by {
            if k < before.len() {
                assert(keys[k] == before[k]);
                let i = choose|i: int|
                    0 <= i < n - 1 && (#[trigger] all[i]).0 == before[k].protocol;
                assert(all[i].0 == keys[k].protocol);
            } else {
                assert(keys[k] == new[k - before.len()]);
                assert(all[n - 1].0 == keys[k].protocol);
            }
        }
        assert forall|a: int, b: int| 0 <= a < b < keys.len() implies keys[a] != keys[b] by {
            if b < before.len() {
                assert(keys[a] == before[a] && keys[b] == before[b]);
            } else if a < before.len() {
                assert(keys[a] == before[a] && keys[b] == new[b - before.len()]);
                let i = choose|i: int|
                    0 <= i < n - 1 && (#[trigger] all[i]).0 == before[a].protocol;
                assert(all[i].0 != all[n - 1].0);
            } else {
                assert(keys[a] == new[a - before.len()] && keys[b] == new[b - before.len()]);
                assert(all[n - 1].1@[a - before.len()].0 != all[n - 1].1@[b - before.len()].0);
            }
        }
    }
}

/// The rules with a network, by their places, the first one first.
pub open spec fn is_listing(
    indices: Seq<usize>,
    rules: Seq<ProcessedRule>,
    network: Prefix,
) -> bool {
    &&& forall|a: int, b: int|
        0 <= a < b < indices.len() ==> #[trigger] indices[a] < #[trigger] indices[b]
    &&& forall|i: usize|
        #[trigger] indices.contains(i) <==> i < rules.len() && rules[i as int].network == network
}

/// Whether a table lists the rules of each network.
pub open spec fn lists_rules(map: Map<Prefix, Seq<usize>>, rules: Seq<ProcessedRule>) -> bool {
    &&& forall|i: int|
        0 <= i < rules.len() ==> map.contains_key((#[trigger] rules[i]).network)
    &&& forall|network: Prefix|
        #[trigger] map.contains_key(network) ==> is_listing(map[network], rules, network)
            && map[network].len() > 0
}

/// All watched rules. The table lists, for each network, the places of its rules; rates are taken
/// over the given number of seconds.
pub struct FlowProcessor {
    pub rules: Vec<ProcessedRule>,
    pub prefix_table: IpNetworkTable<Vec<usize>>,
    pub window_secs: usize,
}

/// The first of some rules whose prefix has a bit set after the leading ones.
pub open spec fn is_first_refused(rules: Seq<RuleConfig>, i: int) -> bool {
    &&& 0 <= i < rules.len()
    &&& !rules[i].prefix.is_network()
    &&& forall|j: int| 0 <= j < i ==> (#[trigger] rules[j]).prefix.is_network()
}

impl FlowProcessor {
    /// Whether each rule is valid and is found by the addresses of its network.
    pub open spec fn valid(self) -> bool {
        &&& forall|i: int| 0 <= i < self.rules@.len() ==> (#[trigger] self.rules@[i]).valid()
        &&& lists_rules(table_map(self.prefix_table), self.rules@)
    }

    /// A processor without rules.
    pub fn new(window_secs: usize) -> (processor: FlowProcessor)
        ensures
            processor.valid(),
            processor.rules@.len() == 0,
            processor.window_secs == window_secs,
    {
        FlowProcessor { rules: Vec::new(), prefix_table: new_table(), window_secs }
    }

    /// The window that a configuration asks for, or the present one where it asks for none.
    pub open spec fn window_for(self, config: Config) -> usize {
        if config.global.window.secs as usize > 0 {
            config.global.window.secs as usize
        } else {
            self.window_secs
        }
    }

    /// Replaces all rules by those of a configuration, with empty buffers. Where one of them is
    /// refused, nothing changes.
    pub fn reload_config(&mut self, config: &Config) -> (result: Result<(), HostBitsSet>)
        requires
            config.valid(),
        ensures
            match result {
                Ok(_) => {
                    &&& final(self).valid()
                    &&& final(self).window_secs == old(self).window_for(*config)
                    &&& final(self).rules@.len() == config.rules@.len()
                    &&& forall|i: int|
                        0 <= i < config.rules@.len() ==> {
                            &&& (#[trigger] config.rules@[i]).prefix.is_network()
                            &&& final(self).rules@[i].is_fresh(
                                config.rules@[i],
                                old(self).window_for(*config),
                                config.global.capture_buffer_size,
                            )
                        }
                },
                Err(error) => {
                    &&& *final(self) == *old(self)
                    &&& exists|i: int|
                        #[trigger] is_first_refused(config.rules@, i)
                            && config.rules@[i].prefix == error.prefix
                },
            },
    {
        let secs: usize = config.global.window.as_secs() as usize;
        let window: usize = if secs > 0 { secs } else { self.window_secs };
        let capture_buffer_size: usize = config.global.capture_buffer_size;
        let mut rules: Vec<ProcessedRule> = Vec::new();
        let mut table: IpNetworkTable<Vec<usize>> = new_table();
        let mut idx: usize = 0;
        while idx < config.rules.len()
            invariant
                idx <= config.rules@.len(),
                config.valid(),
                rules@.len() == idx,
                forall|i: int|
                    0 <= i < idx ==> {
                        &&& (#[trigger] config.rules@[i]).prefix.is_network()
                        &&& rules@[i].is_fresh(config.rules@[i], window, capture_buffer_size)
                    },
                forall|i: int| 0 <= i < idx ==> (#[trigger] rules@[i]).valid(),
                lists_rules(table_map(table), rules@),
            decreases config.rules@.len() - idx,
        {
            let rule: ProcessedRule = match ProcessedRule::from_config(
                &config.rules[idx],
                window,
                capture_buffer_size,
            ) {
                Ok(rule) => rule,
                Err(error) => {
                    assert(is_first_refused(config.rules@, idx as int));
                    return Err(error);
                },
            };
            let network: Prefix = rule.network;
            let ghost map = table_map(table);
            if let Some(indices) = entry_mut(&mut table, &network) {
                indices.push(idx);
            } else {
                let mut indices: Vec<usize> = Vec::new();
                indices.push(idx);
                insert_entry(&mut table, &network, indices);
            }
            proof {
                lemma_listing_grows(map, rules@, rule, table_map(table));
            }
            rules.push(rule);
            idx = idx + 1;
        }
        self.rules = rules;
        self.prefix_table = table;
        self.window_secs = window;
        Ok(())
    }
}

/// A table still lists all rules after one more was entered under its network.
proof fn lemma_listing_grows(
    map: Map<Prefix, Seq<usize>>,
    rules: Seq<ProcessedRule>,
    rule: ProcessedRule,
    after: Map<Prefix, Seq<usize>>,
)
    requires
        lists_rules(map, rules),
        rules.len() <= usize::MAX,
        after == map.insert(
            rule.network,
            (if map.contains_key(rule.network) {
                map[rule.network]
            } else {
                Seq::empty()
            }).push(rules.len() as usize),
        ),
    ensures
        lists_rules(after, rules.push(rule)),
{
    let more = rules.push(rule);
    let n = rules.len() as usize;
    assert forall|i: int| 0 <= i < more.len() implies after.contains_key(
        (#[trigger] more[i]).network,
    ) by {
        if i < rules.len() {
            assert(more[i] == rules[i]);
        }
    }
    assert forall|network: Prefix| #[trigger] after.contains_key(network) implies is_listing(
        after[network],
        more,
        network,
    ) && after[network].len() > 0 by {
        if network == rule.network {
            let before = if map.contains_key(network) {
                map[network]
            } else {
                Seq::empty()
            };
            assert(after[network] == before.push(n));
            assert forall|i: usize| #[trigger] before.contains(i) <==> i < rules.len()
                && rules[i as int].network == network by {
                if !map.contains_key(network) && i < rules.len() {
                    assert(map.contains_key(rules[i as int].network));
                }
            }
            assert forall|i: usize| #[trigger] after[network].contains(i) <==> i < more.len()
                && more[i as int].network == network by {
                assert(after[network][before.len() as int] == n);
                if before.contains(i) {
                    let k = choose|k: int| 0 <= k < before.len() && before[k] == i;
                    assert(after[network][k] == i);
                }
            }
            assert forall|a: int, b: int|
                0 <= a < b < after[network].len() implies #[trigger] after[network][a]
                < #[trigger] after[network][b] by {
                assert(before.contains(before[a]));
            }
        } else {
            assert forall|i: usize| #[trigger] after[network].contains(i) <==> i < more.len()
                && more[i as int].network == network by {
                assert(map[network].contains(i) <==> i < rules.len() && rules[i as int].network
                    == network);
            }
        }
    }
}


/// A network holds an address exactly where it is the address cut to the network's length.
pub(crate) proof fn lemma_cut(network: Prefix, ip: IpAddr)
    requires
        network.valid(),
        network.is_network(),
    ensures
        network.contains(ip) <==> network.addr.same_family(ip) && ip.cut(network.len as nat)
            == network,
{
    let rest = pow2((network.addr.width() - network.len) as nat);
    lemma_pow2_pos((network.addr.width() - network.len) as nat);
    let (n, m) = (network.addr.number() as int, ip.number() as int);
    let r = rest as int;
    lemma_fundamental_div_mod(n, r);
    lemma_fundamental_div_mod(m, r);
    lemma_mod_bound(m, r);
    lemma_div_pos_is_pos(m, r);
    lemma_mul_is_commutative(r, m / r);
    lemma_mul_is_commutative(r, n / r);
    lemma_mul_nonnegative(m / r, r);
    assert(0 <= m / r * r <= m);
    if network.addr.same_family(ip) {
        assert(ip.width() == network.addr.width());
        if ip.cut(network.len as nat) == network {
            assert(n == m / r * r);
            lemma_div_by_multiple(m / r, r);
        }
    }
}

/// Whether rule `a` comes before rule `b` among those that watch an address: the one with the
/// shorter network, or the earlier one.
pub open spec fn watches_before(rules: Seq<ProcessedRule>, a: usize, b: usize) -> bool {
    rules[a as int].network.len < rules[b as int].network.len || (rules[a as int].network.len
        == rules[b as int].network.len && a < b)
}

proof fn lemma_flat_entries(
    map: Map<Prefix, Seq<usize>>,
    rules: Seq<ProcessedRule>,
    ip: IpAddr,
    end: nat,
)
    requires
        lists_rules(map, rules),
        end <= ip.width() + 1,
        forall|i: int| 0 <= i < rules.len() ==> (#[trigger] rules[i]).valid(),
    ensures
        ({
            let flat = entries_below(map, ip, end).flatten_alt();
            &&& forall|i: usize|
                #[trigger] flat.contains(i) <==> i < rules.len() && rules[i as int].network.contains(
                    ip,
                ) && rules[i as int].network.len < end
            &&& forall|a: int, b: int|
                0 <= a < b < flat.len() ==> watches_before(
                    rules,
                    #[trigger] flat[a],
                    #[trigger] flat[b],
                )
        }),
    decreases end,
{
    let flat = entries_below(map, ip, end).flatten_alt();
    if end > 0 {
        let len = (end - 1) as nat;
        lemma_flat_entries(map, rules, ip, len);
        let shorter = entries_below(map, ip, len);
        let before = shorter.flatten_alt();
        let network = ip.cut(len);
        assert forall|i: usize|
            i < rules.len() && (#[trigger] rules[i as int]).network.contains(ip)
                && rules[i as int].network.len == len implies rules[i as int].network
            == network by {
            lemma_cut(rules[i as int].network, ip);
        }
        if map.contains_key(network) {
            let new = map[network];
            assert(shorter.push(new).drop_last() =~= shorter);
            assert(flat == before + new);
            assert(is_listing(new, rules, network));
            assert(new.contains(new[0]));
            let first = new[0] as int;
            assert(rules[first].network == network);
            assert(rules[first].valid());
            lemma_cut(network, ip);
            assert(network.addr.same_family(ip));
            assert forall|i: usize| #[trigger] flat.contains(i) <==> before.contains(i)
                || new.contains(i) by {
                if before.contains(i) {
                    let k = choose|k: int| 0 <= k < before.len() && before[k] == i;
                    assert(flat[k] == i);
                }
                if new.contains(i) {
                    let k = choose|k: int| 0 <= k < new.len() && new[k] == i;
                    assert(flat[before.len() + k] == i);
                }
                if flat.contains(i) {
                    let k = choose|k: int| 0 <= k < flat.len() && flat[k] == i;
                    if k < before.len() {
                        assert(before[k] == i);
                    } else {
                        assert(new[k - before.len()] == i);
                    }
                }
            }
            assert forall|a: int, b: int| 0 <= a < b < flat.len() implies watches_before(
                rules,
                #[trigger] flat[a],
                #[trigger] flat[b],
            ) by {
                let n = before.len();
                if b < n {
                    assert(flat[a] == before[a] && flat[b] == before[b]);
                } else {
                    assert(flat[b] == new[b - n]);
                    assert(new.contains(new[b - n]));
                    if a < n {
                        assert(flat[a] == before[a]);
                        assert(before.contains(before[a]));
                    } else {
                        assert(flat[a] == new[a - n]);
                        assert(new.contains(new[a - n]));
                    }
                }
            }
        } else {
            assert forall|i: usize| i < rules.len() implies !((
            #[trigger] rules[i as int]).network.contains(ip) && rules[i as int].network.len
                == len) by {
                assert(map.contains_key(rules[i as int].network));
            }
        }
    }
}

impl FlowProcessor {
    /// The places of the rules that watch an address: those with shorter networks first, and of
    /// one network the earlier ones first.
    pub fn matching_rules(&self, ip: IpAddr) -> (indices: Vec<usize>)
        requires
            self.valid(),
        ensures
            forall|i: usize|
                #[trigger] indices@.contains(i) <==> i < self.rules@.len()
                    && self.rules@[i as int].network.contains(ip),
            forall|a: int, b: int|
                0 <= a < b < indices@.len() ==> watches_before(
                    self.rules@,
                    #[trigger] indices@[a],
                    #[trigger] indices@[b],
                ),
    {
        let entries: Vec<Vec<usize>> = matching_entries(&self.prefix_table, &ip);
        let ghost lists = entries_for(table_map(self.prefix_table), ip);
        let mut indices: Vec<usize> = Vec::new();
        let mut k: usize = 0;
        assert(lists.take(0) =~= Seq::empty());
        while k < entries.len()
            invariant
                k <= entries@.len(),
                entries@.map_values(|v: Vec<usize>| v@) == lists,
                indices@ == lists.take(k as int).flatten_alt(),
            decreases entries@.len() - k,
        {
            let list: &Vec<usize> = &entries[k];
            let ghost before = indices@;
            let mut j: usize = 0;
            assert(before + list@.take(0) =~= before);
            while j < list.len()
                invariant
                    j <= list@.len(),
                    indices@ == before + list@.take(j as int),
                decreases list@.len() - j,
            {
                assert(list@.take(j + 1) =~= list@.take(j as int).push(list@[j as int]));
                indices.push(list[j]);
                assert(indices@ =~= before + list@.take(j + 1));
                j = j + 1;
            }
            proof {
                assert(list@.take(j as int) =~= list@);
                assert(lists[k as int] == list@);
                assert(lists.take(k + 1).drop_last() =~= lists.take(k as int));
                assert(lists.take(k + 1).last() == list@);
            }
            k = k + 1;
        }
        proof {
            assert(lists.len() == entries@.len());
            assert(lists.take(k as int) =~= lists);
            lemma_flat_entries(
                table_map(self.prefix_table),
                self.rules@,
                ip,
                ip.width() + 1,
            );
            assert forall|i: usize| #[trigger] indices@.contains(i) <==> i < self.rules@.len()
                && self.rules@[i as int].network.contains(ip) by {
                if i < self.rules@.len() && self.rules@[i as int].network.contains(ip) {
                    assert(self.rules@[i as int].valid());
                }
            }
        }
        indices
    }
}


/// The captured flows after one more: the oldest one leaves where there is no more room. A buffer
/// that is for none captures nothing.
pub open spec fn with_captured(
    captured: Seq<CapturedFlow>,
    size: usize,
    new: CapturedFlow,
) -> Seq<CapturedFlow> {
    if size == 0 {
        Seq::empty()
    } else if captured.len() >= size {
        captured.skip(1).push(new)
    } else {
        captured.push(new)
    }
}

/// Whether a flow in a direction is counted under a key.
pub open spec fn is_counted(key: BufferKey, flow: FlowRecord, direction: Direction) -> bool {
    key.direction == direction && in_category(
        key.protocol,
        flow.protocol,
        flow.tcp_flags,
        flow.dst_port,
    )
}

impl ProcessedRule {
    /// Whether there are thresholds for a direction.
    pub open spec fn has_direction(self, direction: Direction) -> bool {
        exists|i: int|
            0 <= i < self.buffers@.len() && (#[trigger] self.buffers@[i]).0.direction == direction
    }

    /// Whether each buffer that counts a flow has room for it.
    pub open spec fn has_room(self, flow: FlowRecord, direction: Direction) -> bool {
        forall|i: int|
            0 <= i < self.buffers@.len() && is_counted(
                (#[trigger] self.buffers@[i]).0,
                flow,
                direction,
            ) ==> self.buffers@[i].1.has_room(
                flow.time_received,
                flow.byte_count() as u64,
                flow.packet_count() as u64,
            )
    }

    /// Whether `after` is this rule after a flow in a direction: where there are thresholds for
    /// the direction, the flow is captured, and counted in the buffers of its categories.
    pub open spec fn becomes(
        self,
        after: ProcessedRule,
        flow: FlowRecord,
        direction: Direction,
    ) -> bool {
        if self.has_direction(direction) {
            &&& after.prefix == self.prefix
            &&& after.network == self.network
            &&& after.labels == self.labels
            &&& after.capture_buffer_size == self.capture_buffer_size
            &&& after.capture_buffer@ == with_captured(
                self.capture_buffer@,
                self.capture_buffer_size,
                CapturedFlow { flow, direction },
            )
            &&& after.buffers@.len() == self.buffers@.len()
            &&& forall|i: int|
                0 <= i < self.buffers@.len() ==> {
                    &&& (#[trigger] after.buffers@[i]).0 == self.buffers@[i].0
                    &&& after.buffers@[i].1@ == if is_counted(
                        self.buffers@[i].0,
                        flow,
                        direction,
                    ) {
                        with_flow(
                            self.buffers@[i].1@,
                            flow.time_received,
                            flow.byte_count() as u64,
                            flow.packet_count() as u64,
                        )
                    } else {
                        self.buffers@[i].1@
                    }
                }
        } else {
            after == self
        }
    }

    /// Whether there are thresholds for a direction.
    fn watches(&self, direction: Direction) -> (b: bool)
        ensures
            b == self.has_direction(direction),
    {
        let mut i: usize = 0;
        while i < self.buffers.len()
            invariant
                i <= self.buffers@.len(),
                forall|j: int|
                    0 <= j < i ==> (#[trigger] self.buffers@[j]).0.direction != direction,
            decreases self.buffers@.len() - i,
        {
            if self.buffers[i].0.direction == direction {
                return true;
            }
            i = i + 1;
        }
        false
    }

    /// Counts and captures a flow in a direction.
    fn record(&mut self, flow: &FlowRecord, direction: Direction)
        requires
            old(self).valid(),
            old(self).has_room(*flow, direction),
            flow.fits(),
            flow_direction(old(self).network, *flow) == Some(direction),
        ensures
            final(self).valid(),
            old(self).becomes(*final(self), *flow, direction),
    {
        if !self.watches(direction) {
            return;
        }
        let bytes: u64 = flow.sampled_bytes();
        let packets: u64 = flow.sampled_packets();
        let found: Vec<ProtocolCategory> = ProtocolCategory::classify(
            flow.protocol,
            flow.tcp_flags,
            flow.dst_port,
        );
        let ghost before = *self;
        if self.capture_buffer_size > 0 {
            if self.capture_buffer.len() >= self.capture_buffer_size {
                self.capture_buffer.pop_front();
            }
            self.capture_buffer.push_back(CapturedFlow { flow: *flow, direction });
        }
        assert(self.capture_buffer@ =~= with_captured(
            before.capture_buffer@,
            before.capture_buffer_size,
            CapturedFlow { flow: *flow, direction },
        ));
        let mut i: usize = 0;
        while i < self.buffers.len()
            invariant
                i <= self.buffers@.len(),
                before.has_room(*flow, direction),
                bytes == flow.byte_count(),
                packets == flow.packet_count(),
                found@ == crate::config::categories(flow.protocol, flow.tcp_flags, flow.dst_port),
                self.prefix == before.prefix,
                self.network == before.network,
                self.labels == before.labels,
                self.capture_buffer_size == before.capture_buffer_size,
                self.capture_buffer@ == with_captured(
                    before.capture_buffer@,
                    before.capture_buffer_size,
                    CapturedFlow { flow: *flow, direction },
                ),
                self.buffers@.len() == before.buffers@.len(),
                forall|k: int|
                    i <= k < self.buffers@.len() ==> #[trigger] self.buffers@[k]
                        == before.buffers@[k],
                forall|k: int|
                    0 <= k < i ==> {
                        &&& (#[trigger] self.buffers@[k]).0 == before.buffers@[k].0
                        &&& self.buffers@[k].1@ == if is_counted(
                            before.buffers@[k].0,
                            *flow,
                            direction,
                        ) {
                            with_flow(
                                before.buffers@[k].1@,
                                flow.time_received,
                                flow.byte_count() as u64,
                                flow.packet_count() as u64,
                            )
                        } else {
                            before.buffers@[k].1@
                        }
                    },
            decreases self.buffers@.len() - i,
        {
            let key: BufferKey = self.buffers[i].0;
            proof {
                assert(self.buffers@[i as int] == before.buffers@[i as int]);
                categories_are_exact(flow.protocol, flow.tcp_flags, flow.dst_port, key.protocol);
            }
            if key.direction == direction && has_category(&found, key.protocol) {
                let entry: &mut (BufferKey, RingBuffer) = &mut self.buffers[i];
                entry.1.add_instant_flow(flow.time_received, bytes, packets);
            }
            i = i + 1;
        }
        proof {
            assert(buffer_keys(self.buffers@) =~= buffer_keys(before.buffers@));
            assert forall|k: int| 0 <= k < self.capture_buffer@.len() implies (
            #[trigger] self.capture_buffer@[k]).is_seen_from(self.network) by {
                let old_len = before.capture_buffer@.len();
                if k < self.capture_buffer@.len() - 1 {
                    if old_len >= before.capture_buffer_size {
                        assert(self.capture_buffer@[k] == before.capture_buffer@[k + 1]);
                    } else {
                        assert(self.capture_buffer@[k] == before.capture_buffer@[k]);
                    }
                }
            }
        }
    }
}


/// The direction of a flow, seen from a network: a flow that stays in the network or outside it
/// has none.
pub open spec fn flow_direction(network: Prefix, flow: FlowRecord) -> Option<Direction> {
    if network.contains(flow.dst_ip) && !network.contains(flow.src_ip) {
        Some(Direction::Inbound)
    } else if network.contains(flow.src_ip) && !network.contains(flow.dst_ip) {
        Some(Direction::Outbound)
    } else {
        None
    }
}

impl ProcessedRule {
    /// Whether `after` is this rule after a flow.
    pub open spec fn receives(self, flow: FlowRecord, after: ProcessedRule) -> bool {
        match flow_direction(self.network, flow) {
            Some(direction) => self.becomes(after, flow, direction),
            None => after == self,
        }
    }
}

/// Whether an index is listed.
fn has_index(indices: &Vec<usize>, idx: usize) -> (b: bool)
    ensures
        b == indices@.contains(idx),
{
    let mut i: usize = 0;
    while i < indices.len()
        invariant
            i <= indices@.len(),
            forall|j: int| 0 <= j < i ==> #[trigger] indices@[j] != idx,
        decreases indices@.len() - i,
    {
        if indices[i] == idx {
            return true;
        }
        i = i + 1;
    }
    false
}

spec fn is_among(indices: Seq<usize>, k: int, idx: int) -> bool {
    exists|j: int| 0 <= j < k && #[trigger] indices[j] == idx
}

/// Whether each rule that is listed among the first `k`, and not among the others, has recorded a
/// flow, and no other rule has changed.
spec fn recorded(
    before: Seq<ProcessedRule>,
    rules: Seq<ProcessedRule>,
    indices: Seq<usize>,
    others: Seq<usize>,
    k: int,
    flow: FlowRecord,
    direction: Direction,
) -> bool {
    &&& rules.len() == before.len()
    &&& forall|r: int|
        0 <= r < rules.len() ==> (#[trigger] rules[r]).valid() && if is_among(indices, k, r)
            && !others.contains(r as usize) {
            before[r].becomes(rules[r], flow, direction)
        } else {
            rules[r] == before[r]
        }
}

impl FlowProcessor {
    /// Whether the counts of a flow fit in 64 bits, and so does each count that it adds to.
    pub open spec fn has_room(self, flow: FlowRecord) -> bool {
        flow.fits() && forall|r: int|
            0 <= r < self.rules@.len() ==> match flow_direction(
                (#[trigger] self.rules@[r]).network,
                flow,
            ) {
                Some(direction) => self.rules@[r].has_room(flow, direction),
                None => true,
            }
    }

    /// Records a flow in some rules, without those that are listed among the others too.
    fn record_in(
        &mut self,
        flow: &FlowRecord,
        indices: &Vec<usize>,
        others: &Vec<usize>,
        direction: Direction,
    )
        requires
            forall|r: int|
                0 <= r < old(self).rules@.len() ==> (#[trigger] old(self).rules@[r]).valid(),
            flow.fits(),
            forall|i: int|
                0 <= i < indices@.len() ==> (#[trigger] indices@[i]) < old(self).rules@.len(),
            forall|a: int, b: int|
                0 <= a < b < indices@.len() ==> #[trigger] indices@[a] != #[trigger] indices@[b],
            forall|i: int|
                0 <= i < indices@.len() && !others@.contains(#[trigger] indices@[i]) ==> {
                    let rule = old(self).rules@[indices@[i] as int];
                    rule.has_room(*flow, direction) && flow_direction(rule.network, *flow) == Some(
                        direction,
                    )
                },
        ensures
            final(self).prefix_table == old(self).prefix_table,
            final(self).window_secs == old(self).window_secs,
            recorded(
                old(self).rules@,
                final(self).rules@,
                indices@,
                others@,
                indices@.len() as int,
                *flow,
                direction,
            ),
    {
        let ghost before = self.rules@;
        let mut k: usize = 0;
        while k < indices.len()
            invariant
                k <= indices@.len(),
                flow.fits(),
                self.prefix_table == old(self).prefix_table,
                self.window_secs == old(self).window_secs,
                before == old(self).rules@,
                forall|i: int|
                    0 <= i < indices@.len() ==> (#[trigger] indices@[i]) < before.len(),
                forall|a: int, b: int|
                    0 <= a < b < indices@.len() ==> #[trigger] indices@[a]
                        != #[trigger] indices@[b],
                forall|i: int|
                    0 <= i < indices@.len() && !others@.contains(#[trigger] indices@[i]) ==> {
                        let rule = before[indices@[i] as int];
                        rule.has_room(*flow, direction) && flow_direction(rule.network, *flow)
                            == Some(direction)
                    },
                recorded(
                    before,
                    self.rules@,
                    indices@,
                    others@,
                    k as int,
                    *flow,
                    direction,
                ),
            decreases indices@.len() - k,
        {
            let idx: usize = indices[k];
            let ghost rules = self.rules@;
            assert(!is_among(indices@, k as int, idx as int));
            assert(rules[idx as int] == before[idx as int]);
            if !has_index(others, idx) {
                let rule: &mut ProcessedRule = &mut self.rules[idx];
                rule.record(flow, direction);
            }
            proof {
                assert forall|r: int|
                    #[trigger] is_among(indices@, k + 1, r) <==> is_among(indices@, k as int, r)
                        || r == idx by {
                    if is_among(indices@, k as int, r) {
                        let j = choose|j: int| 0 <= j < k && #[trigger] indices@[j] == r;
                        assert(indices@[j] == r);
                    }
                    assert(indices@[k as int] == idx);
                }
                assert forall|r: int| 0 <= r < self.rules@.len() implies (
                #[trigger] self.rules@[r]).valid() && if is_among(indices@, k + 1, r)
                    && !others@.contains(r as usize) {
                    before[r].becomes(self.rules@[r], *flow, direction)
                } else {
                    self.rules@[r] == before[r]
                } by {
                    if r != idx {
                        assert(self.rules@[r] == rules[r]);
                    }
                    assert(rules[r].valid());
                }
            }
            k = k + 1;
        }
    }

    /// Counts and captures a flow in each rule from which it is seen in a direction.
    pub fn process_flow(&mut self, flow: &FlowRecord)
        requires
            old(self).valid(),
            old(self).has_room(*flow),
        ensures
            final(self).valid(),
            final(self).window_secs == old(self).window_secs,
            final(self).rules@.len() == old(self).rules@.len(),
            forall|r: int|
                0 <= r < old(self).rules@.len() ==> (#[trigger] old(self).rules@[r]).receives(
                    *flow,
                    final(self).rules@[r],
                ),
    {
        let src_rules: Vec<usize> = self.matching_rules(flow.src_ip);
        let dst_rules: Vec<usize> = self.matching_rules(flow.dst_ip);
        let ghost before = self.rules@;
        proof {
            assert(before.len() == self.rules.len());
            assert forall|i: int| 0 <= i < dst_rules@.len() implies (#[trigger] dst_rules@[i])
                < before.len() && (!src_rules@.contains(dst_rules@[i]) ==> {
                let rule = before[dst_rules@[i] as int];
                rule.has_room(*flow, Direction::Inbound) && flow_direction(rule.network, *flow)
                    == Some(Direction::Inbound)
            }) by {
                assert(dst_rules@.contains(dst_rules@[i]));
                assert(flow_direction(before[dst_rules@[i] as int].network, *flow) is Some
                    || src_rules@.contains(dst_rules@[i]));
            }
        }
        self.record_in(flow, &dst_rules, &src_rules, Direction::Inbound);
        let ghost middle = self.rules@;
        proof {
            assert forall|r: int| 0 <= r < before.len() implies (
            #[trigger] middle[r]).valid() by {}
            assert forall|i: int| 0 <= i < src_rules@.len() implies (#[trigger] src_rules@[i])
                < middle.len() && (!dst_rules@.contains(src_rules@[i]) ==> {
                let rule = middle[src_rules@[i] as int];
                rule.has_room(*flow, Direction::Outbound) && flow_direction(rule.network, *flow)
                    == Some(Direction::Outbound)
            }) by {
                assert(src_rules@.contains(src_rules@[i]));
                let r = src_rules@[i] as int;
                assert(flow_direction(before[r].network, *flow) is Some || dst_rules@.contains(
                    src_rules@[i],
                ));
                assert(middle[r] == before[r]);
            }
        }
        self.record_in(flow, &src_rules, &dst_rules, Direction::Outbound);
        proof {
            assert forall|r: int| 0 <= r < before.len() implies (#[trigger] before[r]).receives(
                *flow,
                self.rules@[r],
            ) by {
                let idx = r as usize;
                assert(dst_rules@.contains(idx) == before[r].network.contains(flow.dst_ip));
                assert(src_rules@.contains(idx) == before[r].network.contains(flow.src_ip));
                assert(is_among(dst_rules@, dst_rules@.len() as int, r) == dst_rules@.contains(
                    idx,
                )) by {
                    lemma_among(dst_rules@, idx);
                }
                assert(is_among(src_rules@, src_rules@.len() as int, r) == src_rules@.contains(
                    idx,
                )) by {
                    lemma_among(src_rules@, idx);
                }
                assert(middle[r].valid());
                assert(self.rules@[r].valid());
            }
            assert forall|i: int| 0 <= i < self.rules@.len() implies (
            #[trigger] self.rules@[i]).valid() && self.rules@[i].network == before[i].network by {
                assert(before[i].valid());
            }
            lemma_same_networks(table_map(self.prefix_table), before, self.rules@);
        }
    }
}

proof fn lemma_among(indices: Seq<usize>, idx: usize)
    ensures
        is_among(indices, indices.len() as int, idx as int) == indices.contains(idx),
{
    if is_among(indices, indices.len() as int, idx as int) {
        let j = choose|j: int| 0 <= j < indices.len() && #[trigger] indices[j] == idx as int;
        assert(indices[j] == idx);
    }
    if indices.contains(idx) {
        let j = choose|j: int| 0 <= j < indices.len() && indices[j] == idx;
        assert(indices[j] == idx as int);
    }
}

/// A table that lists some rules also lists others with the same networks.
proof fn lemma_same_networks(
    map: Map<Prefix, Seq<usize>>,
    before: Seq<ProcessedRule>,
    after: Seq<ProcessedRule>,
)
    requires
        lists_rules(map, before),
        after.len() == before.len(),
        forall|i: int|
            0 <= i < before.len() ==> (#[trigger] after[i]).network == before[i].network,
    ensures
        lists_rules(map, after),
{
    assert forall|i: int| 0 <= i < after.len() implies map.contains_key(
        (#[trigger] after[i]).network,
    ) by {
        assert(map.contains_key(before[i].network));
    }
    assert forall|network: Prefix| #[trigger] map.contains_key(network) implies is_listing(
        map[network],
        after,
        network,
    ) by {
        assert forall|i: usize| #[trigger] map[network].contains(i) <==> i < after.len()
            && after[i as int].network == network by {
            if i < after.len() {
                assert(after[i as int].network == before[i as int].network);
            }
        }
    }
}


impl ProcessedRule {
    /// Whether each buffer that counts a flow has room for it.
    fn room_for(&self, flow: &FlowRecord, direction: Direction) -> (b: bool)
        requires
            flow.fits(),
        ensures
            b == self.has_room(*flow, direction),
    {
        let bytes: u64 = flow.sampled_bytes();
        let packets: u64 = flow.sampled_packets();
        let found: Vec<ProtocolCategory> = ProtocolCategory::classify(
            flow.protocol,
            flow.tcp_flags,
            flow.dst_port,
        );
        let mut i: usize = 0;
        while i < self.buffers.len()
            invariant
                i <= self.buffers@.len(),
                bytes == flow.byte_count(),
                packets == flow.packet_count(),
                found@ == crate::config::categories(flow.protocol, flow.tcp_flags, flow.dst_port),
                forall|k: int|
                    0 <= k < i && is_counted((#[trigger] self.buffers@[k]).0, *flow, direction)
                        ==> self.buffers@[k].1.has_room(
                        flow.time_received,
                        flow.byte_count() as u64,
                        flow.packet_count() as u64,
                    ),
            decreases self.buffers@.len() - i,
        {
            let key: BufferKey = self.buffers[i].0;
            proof {
                categories_are_exact(flow.protocol, flow.tcp_flags, flow.dst_port, key.protocol);
            }
            if key.direction == direction && has_category(&found, key.protocol) {
                if !self.buffers[i].1.room_for(flow.time_received, bytes, packets) {
                    assert(is_counted(self.buffers@[i as int].0, *flow, direction));
                    return false;
                }
            }
            i = i + 1;
        }
        true
    }

    /// The captured flows of a direction.
    pub open spec fn captured(self, direction: Direction) -> Seq<FlowRecord> {
        self.capture_buffer@.filter(|c: CapturedFlow| c.direction == direction).map_values(
            |c: CapturedFlow| c.flow,
        )
    }

    /// Whether `after` is this rule without the captured flows of a direction.
    pub open spec fn is_drained_to(self, after: ProcessedRule, direction: Direction) -> bool {
        &&& after.prefix == self.prefix
        &&& after.network == self.network
        &&& after.labels == self.labels
        &&& after.buffers == self.buffers
        &&& after.capture_buffer_size == self.capture_buffer_size
        &&& after.capture_buffer@ == self.capture_buffer@.filter(
            |c: CapturedFlow| c.direction != direction,
        )
    }

    /// Takes the captured flows of a direction out of the rule and adds them to a list.
    fn drain_into(&mut self, direction: Direction, flows: &mut Vec<FlowRecord>)
        requires
            old(self).valid(),
            forall|i: int| 0 <= i < old(flows)@.len() ==> (#[trigger] old(flows)@[i]).fits(),
        ensures
            final(self).valid(),
            old(self).is_drained_to(*final(self), direction),
            final(flows)@ == old(flows)@ + old(self).captured(direction),
            forall|i: int| 0 <= i < final(flows)@.len() ==> (#[trigger] final(flows)@[i]).fits(),
    {
        let mut kept: VecDeque<CapturedFlow> = VecDeque::new();
        let ghost all = self.capture_buffer@;
        let ghost before = flows@;
        let ghost in_direction = |c: CapturedFlow| c.direction == direction;
        let ghost not_in_direction = |c: CapturedFlow| c.direction != direction;
        let ghost flow_of = |c: CapturedFlow| c.flow;
        let mut i: usize = 0;
        proof {
            reveal(Seq::filter);
            assert(all.take(0) =~= Seq::empty());
            assert(before + all.take(0).filter(in_direction).map_values(flow_of) =~= before);
        }
        while i < self.capture_buffer.len()
            invariant
                i <= all.len(),
                self.capture_buffer@ == all,
                *self == *old(self),
                self.valid(),
                in_direction == (|c: CapturedFlow| c.direction == direction),
                not_in_direction == (|c: CapturedFlow| c.direction != direction),
                flow_of == (|c: CapturedFlow| c.flow),
                kept@ == all.take(i as int).filter(not_in_direction),
                kept@.len() <= i,
                flows@ == before + all.take(i as int).filter(in_direction).map_values(flow_of),
                forall|k: int|
                    0 <= k < kept@.len() ==> (#[trigger] kept@[k]).is_seen_from(self.network),
                forall|k: int| 0 <= k < flows@.len() ==> (#[trigger] flows@[k]).fits(),
            decreases all.len() - i,
        {
            let captured: CapturedFlow = self.capture_buffer[i];
            proof {
                reveal(Seq::filter);
                assert(captured == all[i as int]);
                assert(all.take(i + 1).drop_last() =~= all.take(i as int));
                assert(all.take(i + 1).last() == captured);
            }
            if captured.direction == direction {
                flows.push(captured.flow);
                proof {
                    let shorter = all.take(i as int).filter(in_direction);
                    assert(all.take(i + 1).filter(in_direction) == shorter.push(captured));
                    assert(shorter.push(captured).map_values(flow_of) =~= shorter.map_values(
                        flow_of,
                    ).push(captured.flow));
                    assert(flows@ =~= before + all.take(i + 1).filter(in_direction).map_values(
                        flow_of,
                    ));
                }
            } else {
                kept.push_back(captured);
            }
            i = i + 1;
        }
        assert(all.take(i as int) =~= all);
        self.capture_buffer = kept;
    }
}

/// The captured flows of a direction of all rules with a prefix, in the order of the rules.
pub open spec fn drained(
    rules: Seq<ProcessedRule>,
    prefix: Seq<char>,
    direction: Direction,
) -> Seq<FlowRecord>
    decreases rules.len(),
{
    if rules.len() == 0 {
        Seq::empty()
    } else {
        drained(rules.drop_last(), prefix, direction) + if text_of_prefix(rules.last().prefix)
            == prefix {
            rules.last().captured(direction)
        } else {
            Seq::empty()
        }
    }
}

/// Whether `after` are some rules without the captured flows of a direction of those with a
/// prefix.
pub open spec fn are_drained_to(
    before: Seq<ProcessedRule>,
    after: Seq<ProcessedRule>,
    prefix: Seq<char>,
    direction: Direction,
) -> bool {
    &&& after.len() == before.len()
    &&& forall|r: int|
        0 <= r < before.len() ==> if text_of_prefix((#[trigger] before[r]).prefix) == prefix {
            before[r].is_drained_to(after[r], direction)
        } else {
            after[r] == before[r]
        }
}

impl FlowProcessor {
    /// Whether the counts of a flow fit in 64 bits, and so does each count that it adds to.
    pub fn room_for(&self, flow: &FlowRecord) -> (b: bool)
        requires
            self.valid(),
        ensures
            b == self.has_room(*flow),
    {
        if !flow.counts_fit() {
            return false;
        }
        let src_rules: Vec<usize> = self.matching_rules(flow.src_ip);
        let dst_rules: Vec<usize> = self.matching_rules(flow.dst_ip);
        let mut r: usize = 0;
        while r < self.rules.len()
            invariant
                r <= self.rules@.len(),
                flow.fits(),
                forall|i: usize|
                    #[trigger] src_rules@.contains(i) <==> i < self.rules@.len()
                        && self.rules@[i as int].network.contains(flow.src_ip),
                forall|i: usize|
                    #[trigger] dst_rules@.contains(i) <==> i < self.rules@.len()
                        && self.rules@[i as int].network.contains(flow.dst_ip),
                forall|i: int|
                    0 <= i < r ==> match flow_direction(
                        (#[trigger] self.rules@[i]).network,
                        *flow,
                    ) {
                        Some(direction) => self.rules@[i].has_room(*flow, direction),
                        None => true,
                    },
            decreases self.rules@.len() - r,
        {
            let to: bool = has_index(&dst_rules, r);
            let from: bool = has_index(&src_rules, r);
            if to != from {
                let direction: Direction = if to { Direction::Inbound } else { Direction::Outbound };
                if !self.rules[r].room_for(flow, direction) {
                    assert(flow_direction(self.rules@[r as int].network, *flow) == Some(direction));
                    return false;
                }
            }
            r = r + 1;
        }
        true
    }

    /// Takes out the captured flows of a direction of all rules with a prefix.
    pub fn drain_captured_flows(&mut self, prefix: &str, direction: Direction) -> (flows: Vec<
        FlowRecord,
    >)
        requires
            old(self).valid(),
        ensures
            final(self).valid(),
            final(self).window_secs == old(self).window_secs,
            flows@ == drained(old(self).rules@, prefix@, direction),
            are_drained_to(old(self).rules@, final(self).rules@, prefix@, direction),
            forall|i: int| 0 <= i < flows@.len() ==> (#[trigger] flows@[i]).fits(),
    {
        let wanted: String = prefix.to_owned();
        let mut flows: Vec<FlowRecord> = Vec::new();
        let ghost before = self.rules@;
        let mut r: usize = 0;
        assert(before.take(0) =~= Seq::empty());
        while r < self.rules.len()
            invariant
                r <= self.rules@.len(),
                wanted@ == prefix@,
                self.prefix_table == old(self).prefix_table,
                self.window_secs == old(self).window_secs,
                self.rules@.len() == before.len(),
                flows@ == drained(before.take(r as int), prefix@, direction),
                forall|i: int| 0 <= i < flows@.len() ==> (#[trigger] flows@[i]).fits(),
                forall|i: int|
                    0 <= i < self.rules@.len() ==> (#[trigger] self.rules@[i]).valid(),
                forall|i: int|
                    r <= i < before.len() ==> #[trigger] self.rules@[i] == before[i],
                forall|i: int|
                    0 <= i < r ==> if text_of_prefix((#[trigger] before[i]).prefix) == prefix@ {
                        before[i].is_drained_to(self.rules@[i], direction)
                    } else {
                        self.rules@[i] == before[i]
                    },
            decreases before.len() - r,
        {
            let ghost rules = self.rules@;
            assert(rules[r as int] == before[r as int]);
            assert(rules[r as int].valid());
            let text: String = prefix_text(&self.rules[r].prefix);
            if text == wanted {
                let rule: &mut ProcessedRule = &mut self.rules[r];
                rule.drain_into(direction, &mut flows);
            }
            proof {
                assert(before.take(r + 1).drop_last() =~= before.take(r as int));
                assert(before.take(r + 1).last() == before[r as int]);
                assert(drained(before.take(r + 1), prefix@, direction) =~= flows@);
                assert forall|i: int| 0 <= i < self.rules@.len() implies (
                #[trigger] self.rules@[i]).valid() && (i != r ==> self.rules@[i]
                    == rules[i]) by {
                    assert(rules[i].valid());
                }
            }
            r = r + 1;
        }
        proof {
            assert(before.take(r as int) =~= before);
            assert forall|i: int| 0 <= i < before.len() implies (
            #[trigger] self.rules@[i]).network == before[i].network by {
                assert(before[i].valid());
            }
            lemma_same_networks(table_map(self.prefix_table), before, self.rules@);
        }
        flows
    }
}

/// The rates of one buffer of a rule.
pub struct RateSnapshot {
    pub prefix: String,
    pub labels: FxHashMap<String, String>,
    pub protocol: ProtocolCategory,
    pub direction: Direction,
    pub bps: Double,
    pub pps: Double,
    pub fps: Double,
}

impl RateSnapshot {
    /// Whether these are the rates of a buffer of a rule, over the window up to `now`.
    pub open spec fn is_of(self, rule: ProcessedRule, i: int, now: u64) -> bool {
        &&& self.prefix@ == text_of_prefix(rule.prefix)
        &&& label_map(self.labels) == label_map(rule.labels)
        &&& self.protocol == rule.buffers@[i].0.protocol
        &&& self.direction == rule.buffers@[i].0.direction
        &&& (self.bps, self.pps, self.fps) == rates(rule.buffers@[i].1@, now)
    }
}

/// The number of buffers of some rules.
pub open spec fn buffers_in(rules: Seq<ProcessedRule>) -> nat
    decreases rules.len(),
{
    if rules.len() == 0 {
        0
    } else {
        buffers_in(rules.drop_last()) + rules.last().buffers@.len()
    }
}

/// The place of a buffer of a rule among all buffers, rule by rule.
pub open spec fn place_of(rules: Seq<ProcessedRule>, r: int, i: int) -> int {
    buffers_in(rules.take(r)) + i
}

impl FlowProcessor {
    /// The rates of all buffers over the window up to `current_time`, rule by rule.
    pub fn compute_all_rates(&self, current_time: u64) -> (snapshots: Vec<RateSnapshot>)
        requires
            self.valid(),
        ensures
            snapshots@.len() == buffers_in(self.rules@),
            forall|r: int, i: int|
                0 <= r < self.rules@.len() && 0 <= i < self.rules@[r].buffers@.len() ==> {
                    let place = #[trigger] place_of(self.rules@, r, i);
                    0 <= place < snapshots@.len() && snapshots@[place].is_of(
                        self.rules@[r],
                        i,
                        current_time,
                    )
                },
    {
        let mut snapshots: Vec<RateSnapshot> = Vec::new();
        let mut r: usize = 0;
        assert(self.rules@.take(0) =~= Seq::empty());
        while r < self.rules.len()
            invariant
                r <= self.rules@.len(),
                self.valid(),
                snapshots@.len() == buffers_in(self.rules@.take(r as int)),
                forall|q: int, i: int|
                    0 <= q < r && 0 <= i < self.rules@[q].buffers@.len() ==> {
                        let place = #[trigger] place_of(self.rules@, q, i);
                        0 <= place < snapshots@.len() && snapshots@[place].is_of(
                            self.rules@[q],
                            i,
                            current_time,
                        )
                    },
            decreases self.rules@.len() - r,
        {
            let rule: &ProcessedRule = &self.rules[r];
            let text: String = prefix_text(&rule.prefix);
            let ghost start = snapshots@.len();
            let mut i: usize = 0;
            while i < rule.buffers.len()
                invariant
                    r < self.rules@.len(),
                    *rule == self.rules@[r as int],
                    i <= rule.buffers@.len(),
                    text@ == text_of_prefix(rule.prefix),
                    start == buffers_in(self.rules@.take(r as int)),
                    snapshots@.len() == start + i,
                    forall|q: int, i: int|
                        0 <= q < r && 0 <= i < self.rules@[q].buffers@.len() ==> {
                            let place = #[trigger] place_of(self.rules@, q, i);
                            0 <= place < start && snapshots@[place].is_of(
                                self.rules@[q],
                                i,
                                current_time,
                            )
                        },
                    forall|j: int|
                        0 <= j < i ==> #[trigger] snapshots@[start + j].is_of(
                            *rule,
                            j,
                            current_time,
                        ),
                decreases rule.buffers@.len() - i,
            {
                let key: BufferKey = rule.buffers[i].0;
                let (bps, pps, fps): (Double, Double, Double) = rule.buffers[i].1.compute_rates(
                    current_time,
                );
                snapshots.push(
                    RateSnapshot {
                        prefix: text.clone(),
                        labels: clone_labels(&rule.labels),
                        protocol: key.protocol,
                        direction: key.direction,
                        bps,
                        pps,
                        fps,
                    },
                );
                i = i + 1;
            }
            proof {
                assert(self.rules@.take(r + 1).drop_last() =~= self.rules@.take(r as int));
                assert(self.rules@.take(r + 1).last() == *rule);
            }
            r = r + 1;
        }
        assert(self.rules@.take(r as int) =~= self.rules@);
        snapshots
    }
}

} // verus!
