//! Filter rules that are suggested from the flows captured while an alert fires.

use crate::config::{
    categories_are_exact, has_category, in_category, Direction, ProtocolCategory,
};
use crate::double::{product_of, ratio_of, Double};
use crate::flow::FlowRecord;
use crate::net::{
    parse_prefix, prefix_text, text_of_prefix, IpAddr, Prefix,
};
use crate::text::{decimal, decimal_text, texts};
use vstd::prelude::*;
use vstd::string::*;

verus! {

/// The field of the source address.
pub const SRC_IP: u8 = 1;

/// The field of the destination port.
pub const DST_PORT: u8 = 2;

/// The field of the source port.
pub const SRC_PORT: u8 = 4;

/// The field of the IP protocol.
pub const PROTOCOL: u8 = 8;

/// The field of the TCP flags.
pub const TCP_FLAGS: u8 = 16;

/// How many rules are suggested at most.
pub const MAX_RULES: usize = 10;

/// The bits of 0.1: the least share of the remaining bytes that a rule must cover.
pub const MIN_COVERAGE: u64 = 0x3FB9_9999_9999_999A;

/// The bits of 0.8: the share of the bytes from which on a host is the target.
pub const DOMINANT: u64 = 0x3FE9_9999_9999_999A;

/// A suggested filter rule. An empty list leaves its field open.
#[derive(Debug)]
pub struct MitigationRule {
    pub source_prefix: Option<String>,
    pub destination_prefix: String,
    pub destination_ports: Vec<u16>,
    pub source_ports: Vec<u16>,
    pub protocols: Vec<String>,
    pub tcp_flags: Vec<String>,
}

/// What a suggested filter rule says.
pub struct RuleText {
    pub source_prefix: Option<Seq<char>>,
    pub destination_prefix: Seq<char>,
    pub destination_ports: Seq<u16>,
    pub source_ports: Seq<u16>,
    pub protocols: Seq<Seq<char>>,
    pub tcp_flags: Seq<Seq<char>>,
}

impl View for MitigationRule {
    type V = RuleText;

    open spec fn view(&self) -> RuleText {
        RuleText {
            source_prefix: match self.source_prefix {
                Some(text) => Some(text@),
                None => None,
            },
            destination_prefix: self.destination_prefix@,
            destination_ports: self.destination_ports@,
            source_ports: self.source_ports@,
            protocols: texts(self.protocols@),
            tcp_flags: texts(self.tcp_flags@),
        }
    }
}

/// The fields that a rule constrains, one bit for each.
#[derive(Clone, Copy, Debug, PartialEq, Eq, Structural)]
pub struct FieldSet(pub u8);

/// 1 where a bit is set, 0 otherwise.
pub open spec fn bit_of(bits: u8, flag: u8) -> nat {
    if bits & flag != 0 {
        1
    } else {
        0
    }
}

impl FieldSet {
    /// The number of fields in the set.
    pub open spec fn size(self) -> nat {
        bit_of(self.0, 1) + bit_of(self.0, 2) + bit_of(self.0, 4) + bit_of(self.0, 8) + bit_of(
            self.0,
            16,
        ) + bit_of(self.0, 32) + bit_of(self.0, 64) + bit_of(self.0, 128)
    }

    /// Whether a field is in the set.
    pub open spec fn contains(self, flag: u8) -> bool {
        self.0 & flag != 0
    }

    /// Whether this is a set of at least one of the five fields, and of none that is excluded.
    pub open spec fn is_choice(self, exclude: u8) -> bool {
        1 <= self.0 <= 31 && self.0 & exclude == 0
    }

    /// Whether this set comes before another: the smaller sets come first.
    pub open spec fn before(self, other: FieldSet) -> bool {
        self.size() < other.size() || (self.size() == other.size() && self.0 < other.0)
    }

    /// The number of fields in the set.
    pub fn count(self) -> (n: u32)
        ensures
            n == self.size(),
    {
        let mut n: u32 = 0;
        if self.has(1) {
            n = n + 1;
        }
        if self.has(2) {
            n = n + 1;
        }
        if self.has(4) {
            n = n + 1;
        }
        if self.has(8) {
            n = n + 1;
        }
        if self.has(16) {
            n = n + 1;
        }
        if self.has(32) {
            n = n + 1;
        }
        if self.has(64) {
            n = n + 1;
        }
        if self.has(128) {
            n = n + 1;
        }
        n
    }

    /// Whether a field is in the set.
    pub fn has(self, flag: u8) -> (b: bool)
        ensures
            b == self.contains(flag),
    {
        self.0 & flag != 0
    }

    /// All sets of at least one field, without the excluded ones, the smaller sets first.
    pub fn all_combinations(exclude_mask: u8) -> (sets: Vec<FieldSet>)
        ensures
            forall|i: int, j: int|
                0 <= i < j < sets@.len() ==> (#[trigger] sets@[i]).before(#[trigger] sets@[j]),
            forall|set: FieldSet|
                #[trigger] sets@.contains(set) <==> set.is_choice(exclude_mask),
    {
        let mut sets: Vec<FieldSet> = Vec::new();
        let mut size: u32 = 1;
        proof {
            assert forall|set: FieldSet| set.is_choice(exclude_mask) implies set.size() >= 1 by {
                lemma_size(set);
            }
        }
        while size <= 5
            invariant
                1 <= size <= 6,
                forall|i: int, j: int|
                    0 <= i < j < sets@.len() ==> (#[trigger] sets@[i]).before(#[trigger] sets@[j]),
                forall|set: FieldSet|
                    #[trigger] sets@.contains(set) <==> set.is_choice(exclude_mask) && set.size()
                        < size,
            decreases 6 - size,
        {
            let mut bits: u8 = 1;
            while bits <= 31
                invariant
                    1 <= size <= 5,
                    1 <= bits <= 32,
                    forall|i: int, j: int|
                        0 <= i < j < sets@.len() ==> (#[trigger] sets@[i]).before(
                            #[trigger] sets@[j],
                        ),
                    forall|set: FieldSet|
                        #[trigger] sets@.contains(set) <==> set.is_choice(exclude_mask) && (
                        set.size() < size || (set.size() == size && set.0 < bits)),
                decreases 32 - bits,
            {
                let set: FieldSet = FieldSet(bits);
                let ghost before = sets@;
                if bits & exclude_mask == 0 && set.count() == size {
                    proof {
                        assert forall|i: int| 0 <= i < before.len() implies (
                        #[trigger] before[i]).before(set) by {
                            assert(before.contains(before[i]));
                        }
                    }
                    sets.push(set);
                    proof {
                        assert forall|other: FieldSet|
                            #[trigger] sets@.contains(other) <==> before.contains(other) || other
                                == set by {
                            if before.contains(other) {
                                let i = choose|i: int|
                                    0 <= i < before.len() && before[i] == other;
                                assert(sets@[i] == other);
                            }
                            assert(sets@[before.len() as int] == set);
                        }
                    }
                }
                bits = bits + 1;
            }
            size = size + 1;
        }
        proof {
            assert forall|set: FieldSet| set.is_choice(exclude_mask) implies set.size() <= 5 by {
                lemma_size(set);
            }
        }
        sets
    }
}

proof fn lemma_size(set: FieldSet)
    requires
        1 <= set.0 <= 31,
    ensures
        1 <= set.size() <= 5,
{
    let bits = set.0;
    assert(bits & 32 == 0 && bits & 64 == 0 && bits & 128 == 0) by (bit_vector)
        requires
            bits <= 31,
    ;
    assert(bits & 1 != 0 || bits & 2 != 0 || bits & 4 != 0 || bits & 8 != 0 || bits & 16 != 0)
        by (bit_vector)
        requires
            1 <= bits <= 31,
    ;
}

/// The values of some fields, by which flows are grouped.
#[derive(Clone, Copy, Debug, PartialEq, Eq, Structural)]
pub struct GroupKey {
    pub src_ip: Option<IpAddr>,
    pub dst_port: Option<u16>,
    pub src_port: Option<u16>,
    pub protocol: Option<u8>,
    pub tcp_flags: Option<u8>,
}

/// A value, where it is wanted.
pub open spec fn only_if<T>(wanted: bool, value: T) -> Option<T> {
    if wanted {
        Some(value)
    } else {
        None
    }
}

/// The values that a flow has in some fields. A flow with a zero in one of them, the address
/// aside, has none: zero stands for a value that the flow lacks.
pub open spec fn key_of(flow: FlowRecord, fields: FieldSet) -> Option<GroupKey> {
    if (fields.contains(TCP_FLAGS) && flow.tcp_flags == 0) || (fields.contains(PROTOCOL)
        && flow.protocol == 0) || (fields.contains(DST_PORT) && flow.dst_port == 0) || (
    fields.contains(SRC_PORT) && flow.src_port == 0) {
        None
    } else {
        Some(
            GroupKey {
                src_ip: only_if(fields.contains(SRC_IP), flow.src_ip),
                dst_port: only_if(fields.contains(DST_PORT), flow.dst_port),
                src_port: only_if(fields.contains(SRC_PORT), flow.src_port),
                protocol: only_if(fields.contains(PROTOCOL), flow.protocol),
                tcp_flags: only_if(fields.contains(TCP_FLAGS), flow.tcp_flags),
            },
        )
    }
}

impl GroupKey {
    /// The values that a flow has in some fields.
    pub fn from_flow(flow: &FlowRecord, fields: FieldSet) -> (key: Option<GroupKey>)
        ensures
            key == key_of(*flow, fields),
    {
        if fields.has(TCP_FLAGS) && flow.tcp_flags == 0 {
            return None;
        }
        if fields.has(PROTOCOL) && flow.protocol == 0 {
            return None;
        }
        if fields.has(DST_PORT) && flow.dst_port == 0 {
            return None;
        }
        if fields.has(SRC_PORT) && flow.src_port == 0 {
            return None;
        }
        Some(
            GroupKey {
                src_ip: if fields.has(SRC_IP) { Some(flow.src_ip) } else { None },
                dst_port: if fields.has(DST_PORT) { Some(flow.dst_port) } else { None },
                src_port: if fields.has(SRC_PORT) { Some(flow.src_port) } else { None },
                protocol: if fields.has(PROTOCOL) { Some(flow.protocol) } else { None },
                tcp_flags: if fields.has(TCP_FLAGS) { Some(flow.tcp_flags) } else { None },
            },
        )
    }
}

/// A rule that may be suggested: some fields and their values.
#[derive(Clone, Copy, Debug, PartialEq, Eq, Structural)]
pub struct Candidate {
    pub fields: FieldSet,
    pub src_ip: Option<IpAddr>,
    pub dst_port: Option<u16>,
    pub src_port: Option<u16>,
    pub protocol: Option<u8>,
    pub tcp_flags: Option<u8>,
}

impl Candidate {
    /// The candidate with the given fields and values.
    pub open spec fn of(fields: FieldSet, key: GroupKey) -> Candidate {
        Candidate {
            fields,
            src_ip: key.src_ip,
            dst_port: key.dst_port,
            src_port: key.src_port,
            protocol: key.protocol,
            tcp_flags: key.tcp_flags,
        }
    }

    /// The values of the candidate.
    pub open spec fn key(self) -> GroupKey {
        GroupKey {
            src_ip: self.src_ip,
            dst_port: self.dst_port,
            src_port: self.src_port,
            protocol: self.protocol,
            tcp_flags: self.tcp_flags,
        }
    }

    /// Whether a flow has each of the values, and of the TCP flags at least those.
    pub open spec fn covers(self, flow: FlowRecord) -> bool {
        &&& self.src_ip matches Some(ip) ==> flow.src_ip == ip
        &&& self.dst_port matches Some(port) ==> flow.dst_port == port
        &&& self.src_port matches Some(port) ==> flow.src_port == port
        &&& self.protocol matches Some(protocol) ==> flow.protocol == protocol
        &&& self.tcp_flags matches Some(flags) ==> flow.tcp_flags & flags == flags
    }

    /// Whether a flow has each of the values, and of the TCP flags at least those.
    pub fn matches(&self, flow: &FlowRecord) -> (b: bool)
        ensures
            b == self.covers(*flow),
    {
        if let Some(ip) = self.src_ip {
            if flow.src_ip != ip {
                return false;
            }
        }
        if let Some(port) = self.dst_port {
            if flow.dst_port != port {
                return false;
            }
        }
        if let Some(port) = self.src_port {
            if flow.src_port != port {
                return false;
            }
        }
        if let Some(protocol) = self.protocol {
            if flow.protocol != protocol {
                return false;
            }
        }
        if let Some(flags) = self.tcp_flags {
            if flow.tcp_flags & flags != flags {
                return false;
            }
        }
        true
    }
}


/// The bytes that some flows stand for.
pub open spec fn bytes_in(flows: Seq<FlowRecord>) -> nat
    decreases flows.len(),
{
    if flows.len() == 0 {
        0
    } else {
        bytes_in(flows.drop_last()) + flows.last().byte_count()
    }
}

/// Whether the bytes that each flow stands for fit in 64 bits.
pub open spec fn bytes_fit(flows: Seq<FlowRecord>) -> bool {
    forall|i: int| 0 <= i < flows.len() ==> (#[trigger] flows[i]).byte_count() <= u64::MAX
}

/// The bytes that some flows stand for.
fn total_bytes(flows: &Vec<FlowRecord>) -> (total: u128)
    requires
        bytes_fit(flows@),
    ensures
        total == bytes_in(flows@),
{
    let mut total: u128 = 0;
    let mut n: usize = 0;
    while n < flows.len()
        invariant
            n <= flows@.len(),
            bytes_fit(flows@),
            total == bytes_in(flows@.take(n as int)),
            total <= n * u64::MAX,
        decreases flows@.len() - n,
    {
        proof {
            assert(flows@.take(n + 1).drop_last() =~= flows@.take(n as int));
            lemma_sum_bound(n);
        }
        total = total + flows[n].sampled_bytes() as u128;
        n = n + 1;
    }
    assert(flows@.take(n as int) =~= flows@);
    total
}

proof fn lemma_sum_bound(n: usize)
    requires
        n < usize::MAX,
    ensures
        (n + 1) * u64::MAX == n * u64::MAX + u64::MAX,
        (n + 1) * u64::MAX <= u128::MAX,
{
    assert((n + 1) * u64::MAX == n * u64::MAX + u64::MAX) by (nonlinear_arith);
    assert((n + 1) * u64::MAX <= 0xffff_ffff_ffff_ffff * u64::MAX) by (nonlinear_arith)
        requires
            n + 1 <= 0xffff_ffff_ffff_ffff,
    ;
}

/// The bytes that the flows with a label stand for.
pub open spec fn labelled_bytes<K>(labels: Seq<Option<K>>, flows: Seq<FlowRecord>, label: K) -> nat
    decreases flows.len(),
{
    if flows.len() == 0 {
        0
    } else {
        labelled_bytes(labels, flows.drop_last(), label) + if labels[flows.len() - 1] == Some(
            label,
        ) {
            flows.last().byte_count()
        } else {
            0
        }
    }
}

/// Whether label `a` occurs, and occurs before any `b`.
pub open spec fn seen_first<K>(labels: Seq<Option<K>>, a: K, b: K) -> bool {
    exists|i: int|
        0 <= i < labels.len() && #[trigger] labels[i] == Some(a) && forall|j: int|
            0 <= j <= i ==> #[trigger] labels[j] != Some(b)
}

proof fn lemma_one_is_seen_first<K>(labels: Seq<Option<K>>, a: K, b: K)
    ensures
        !(seen_first(labels, a, b) && seen_first(labels, b, a)),
        seen_first(labels, a, b) ==> a != b,
{
    if seen_first(labels, a, b) && seen_first(labels, b, a) {
        let i = choose|i: int|
            0 <= i < labels.len() && #[trigger] labels[i] == Some(a) && forall|j: int|
                0 <= j <= i ==> #[trigger] labels[j] != Some(b);
        let k = choose|i: int|
            0 <= i < labels.len() && #[trigger] labels[i] == Some(b) && forall|j: int|
                0 <= j <= i ==> #[trigger] labels[j] != Some(a);
        assert(labels[i] == Some(a) && labels[k] == Some(b));
    }
}

spec fn occurs_before<K>(labels: Seq<Option<K>>, label: K, n: int) -> bool {
    exists|m: int| 0 <= m < n && #[trigger] labels[m] == Some(label)
}

spec fn is_tallied<K>(counts: Seq<(K, u128)>, label: K) -> bool {
    exists|i: int| 0 <= i < counts.len() && (#[trigger] counts[i]).0 == label
}

/// Whether the labels of the first `n` flows are listed in the order in which they are first
/// seen, with the bytes of their flows among these.
spec fn tallied<K>(
    counts: Seq<(K, u128)>,
    labels: Seq<Option<K>>,
    flows: Seq<FlowRecord>,
    n: int,
) -> bool {
    &&& forall|i: int|
        0 <= i < counts.len() ==> {
            &&& (#[trigger] counts[i]).1 == labelled_bytes(labels, flows.take(n), counts[i].0)
            &&& counts[i].1 <= n * u64::MAX
            &&& occurs_before(labels, counts[i].0, n)
        }
    &&& forall|m: int|
        0 <= m < n ==> (#[trigger] labels[m] matches Some(label) ==> is_tallied(counts, label))
    &&& forall|i: int, j: int|
        0 <= i < j < counts.len() ==> seen_first(
            labels,
            (#[trigger] counts[i]).0,
            (#[trigger] counts[j]).0,
        )
}

proof fn lemma_tally_skips<K>(
    counts: Seq<(K, u128)>,
    labels: Seq<Option<K>>,
    flows: Seq<FlowRecord>,
    n: usize,
)
    requires
        n < flows.len() == labels.len(),
        n < usize::MAX,
        tallied(counts, labels, flows, n as int),
        labels[n as int] is None,
    ensures
        tallied(counts, labels, flows, n + 1),
{
    lemma_sum_bound(n);
    assert(flows.take(n + 1).drop_last() =~= flows.take(n as int));
    assert forall|i: int| 0 <= i < counts.len() implies (#[trigger] counts[i]).1 == labelled_bytes(
        labels,
        flows.take(n + 1),
        counts[i].0,
    ) && occurs_before(labels, counts[i].0, n + 1) by {
        let m = choose|m: int| 0 <= m < n && #[trigger] labels[m] == Some(counts[i].0);
        assert(labels[m] == Some(counts[i].0));
    }
}

proof fn lemma_tally_adds<K>(
    counts: Seq<(K, u128)>,
    labels: Seq<Option<K>>,
    flows: Seq<FlowRecord>,
    n: usize,
    k: int,
)
    requires
        n < flows.len() == labels.len(),
        n < usize::MAX,
        flows[n as int].byte_count() <= u64::MAX,
        tallied(counts, labels, flows, n as int),
        0 <= k < counts.len(),
        labels[n as int] == Some(counts[k].0),
    ensures
        counts[k].1 + flows[n as int].byte_count() <= u128::MAX,
        tallied(
            counts.update(
                k,
                (counts[k].0, (counts[k].1 + flows[n as int].byte_count()) as u128),
            ),
            labels,
            flows,
            n + 1,
        ),
{
    lemma_sum_bound(n);
    assert(flows.take(n + 1).drop_last() =~= flows.take(n as int));
    let updated = counts.update(
        k,
        (counts[k].0, (counts[k].1 + flows[n as int].byte_count()) as u128),
    );
    assert forall|i: int| 0 <= i < updated.len() implies {
        &&& (#[trigger] updated[i]).1 == labelled_bytes(labels, flows.take(n + 1), updated[i].0)
        &&& updated[i].1 <= (n + 1) * u64::MAX
        &&& occurs_before(labels, updated[i].0, n + 1)
    } by {
        assert(updated[i].0 == counts[i].0);
        let m = choose|m: int| 0 <= m < n && #[trigger] labels[m] == Some(counts[i].0);
        assert(labels[m] == Some(updated[i].0));
        if i < k {
            assert(seen_first(labels, counts[i].0, counts[k].0));
            lemma_one_is_seen_first(labels, counts[i].0, counts[k].0);
        } else if k < i {
            assert(seen_first(labels, counts[k].0, counts[i].0));
            lemma_one_is_seen_first(labels, counts[k].0, counts[i].0);
        }
    }
    assert forall|m: int| 0 <= m < n + 1 && (#[trigger] labels[m]) is Some implies is_tallied(
        updated,
        labels[m]->Some_0,
    ) by {
        if m < n {
            let i = choose|i: int|
                0 <= i < counts.len() && (#[trigger] counts[i]).0 == labels[m]->Some_0;
            assert(updated[i].0 == counts[i].0);
        } else {
            assert(updated[k].0 == counts[k].0);
        }
    }
    assert forall|i: int, j: int| 0 <= i < j < updated.len() implies seen_first(
        labels,
        (#[trigger] updated[i]).0,
        (#[trigger] updated[j]).0,
    ) by {
        assert(updated[i].0 == counts[i].0 && updated[j].0 == counts[j].0);
    }
}

proof fn lemma_tally_starts<K>(
    counts: Seq<(K, u128)>,
    labels: Seq<Option<K>>,
    flows: Seq<FlowRecord>,
    n: usize,
    label: K,
)
    requires
        n < flows.len() == labels.len(),
        n < usize::MAX,
        flows[n as int].byte_count() <= u64::MAX,
        tallied(counts, labels, flows, n as int),
        labels[n as int] == Some(label),
        forall|i: int| 0 <= i < counts.len() ==> (#[trigger] counts[i]).0 != label,
    ensures
        tallied(
            counts.push((label, flows[n as int].byte_count() as u128)),
            labels,
            flows,
            n + 1,
        ),
{
    lemma_sum_bound(n);
    assert(flows.take(n + 1).drop_last() =~= flows.take(n as int));
    let longer = counts.push((label, flows[n as int].byte_count() as u128));
    let k = counts.len() as int;
    assert forall|m: int| 0 <= m < n implies #[trigger] labels[m] != Some(label) by {
        if labels[m] == Some(label) {
            assert(is_tallied(counts, label));
        }
    }
    lemma_no_label_no_bytes(labels, flows, label, n as int);
    assert forall|i: int| 0 <= i < longer.len() implies {
        &&& (#[trigger] longer[i]).1 == labelled_bytes(labels, flows.take(n + 1), longer[i].0)
        &&& longer[i].1 <= (n + 1) * u64::MAX
        &&& occurs_before(labels, longer[i].0, n + 1)
    } by {
        if i < k {
            assert(longer[i] == counts[i]);
            let m = choose|m: int| 0 <= m < n && #[trigger] labels[m] == Some(counts[i].0);
            assert(labels[m] == Some(longer[i].0));
        } else {
            assert(labels[n as int] == Some(longer[i].0));
        }
    }
    assert forall|m: int| 0 <= m < n + 1 && (#[trigger] labels[m]) is Some implies is_tallied(
        longer,
        labels[m]->Some_0,
    ) by {
        if m < n {
            let i = choose|i: int|
                0 <= i < counts.len() && (#[trigger] counts[i]).0 == labels[m]->Some_0;
            assert(longer[i].0 == counts[i].0);
        } else {
            assert(longer[k].0 == label);
        }
    }
    assert forall|i: int, j: int| 0 <= i < j < longer.len() implies seen_first(
        labels,
        (#[trigger] longer[i]).0,
        (#[trigger] longer[j]).0,
    ) by {
        assert(longer[i] == counts[i]);
        if j < k {
            assert(longer[j] == counts[j]);
        } else {
            let m = choose|m: int| 0 <= m < n && #[trigger] labels[m] == Some(counts[i].0);
            assert(labels[m] == Some(longer[i].0));
        }
    }
}

proof fn lemma_no_label_no_bytes<K>(
    labels: Seq<Option<K>>,
    flows: Seq<FlowRecord>,
    label: K,
    n: int,
)
    requires
        0 <= n <= flows.len(),
        forall|m: int| 0 <= m < n ==> #[trigger] labels[m] != Some(label),
    ensures
        labelled_bytes(labels, flows.take(n), label) == 0,
    decreases n,
{
    if n > 0 {
        assert(flows.take(n).drop_last() =~= flows.take(n - 1));
        lemma_no_label_no_bytes(labels, flows, label, n - 1);
    }
}

/// The address of a flow that lies in the watched prefix.
pub open spec fn host_of(flow: FlowRecord, direction: Direction) -> IpAddr {
    match direction {
        Direction::Inbound => flow.dst_ip,
        Direction::Outbound => flow.src_ip,
    }
}

/// The flows, each labelled with its address in the watched prefix.
pub open spec fn hosts(flows: Seq<FlowRecord>, direction: Direction) -> Seq<Option<IpAddr>> {
    Seq::new(flows.len(), |i: int| Some(host_of(flows[i], direction)))
}

/// The bytes that the flows of a host stand for.
pub open spec fn host_bytes(flows: Seq<FlowRecord>, direction: Direction, ip: IpAddr) -> nat {
    labelled_bytes(hosts(flows, direction), flows, ip)
}

/// Whether host `a` is preferred to host `b`: it has more bytes, or as many and was seen first.
pub open spec fn heavier(
    flows: Seq<FlowRecord>,
    direction: Direction,
    a: IpAddr,
    b: IpAddr,
) -> bool {
    host_bytes(flows, direction, b) < host_bytes(flows, direction, a) || (host_bytes(
        flows,
        direction,
        b,
    ) == host_bytes(flows, direction, a) && seen_first(hosts(flows, direction), a, b))
}

/// Whether a host of the flows is preferred to all others.
pub open spec fn is_heaviest(flows: Seq<FlowRecord>, direction: Direction, ip: IpAddr) -> bool {
    hosts(flows, direction).contains(Some(ip)) && forall|other: IpAddr|
        other != ip && #[trigger] hosts(flows, direction).contains(Some(other)) ==> heavier(
            flows,
            direction,
            ip,
            other,
        )
}

/// The host of the flows that is preferred to all others.
pub open spec fn heaviest(flows: Seq<FlowRecord>, direction: Direction) -> IpAddr {
    choose|ip: IpAddr| is_heaviest(flows, direction, ip)
}

/// The prefix that the flows aim at: that of the heaviest host alone, where its share of the
/// bytes is at least `dominant_ratio`, otherwise the watched prefix.
pub open spec fn destination(
    flows: Seq<FlowRecord>,
    direction: Direction,
    prefix: Prefix,
    dominant_ratio: Double,
) -> Prefix {
    let ip = heaviest(flows, direction);
    if bytes_in(flows) > 0 && ratio_of(
        host_bytes(flows, direction, ip),
        bytes_in(flows),
    ).no_less(dominant_ratio) {
        ip.host_prefix()
    } else {
        prefix
    }
}

proof fn lemma_heaviest_unique(
    flows: Seq<FlowRecord>,
    direction: Direction,
    a: IpAddr,
    b: IpAddr,
)
    requires
        is_heaviest(flows, direction, a),
        is_heaviest(flows, direction, b),
    ensures
        a == b,
{
    if a != b {
        assert(heavier(flows, direction, a, b));
        assert(heavier(flows, direction, b, a));
        lemma_one_is_seen_first(hosts(flows, direction), a, b);
    }
}

/// The hosts of the flows in the order in which they are first seen, and their bytes.
fn count_hosts(flows: &Vec<FlowRecord>, direction: Direction) -> (counts: Vec<(IpAddr, u128)>)
    requires
        bytes_fit(flows@),
    ensures
        tallied(counts@, hosts(flows@, direction), flows@, flows@.len() as int),
{
    let mut counts: Vec<(IpAddr, u128)> = Vec::new();
    let mut n: usize = 0;
    let ghost labels = hosts(flows@, direction);
    while n < flows.len()
        invariant
            n <= flows@.len(),
            bytes_fit(flows@),
            labels == hosts(flows@, direction),
            tallied(counts@, labels, flows@, n as int),
        decreases flows@.len() - n,
    {
        let ip: IpAddr = match direction {
            Direction::Inbound => flows[n].dst_ip,
            Direction::Outbound => flows[n].src_ip,
        };
        let bytes: u64 = flows[n].sampled_bytes();
        let mut k: usize = 0;
        while k < counts.len() && counts[k].0 != ip
            invariant
                k <= counts@.len(),
                forall|i: int| 0 <= i < k ==> (#[trigger] counts@[i]).0 != ip,
            decreases counts@.len() - k,
        {
            k = k + 1;
        }
        if k < counts.len() {
            proof {
                lemma_tally_adds(counts@, labels, flows@, n, k as int);
            }
            let sum: u128 = counts[k].1 + bytes as u128;
            counts.set(k, (ip, sum));
        } else {
            proof {
                lemma_tally_starts(counts@, labels, flows@, n, ip);
            }
            counts.push((ip, bytes as u128));
        }
        n = n + 1;
    }
    counts
}

/// The prefix that the flows aim at: that of the heaviest host alone, where its share of the
/// bytes is at least `dominant_ratio`, otherwise the watched prefix.
pub fn compute_destination_prefix(
    flows: &Vec<FlowRecord>,
    direction: Direction,
    prefix: Prefix,
    dominant_ratio: Double,
) -> (target: Prefix)
    requires
        bytes_fit(flows@),
    ensures
        target == destination(flows@, direction, prefix, dominant_ratio),
        prefix.valid() ==> target.valid(),
{
    let total: u128 = total_bytes(flows);
    if total == 0 {
        return prefix;
    }
    let counts: Vec<(IpAddr, u128)> = count_hosts(flows, direction);
    let ghost labels = hosts(flows@, direction);
    let mut best: usize = 0;
    let mut k: usize = 1;
    proof {
        assert(flows@.len() > 0);
        assert(labels[0] is Some);
        assert(is_tallied(counts@, labels[0]->Some_0));
    }
    while k < counts.len()
        invariant
            best < k,
            best < counts@.len(),
            forall|i: int|
                0 <= i < k && i < counts@.len() ==> (#[trigger] counts@[i]).1
                    <= counts@[best as int].1,
            forall|i: int| 0 <= i < best ==> (#[trigger] counts@[i]).1 < counts@[best as int].1,
        decreases counts@.len() - k,
    {
        if counts[k].1 > counts[best].1 {
            best = k;
        }
        k = k + 1;
    }
    let ip: IpAddr = counts[best].0;
    let bytes: u128 = counts[best].1;
    proof {
        assert(flows@.take(flows@.len() as int) =~= flows@);
        assert(occurs_before(labels, ip, flows@.len() as int));
        assert(labels.contains(Some(ip)));
        assert forall|other: IpAddr|
            other != ip && #[trigger] labels.contains(Some(other)) implies heavier(
            flows@,
            direction,
            ip,
            other,
        ) by {
            let m = choose|m: int| 0 <= m < labels.len() && labels[m] == Some(other);
            assert(is_tallied(counts@, other));
            let i = choose|i: int| 0 <= i < counts@.len() && (#[trigger] counts@[i]).0 == other;
            assert(counts@[i].1 <= counts@[best as int].1);
        }
        assert(is_heaviest(flows@, direction, ip));
        lemma_heaviest_unique(flows@, direction, ip, heaviest(flows@, direction));
    }
    if Double::ratio(bytes, total).at_least(dominant_ratio) {
        let text: String = host_text(&ip);
        if let Ok(parsed) = parse_prefix(text.as_str()) {
            return parsed;
        }
    }
    prefix
}

/// The text of the prefix that holds an address alone.
fn host_text(ip: &IpAddr) -> (text: String)
    ensures
        text@ == text_of_prefix(ip.host_prefix()),
{
    let host: Prefix = ip.host();
    prefix_text(&host)
}


/// The flows, each labelled with its values in some fields.
pub open spec fn keys(flows: Seq<FlowRecord>, fields: FieldSet) -> Seq<Option<GroupKey>> {
    Seq::new(flows.len(), |i: int| key_of(flows[i], fields))
}

/// The bytes of the flows that have exactly the values of a candidate.
pub open spec fn group_bytes(flows: Seq<FlowRecord>, candidate: Candidate) -> nat {
    labelled_bytes(keys(flows, candidate.fields), flows, candidate.key())
}

/// The share of a candidate in the bytes of the flows.
pub open spec fn coverage(flows: Seq<FlowRecord>, candidate: Candidate) -> Double {
    ratio_of(group_bytes(flows, candidate), bytes_in(flows))
}

/// The double nearest to `1 + n / 10`, for up to five fields.
pub open spec fn weight(n: nat) -> Double {
    if n == 0 {
        Double { bits: 0x3FF0_0000_0000_0000 }
    } else if n == 1 {
        Double { bits: 0x3FF1_9999_9999_999A }
    } else if n == 2 {
        Double { bits: 0x3FF3_3333_3333_3333 }
    } else if n == 3 {
        Double { bits: 0x3FF4_CCCC_CCCC_CCCD }
    } else if n == 4 {
        Double { bits: 0x3FF6_6666_6666_6666 }
    } else {
        Double { bits: 0x3FF8_0000_0000_0000 }
    }
}

/// The double nearest to `1 + n / 10`, for up to five fields.
fn weight_value(n: u32) -> (d: Double)
    ensures
        d == weight(n as nat),
{
    match n {
        0 => Double::from_bits(0x3FF0_0000_0000_0000),
        1 => Double::from_bits(0x3FF1_9999_9999_999A),
        2 => Double::from_bits(0x3FF3_3333_3333_3333),
        3 => Double::from_bits(0x3FF4_CCCC_CCCC_CCCD),
        4 => Double::from_bits(0x3FF6_6666_6666_6666),
        _ => Double::from_bits(0x3FF8_0000_0000_0000),
    }
}

/// The score of a candidate: its coverage, and a bonus for each field. The bonus makes a rule
/// specific where that costs little coverage.
pub open spec fn score(flows: Seq<FlowRecord>, candidate: Candidate) -> Double {
    product_of(coverage(flows, candidate), weight(candidate.fields.size()))
}

/// Whether a candidate may be suggested: it has none of the excluded fields, some flow has its
/// values, and it does not cover less than `min_coverage_ratio` of the bytes.
pub open spec fn is_option(
    flows: Seq<FlowRecord>,
    min_coverage_ratio: Double,
    exclude_fields: u8,
    candidate: Candidate,
) -> bool {
    &&& candidate.fields.is_choice(exclude_fields)
    &&& keys(flows, candidate.fields).contains(Some(candidate.key()))
    &&& !coverage(flows, candidate).less(min_coverage_ratio)
}

/// Whether candidate `a` comes before `b`: by its fields, or, of the same fields, by the first
/// flow that has its values.
pub open spec fn earlier(flows: Seq<FlowRecord>, a: Candidate, b: Candidate) -> bool {
    a.fields.before(b.fields) || (a.fields == b.fields && seen_first(
        keys(flows, a.fields),
        a.key(),
        b.key(),
    ))
}

/// Whether candidate `a` is preferred to `b`: it scores higher, or as high and comes before.
pub open spec fn preferred(flows: Seq<FlowRecord>, a: Candidate, b: Candidate) -> bool {
    score(flows, b).less(score(flows, a)) || (!score(flows, a).less(score(flows, b)) && earlier(
        flows,
        a,
        b,
    ))
}

/// Whether a candidate may be suggested and is preferred to all others that may.
pub open spec fn is_best(
    flows: Seq<FlowRecord>,
    min_coverage_ratio: Double,
    exclude_fields: u8,
    candidate: Candidate,
) -> bool {
    is_option(flows, min_coverage_ratio, exclude_fields, candidate) && forall|other: Candidate|
        other != candidate && #[trigger] is_option(
            flows,
            min_coverage_ratio,
            exclude_fields,
            other,
        ) ==> preferred(flows, candidate, other)
}

/// The best candidate, where there is one that may be suggested and the flows have bytes.
pub open spec fn best_candidate(
    flows: Seq<FlowRecord>,
    min_coverage_ratio: Double,
    exclude_fields: u8,
) -> Option<Candidate> {
    if bytes_in(flows) > 0 && exists|c: Candidate|
        is_best(flows, min_coverage_ratio, exclude_fields, c) {
        Some(choose|c: Candidate| is_best(flows, min_coverage_ratio, exclude_fields, c))
    } else {
        None
    }
}

proof fn lemma_score_is_number(flows: Seq<FlowRecord>, candidate: Candidate)
    ensures
        !score(flows, candidate).is_nan(),
{
}

proof fn lemma_best_unique(
    flows: Seq<FlowRecord>,
    min_coverage_ratio: Double,
    exclude_fields: u8,
    a: Candidate,
    b: Candidate,
)
    requires
        is_best(flows, min_coverage_ratio, exclude_fields, a),
        is_best(flows, min_coverage_ratio, exclude_fields, b),
    ensures
        a == b,
{
    if a != b {
        assert(preferred(flows, a, b));
        assert(preferred(flows, b, a));
        lemma_one_is_seen_first(keys(flows, a.fields), a.key(), b.key());
    }
}

spec fn is_listed(sets: Seq<FieldSet>, k: int, fields: FieldSet) -> bool {
    exists|i: int| 0 <= i < k && #[trigger] sets[i] == fields
}

/// Whether a candidate is among those of the first `k` field sets and the first `g` groups of
/// the next one.
spec fn is_reached(
    sets: Seq<FieldSet>,
    k: int,
    groups: Seq<(GroupKey, u128)>,
    g: int,
    candidate: Candidate,
) -> bool {
    is_listed(sets, k, candidate.fields) || (candidate.fields == sets[k] && is_tallied(
        groups.take(g),
        candidate.key(),
    ))
}

spec fn is_best_reached(
    best: Option<(Candidate, Double)>,
    flows: Seq<FlowRecord>,
    min_coverage_ratio: Double,
    exclude_fields: u8,
    sets: Seq<FieldSet>,
    k: int,
    groups: Seq<(GroupKey, u128)>,
    g: int,
) -> bool {
    match best {
        Some((c, s)) => {
            &&& s == score(flows, c)
            &&& is_option(flows, min_coverage_ratio, exclude_fields, c)
            &&& is_reached(sets, k, groups, g, c)
            &&& forall|d: Candidate|
                d != c && is_reached(sets, k, groups, g, d) && #[trigger] is_option(
                    flows,
                    min_coverage_ratio,
                    exclude_fields,
                    d,
                ) ==> preferred(flows, c, d)
        },
        None => forall|d: Candidate|
            is_reached(sets, k, groups, g, d) ==> !#[trigger] is_option(
                flows,
                min_coverage_ratio,
                exclude_fields,
                d,
            ),
    }
}

/// With one more group, one more candidate is reached.
proof fn lemma_one_more_reached(
    sets: Seq<FieldSet>,
    k: int,
    groups: Seq<(GroupKey, u128)>,
    g: int,
    d: Candidate,
)
    requires
        0 <= g < groups.len(),
    ensures
        is_reached(sets, k, groups, g + 1, d) <==> is_reached(sets, k, groups, g, d) || d
            == Candidate::of(sets[k], groups[g].0),
{
    let new = Candidate::of(sets[k], groups[g].0);
    let (shorter, longer) = (groups.take(g), groups.take(g + 1));
    assert(new.key() == groups[g].0);
    if is_reached(sets, k, groups, g + 1, d) && !is_listed(sets, k, d.fields) {
        let i = choose|i: int| 0 <= i < longer.len() && (#[trigger] longer[i]).0 == d.key();
        if i < g {
            assert(shorter[i].0 == d.key());
        } else {
            assert(d == new);
        }
    }
    if is_reached(sets, k, groups, g, d) && !is_listed(sets, k, d.fields) {
        let i = choose|i: int| 0 <= i < shorter.len() && (#[trigger] shorter[i]).0 == d.key();
        assert(longer[i].0 == d.key());
    }
    if d == new {
        assert(longer[g].0 == d.key());
    }
}

/// What is reached comes before the candidate of the next group.
proof fn lemma_reached_is_earlier(
    flows: Seq<FlowRecord>,
    sets: Seq<FieldSet>,
    k: int,
    groups: Seq<(GroupKey, u128)>,
    g: int,
    c: Candidate,
)
    requires
        0 <= k < sets.len(),
        0 <= g < groups.len(),
        forall|i: int, j: int|
            0 <= i < j < sets.len() ==> (#[trigger] sets[i]).before(#[trigger] sets[j]),
        tallied(groups, keys(flows, sets[k]), flows, flows.len() as int),
        is_reached(sets, k, groups, g, c),
    ensures
        earlier(flows, c, Candidate::of(sets[k], groups[g].0)),
{
    assert(Candidate::of(sets[k], groups[g].0).key() == groups[g].0);
    if is_listed(sets, k, c.fields) {
        let i = choose|i: int| 0 <= i < k && #[trigger] sets[i] == c.fields;
        assert(sets[i].before(sets[k]));
    } else {
        let shorter = groups.take(g);
        let i = choose|i: int| 0 <= i < shorter.len() && (#[trigger] shorter[i]).0 == c.key();
        assert(groups[i].0 == c.key());
        assert(seen_first(keys(flows, sets[k]), groups[i].0, groups[g].0));
    }
}

/// What scores higher than a candidate is preferred to all that the candidate is preferred to.
proof fn lemma_higher_score_wins(
    flows: Seq<FlowRecord>,
    c: Candidate,
    new: Candidate,
    d: Candidate,
)
    requires
        score(flows, c).less(score(flows, new)),
        d == c || preferred(flows, c, d),
    ensures
        preferred(flows, new, d),
{
    lemma_score_is_number(flows, d);
}

/// One more group is reached: the best candidate changes where the new one scores higher.
proof fn lemma_best_step(
    best: Option<(Candidate, Double)>,
    flows: Seq<FlowRecord>,
    min_coverage_ratio: Double,
    exclude_fields: u8,
    sets: Seq<FieldSet>,
    k: int,
    groups: Seq<(GroupKey, u128)>,
    g: int,
)
    requires
        0 <= k < sets.len(),
        0 <= g < groups.len(),
        forall|i: int, j: int|
            0 <= i < j < sets.len() ==> (#[trigger] sets[i]).before(#[trigger] sets[j]),
        sets[k].is_choice(exclude_fields),
        tallied(groups, keys(flows, sets[k]), flows, flows.len() as int),
        is_best_reached(
            best,
            flows,
            min_coverage_ratio,
            exclude_fields,
            sets,
            k,
            groups,
            g,
        ),
    ensures
        ({
            let new = Candidate::of(sets[k], groups[g].0);
            let next = if coverage(flows, new).less(min_coverage_ratio) {
                best
            } else if best is None || best->Some_0.1.less(score(flows, new)) {
                Some((new, score(flows, new)))
            } else {
                best
            };
            is_best_reached(
                next,
                flows,
                min_coverage_ratio,
                exclude_fields,
                sets,
                k,
                groups,
                g + 1,
            )
        }),
{
    let new = Candidate::of(sets[k], groups[g].0);
    let labels = keys(flows, sets[k]);
    assert(new.key() == groups[g].0);
    assert forall|d: Candidate|
        #[trigger] is_reached(sets, k, groups, g + 1, d) <==> is_reached(sets, k, groups, g, d)
            || d == new by {
        lemma_one_more_reached(sets, k, groups, g, d);
    }
    assert(occurs_before(labels, groups[g].0, flows.len() as int));
    assert(labels.contains(Some(groups[g].0)));
    if !coverage(flows, new).less(min_coverage_ratio) {
        assert(is_option(flows, min_coverage_ratio, exclude_fields, new));
        if let Some((c, s)) = best {
            if s.less(score(flows, new)) {
                assert forall|d: Candidate|
                    d != new && is_reached(sets, k, groups, g + 1, d) && #[trigger] is_option(
                        flows,
                        min_coverage_ratio,
                        exclude_fields,
                        d,
                    ) implies preferred(flows, new, d) by {
                    lemma_higher_score_wins(flows, c, new, d);
                }
            } else {
                lemma_reached_is_earlier(flows, sets, k, groups, g, c);
            }
        }
    }
}

/// The groups of the flows by their values in some fields, in the order in which they are first
/// seen, and their bytes.
fn group_flows(flows: &Vec<FlowRecord>, fields: FieldSet) -> (groups: Vec<(GroupKey, u128)>)
    requires
        bytes_fit(flows@),
    ensures
        tallied(groups@, keys(flows@, fields), flows@, flows@.len() as int),
{
    let mut groups: Vec<(GroupKey, u128)> = Vec::new();
    let mut n: usize = 0;
    let ghost labels = keys(flows@, fields);
    while n < flows.len()
        invariant
            n <= flows@.len(),
            bytes_fit(flows@),
            labels == keys(flows@, fields),
            tallied(groups@, labels, flows@, n as int),
        decreases flows@.len() - n,
    {
        let bytes: u64 = flows[n].sampled_bytes();
        if let Some(key) = GroupKey::from_flow(&flows[n], fields) {
            let mut k: usize = 0;
            while k < groups.len() && groups[k].0 != key
                invariant
                    k <= groups@.len(),
                    forall|i: int| 0 <= i < k ==> (#[trigger] groups@[i]).0 != key,
                decreases groups@.len() - k,
            {
                k = k + 1;
            }
            if k < groups.len() {
                proof {
                    lemma_tally_adds(groups@, labels, flows@, n, k as int);
                }
                let sum: u128 = groups[k].1 + bytes as u128;
                groups.set(k, (key, sum));
            } else {
                proof {
                    lemma_tally_starts(groups@, labels, flows@, n, key);
                }
                groups.push((key, bytes as u128));
            }
        } else {
            proof {
                lemma_tally_skips(groups@, labels, flows@, n);
            }
        }
        n = n + 1;
    }
    groups
}

/// The best candidate, where there is one that may be suggested and the flows have bytes.
pub fn find_best_candidate(
    flows: &Vec<FlowRecord>,
    min_coverage_ratio: Double,
    exclude_fields: u8,
) -> (found: Option<Candidate>)
    requires
        bytes_fit(flows@),
    ensures
        found == best_candidate(flows@, min_coverage_ratio, exclude_fields),
{
    let total: u128 = total_bytes(flows);
    if total == 0 {
        return None;
    }
    let sets: Vec<FieldSet> = FieldSet::all_combinations(exclude_fields);
    let mut best: Option<(Candidate, Double)> = None;
    let mut k: usize = 0;
    let ghost none: Seq<(GroupKey, u128)> = Seq::empty();
    while k < sets.len()
        invariant
            k <= sets@.len(),
            bytes_fit(flows@),
            total == bytes_in(flows@),
            total > 0,
            none == Seq::<(GroupKey, u128)>::empty(),
            forall|i: int, j: int|
                0 <= i < j < sets@.len() ==> (#[trigger] sets@[i]).before(#[trigger] sets@[j]),
            forall|set: FieldSet|
                #[trigger] sets@.contains(set) <==> set.is_choice(exclude_fields),
            is_best_reached(
                best,
                flows@,
                min_coverage_ratio,
                exclude_fields,
                sets@,
                k as int,
                none,
                0,
            ),
        decreases sets@.len() - k,
    {
        let fields: FieldSet = sets[k];
        let groups: Vec<(GroupKey, u128)> = group_flows(flows, fields);
        let mut g: usize = 0;
        proof {
            assert(sets@.contains(sets@[k as int]));
            assert(none.take(0) =~= groups@.take(0));
            assert(flows@.take(flows@.len() as int) =~= flows@);
        }
        while g < groups.len()
            invariant
                g <= groups@.len(),
                k < sets@.len(),
                fields == sets@[k as int],
                fields.is_choice(exclude_fields),
                total == bytes_in(flows@),
                total > 0,
                flows@.take(flows@.len() as int) == flows@,
                forall|i: int, j: int|
                    0 <= i < j < sets@.len() ==> (#[trigger] sets@[i]).before(#[trigger] sets@[j]),
                tallied(groups@, keys(flows@, fields), flows@, flows@.len() as int),
                is_best_reached(
                    best,
                    flows@,
                    min_coverage_ratio,
                    exclude_fields,
                    sets@,
                    k as int,
                    groups@,
                    g as int,
                ),
            decreases groups@.len() - g,
        {
            let key: GroupKey = groups[g].0;
            let share: Double = Double::ratio(groups[g].1, total);
            let candidate: Candidate = Candidate {
                fields,
                src_ip: key.src_ip,
                dst_port: key.dst_port,
                src_port: key.src_port,
                protocol: key.protocol,
                tcp_flags: key.tcp_flags,
            };
            proof {
                assert(candidate == Candidate::of(fields, key));
                assert(candidate.key() == key);
                assert(share == coverage(flows@, candidate));
                lemma_best_step(
                    best,
                    flows@,
                    min_coverage_ratio,
                    exclude_fields,
                    sets@,
                    k as int,
                    groups@,
                    g as int,
                );
            }
            if !share.below(min_coverage_ratio) {
                let value: Double = share.times(weight_value(fields.count()));
                let dominated: bool = match best {
                    None => true,
                    Some((_, best_value)) => best_value.below(value),
                };
                if dominated {
                    best = Some((candidate, value));
                }
            }
            g = g + 1;
        }
        proof {
            lemma_groups_done(
                best,
                flows@,
                min_coverage_ratio,
                exclude_fields,
                sets@,
                k as int,
                groups@,
            );
        }
        k = k + 1;
    }
    proof {
        assert forall|d: Candidate|
            #[trigger] is_option(
                flows@,
                min_coverage_ratio,
                exclude_fields,
                d,
            ) implies is_reached(sets@, k as int, none, 0, d) by {
            assert(sets@.contains(d.fields));
            let i = choose|i: int| 0 <= i < sets@.len() && sets@[i] == d.fields;
            assert(sets@[i] == d.fields);
        }
        if let Some((c, _)) = best {
            assert(is_best(flows@, min_coverage_ratio, exclude_fields, c));
            lemma_best_unique(
                flows@,
                min_coverage_ratio,
                exclude_fields,
                c,
                best_candidate(flows@, min_coverage_ratio, exclude_fields)->Some_0,
            );
        }
    }
    match best {
        Some((candidate, _)) => Some(candidate),
        None => None,
    }
}

/// Once all groups of a field set are reached, so is each of its candidates.
proof fn lemma_groups_done(
    best: Option<(Candidate, Double)>,
    flows: Seq<FlowRecord>,
    min_coverage_ratio: Double,
    exclude_fields: u8,
    sets: Seq<FieldSet>,
    k: int,
    groups: Seq<(GroupKey, u128)>,
)
    requires
        0 <= k < sets.len(),
        tallied(groups, keys(flows, sets[k]), flows, flows.len() as int),
        is_best_reached(
            best,
            flows,
            min_coverage_ratio,
            exclude_fields,
            sets,
            k,
            groups,
            groups.len() as int,
        ),
    ensures
        is_best_reached(
            best,
            flows,
            min_coverage_ratio,
            exclude_fields,
            sets,
            k + 1,
            Seq::empty(),
            0,
        ),
{
    let none: Seq<(GroupKey, u128)> = Seq::empty();
    let labels = keys(flows, sets[k]);
    assert(groups.take(groups.len() as int) =~= groups);
    assert forall|d: Candidate|
        is_reached(sets, k + 1, none, 0, d) && #[trigger] is_option(
            flows,
            min_coverage_ratio,
            exclude_fields,
            d,
        ) implies is_reached(sets, k, groups, groups.len() as int, d) by {
        assert(none.take(0) =~= none);
        let i = choose|i: int| 0 <= i < k + 1 && #[trigger] sets[i] == d.fields;
        assert(sets[i] == d.fields);
        if i == k {
            let m = choose|m: int| 0 <= m < labels.len() && labels[m] == Some(d.key());
            assert(labels[m] == Some(d.key()));
            assert(is_tallied(groups, d.key()));
        }
    }
    if let Some((c, _)) = best {
        if is_listed(sets, k, c.fields) {
            let i = choose|i: int| 0 <= i < k && #[trigger] sets[i] == c.fields;
            assert(sets[i] == c.fields);
        } else {
            assert(sets[k] == c.fields);
        }
        assert(is_listed(sets, k + 1, c.fields));
    }
}


/// The IP protocol number of a category, or 0 where it has no single one.
pub open spec fn number_of(category: ProtocolCategory) -> u8 {
    match category {
        ProtocolCategory::Tcp => 6,
        ProtocolCategory::TcpSyn => 6,
        ProtocolCategory::Https => 6,
        ProtocolCategory::Udp => 17,
        ProtocolCategory::Icmp => 1,
        ProtocolCategory::Gre => 47,
        ProtocolCategory::Esp => 50,
        ProtocolCategory::Any => 0,
        ProtocolCategory::Dns => 0,
    }
}

/// The IP protocol number of a category, or 0 where it has no single one.
pub fn proto_number(category: ProtocolCategory) -> (n: u8)
    ensures
        n == number_of(category),
{
    match category {
        ProtocolCategory::Tcp | ProtocolCategory::TcpSyn | ProtocolCategory::Https => 6,
        ProtocolCategory::Udp => 17,
        ProtocolCategory::Icmp => 1,
        ProtocolCategory::Gre => 47,
        ProtocolCategory::Esp => 50,
        ProtocolCategory::Any | ProtocolCategory::Dns => 0,
    }
}

/// The name of an IP protocol: the usual one, or its number.
pub open spec fn protocol_text(protocol: u8) -> Seq<char> {
    if protocol == 1 {
        "icmp"@
    } else if protocol == 6 {
        "tcp"@
    } else if protocol == 17 {
        "udp"@
    } else if protocol == 47 {
        "gre"@
    } else if protocol == 50 {
        "esp"@
    } else if protocol == 58 {
        "icmp6"@
    } else {
        decimal_text(protocol as nat)
    }
}

/// The name of an IP protocol: the usual one, or its number.
pub fn protocol_name(protocol: u8) -> (name: String)
    ensures
        name@ == protocol_text(protocol),
{
    match protocol {
        1 => "icmp".to_owned(),
        6 => "tcp".to_owned(),
        17 => "udp".to_owned(),
        47 => "gre".to_owned(),
        50 => "esp".to_owned(),
        58 => "icmp6".to_owned(),
        n => decimal(n as u64),
    }
}

/// A name, where a flag is set.
pub open spec fn name_if(flags: u8, flag: u8, name: Seq<char>) -> Seq<Seq<char>> {
    if flags & flag != 0 {
        seq![name]
    } else {
        Seq::empty()
    }
}

/// The names of the TCP flags that are set, the lowest one first.
pub open spec fn flag_texts(flags: u8) -> Seq<Seq<char>> {
    name_if(flags, 0x01, "fin"@) + name_if(flags, 0x02, "syn"@) + name_if(flags, 0x04, "rst"@)
        + name_if(flags, 0x08, "psh"@) + name_if(flags, 0x10, "ack"@) + name_if(
        flags,
        0x20,
        "urg"@,
    )
}

fn push_name(names: &mut Vec<String>, flags: u8, flag: u8, name: &str)
    ensures
        texts(final(names)@) == texts(old(names)@) + name_if(flags, flag, name@),
{
    let ghost before = names@;
    if flags & flag != 0 {
        names.push(name.to_owned());
        assert(texts(names@) =~= texts(before).push(name@));
    }
    assert(texts(names@) =~= texts(before) + name_if(flags, flag, name@));
}

/// The names of the TCP flags that are set, the lowest one first.
pub fn tcp_flag_names(flags: u8) -> (names: Vec<String>)
    ensures
        texts(names@) == flag_texts(flags),
{
    let mut names: Vec<String> = Vec::new();
    assert(texts(names@) =~= Seq::<Seq<char>>::empty());
    push_name(&mut names, flags, 0x01, "fin");
    push_name(&mut names, flags, 0x02, "syn");
    push_name(&mut names, flags, 0x04, "rst");
    push_name(&mut names, flags, 0x08, "psh");
    push_name(&mut names, flags, 0x10, "ack");
    push_name(&mut names, flags, 0x20, "urg");
    assert(texts(names@) =~= flag_texts(flags));
    names
}

/// The protocols that a rule for a category names where its candidate names none: that of the
/// category, or both that name lookups use. Traffic of any kind has none.
pub open spec fn forced_protocols(category: ProtocolCategory) -> Seq<Seq<char>> {
    match category {
        ProtocolCategory::Any => Seq::empty(),
        ProtocolCategory::Dns => seq!["tcp"@, "udp"@],
        _ => seq![protocol_text(number_of(category))],
    }
}

/// The protocols that a rule for a category names where its candidate names none.
pub fn forced_protocol_names(category: ProtocolCategory) -> (names: Vec<String>)
    ensures
        texts(names@) == forced_protocols(category),
{
    let mut names: Vec<String> = Vec::new();
    match category {
        ProtocolCategory::Any => {},
        ProtocolCategory::Dns => {
            names.push("tcp".to_owned());
            names.push("udp".to_owned());
        },
        _ => names.push(protocol_name(proto_number(category))),
    }
    assert(texts(names@) =~= forced_protocols(category));
    names
}

/// The destination port that each rule for a category names, where the category has one.
pub open spec fn forced_port(category: ProtocolCategory) -> Option<u16> {
    match category {
        ProtocolCategory::Dns => Some(53),
        ProtocolCategory::Https => Some(443),
        _ => None,
    }
}

/// The fields that have one value in all flows of a category.
pub open spec fn forced_fields(category: ProtocolCategory) -> u8 {
    (if number_of(category) != 0 {
        PROTOCOL
    } else {
        0u8
    }) | (if forced_port(category) is Some {
        DST_PORT
    } else {
        0u8
    })
}

/// The text of the prefix that holds an address alone.
pub open spec fn host_prefix_text(ip: IpAddr) -> Seq<char> {
    text_of_prefix(ip.host_prefix())
}

/// The rule for a candidate. The flows that remain decide whether it aims at one host. Inbound
/// traffic comes from the source and goes to the watched prefix; for outbound traffic the two
/// change places.
pub open spec fn rule_for(
    candidate: Candidate,
    remaining: Seq<FlowRecord>,
    prefix: Prefix,
    direction: Direction,
    category: ProtocolCategory,
) -> RuleText {
    let target = text_of_prefix(
        destination(remaining, direction, prefix, Double { bits: DOMINANT }),
    );
    let flags = match candidate.tcp_flags {
        Some(flags) => flag_texts(flags),
        None => Seq::empty(),
    };
    RuleText {
        source_prefix: match direction {
            Direction::Inbound => match candidate.src_ip {
                Some(ip) => Some(host_prefix_text(ip)),
                None => None,
            },
            Direction::Outbound => Some(target),
        },
        destination_prefix: match direction {
            Direction::Inbound => target,
            Direction::Outbound => match candidate.src_ip {
                Some(ip) => host_prefix_text(ip),
                None => text_of_prefix(prefix),
            },
        },
        destination_ports: match candidate.dst_port {
            Some(port) => if port != 0 {
                seq![port]
            } else {
                Seq::empty()
            },
            None => match forced_port(category) {
                Some(port) => seq![port],
                None => Seq::empty(),
            },
        },
        source_ports: match candidate.src_port {
            Some(port) => if port != 0 {
                seq![port]
            } else {
                Seq::empty()
            },
            None => Seq::empty(),
        },
        protocols: match candidate.protocol {
            Some(protocol) => seq![protocol_text(protocol)],
            None => forced_protocols(category),
        },
        tcp_flags: if category == ProtocolCategory::TcpSyn && flags.len() == 0 {
            seq!["syn"@]
        } else {
            flags
        },
    }
}

/// The flows of a category.
pub open spec fn of_category(flows: Seq<FlowRecord>, category: ProtocolCategory) -> Seq<
    FlowRecord,
> {
    flows.filter(
        |flow: FlowRecord|
            in_category(category, flow.protocol, flow.tcp_flags, flow.dst_port),
    )
}

/// The flows that a candidate does not cover.
pub open spec fn uncovered(flows: Seq<FlowRecord>, candidate: Candidate) -> Seq<FlowRecord> {
    flows.filter(|flow: FlowRecord| !candidate.covers(flow))
}

/// Whether the rate that remains is estimated to lie below the threshold: the current rate, cut
/// down to the share of the remaining flows in all `total` bytes.
pub open spec fn is_calm(
    remaining: Seq<FlowRecord>,
    total: nat,
    current_rate: Double,
    threshold: Double,
) -> bool {
    &&& total > 0
    &&& (Double { bits: 0 }).less(threshold)
    &&& product_of(current_rate, ratio_of(bytes_in(remaining), total)).less(threshold)
}

/// What is suggested for the flows that remain, with at most `rounds` rules: the rule of the best
/// candidate, and then what is suggested for the flows that it does not cover. Nothing more is
/// suggested once no flow remains, the remaining rate is estimated to lie below the threshold, or
/// there is no candidate.
pub open spec fn rules_for(
    remaining: Seq<FlowRecord>,
    total: nat,
    prefix: Prefix,
    direction: Direction,
    category: ProtocolCategory,
    current_rate: Double,
    threshold: Double,
    rounds: nat,
) -> Seq<RuleText>
    decreases rounds,
{
    if rounds == 0 || remaining.len() == 0 || is_calm(remaining, total, current_rate, threshold) {
        Seq::empty()
    } else {
        match best_candidate(remaining, Double { bits: MIN_COVERAGE }, forced_fields(category)) {
            None => Seq::empty(),
            Some(candidate) => seq![
                rule_for(candidate, remaining, prefix, direction, category),
            ] + rules_for(
                uncovered(remaining, candidate),
                total,
                prefix,
                direction,
                category,
                current_rate,
                threshold,
                (rounds - 1) as nat,
            ),
        }
    }
}

/// What is suggested for captured flows: only those of the alert's category count.
pub open spec fn suggested(
    flows: Seq<FlowRecord>,
    prefix: Prefix,
    direction: Direction,
    category: ProtocolCategory,
    current_rate: Double,
    threshold: Double,
) -> Seq<RuleText> {
    let chosen = of_category(flows, category);
    rules_for(
        chosen,
        bytes_in(chosen),
        prefix,
        direction,
        category,
        current_rate,
        threshold,
        MAX_RULES as nat,
    )
}

/// What the rules of a list say.
pub open spec fn rule_texts(rules: Seq<MitigationRule>) -> Seq<RuleText> {
    rules.map_values(|rule: MitigationRule| rule@)
}

/// Where the bytes of all flows fit, so do those of the flows of a category.
pub(crate) proof fn lemma_category_fits(flows: Seq<FlowRecord>, category: ProtocolCategory)
    requires
        bytes_fit(flows),
    ensures
        bytes_fit(of_category(flows, category)),
    decreases flows.len(),
{
    reveal(Seq::filter);
    if flows.len() > 0 {
        assert(bytes_fit(flows.drop_last()));
        lemma_category_fits(flows.drop_last(), category);
        assert(flows.last() == flows[flows.len() - 1]);
    }
}

/// The flows of a category.
fn select_category(flows: &[FlowRecord], category: ProtocolCategory) -> (chosen: Vec<FlowRecord>)
    ensures
        chosen@ == of_category(flows@, category),
{
    let mut chosen: Vec<FlowRecord> = Vec::new();
    let mut n: usize = 0;
    proof {
        reveal(Seq::filter);
        assert(flows@.take(0) =~= Seq::empty());
    }
    while n < flows.len()
        invariant
            n <= flows@.len(),
            chosen@ == of_category(flows@.take(n as int), category),
        decreases flows@.len() - n,
    {
        let flow: FlowRecord = flows[n];
        let found: Vec<ProtocolCategory> = ProtocolCategory::classify(
            flow.protocol,
            flow.tcp_flags,
            flow.dst_port,
        );
        proof {
            reveal(Seq::filter);
            assert(flows@.take(n + 1).drop_last() =~= flows@.take(n as int));
            assert(flows@.take(n + 1).last() == flow);
            categories_are_exact(flow.protocol, flow.tcp_flags, flow.dst_port, category);
        }
        if has_category(&found, category) {
            chosen.push(flow);
        }
        n = n + 1;
    }
    assert(flows@.take(n as int) =~= flows@);
    chosen
}

/// The flows that a candidate does not cover.
fn remove_covered(flows: &Vec<FlowRecord>, candidate: &Candidate) -> (kept: Vec<FlowRecord>)
    requires
        bytes_fit(flows@),
    ensures
        kept@ == uncovered(flows@, *candidate),
        bytes_fit(kept@),
{
    let mut kept: Vec<FlowRecord> = Vec::new();
    let mut n: usize = 0;
    proof {
        reveal(Seq::filter);
        assert(flows@.take(0) =~= Seq::empty());
    }
    while n < flows.len()
        invariant
            n <= flows@.len(),
            bytes_fit(flows@),
            kept@ == uncovered(flows@.take(n as int), *candidate),
            bytes_fit(kept@),
        decreases flows@.len() - n,
    {
        let flow: FlowRecord = flows[n];
        proof {
            reveal(Seq::filter);
            assert(flows@.take(n + 1).drop_last() =~= flows@.take(n as int));
            assert(flows@.take(n + 1).last() == flow);
        }
        if !candidate.matches(&flow) {
            kept.push(flow);
        }
        n = n + 1;
    }
    assert(flows@.take(n as int) =~= flows@);
    kept
}

/// The rule for a candidate.
fn build_rule(
    candidate: &Candidate,
    remaining: &Vec<FlowRecord>,
    prefix: Prefix,
    direction: Direction,
    category: ProtocolCategory,
) -> (rule: MitigationRule)
    requires
        bytes_fit(remaining@),
        prefix.valid(),
    ensures
        rule@ == rule_for(*candidate, remaining@, prefix, direction, category),
{
    let target: Prefix = compute_destination_prefix(
        remaining,
        direction,
        prefix,
        Double::from_bits(DOMINANT),
    );
    let target_text: String = prefix_text(&target);
    let source: Option<String> = match candidate.src_ip {
        Some(ip) => Some(host_text(&ip)),
        None => None,
    };
    let (source_prefix, destination_prefix): (Option<String>, String) = match direction {
        Direction::Inbound => (source, target_text),
        Direction::Outbound => (
            Some(target_text),
            match source {
                Some(text) => text,
                None => prefix_text(&prefix),
            },
        ),
    };
    let mut destination_ports: Vec<u16> = Vec::new();
    if let Some(port) = candidate.dst_port {
        if port != 0 {
            destination_ports.push(port);
        }
    } else {
        match category {
            ProtocolCategory::Dns => destination_ports.push(53),
            ProtocolCategory::Https => destination_ports.push(443),
            _ => {},
        }
    }
    let mut source_ports: Vec<u16> = Vec::new();
    if let Some(port) = candidate.src_port {
        if port != 0 {
            source_ports.push(port);
        }
    }
    let protocols: Vec<String> = match candidate.protocol {
        Some(protocol) => {
            let mut names: Vec<String> = Vec::new();
            names.push(protocol_name(protocol));
            names
        },
        None => forced_protocol_names(category),
    };
    let mut tcp_flags: Vec<String> = match candidate.tcp_flags {
        Some(flags) => tcp_flag_names(flags),
        None => Vec::new(),
    };
    if category == ProtocolCategory::TcpSyn && tcp_flags.len() == 0 {
        tcp_flags.push("syn".to_owned());
    }
    let rule: MitigationRule = MitigationRule {
        source_prefix,
        destination_prefix,
        destination_ports,
        source_ports,
        protocols,
        tcp_flags,
    };
    proof {
        let expected = rule_for(*candidate, remaining@, prefix, direction, category);
        assert(rule@.destination_ports =~= expected.destination_ports);
        assert(rule@.source_ports =~= expected.source_ports);
        assert(rule@.protocols =~= expected.protocols);
        assert(rule@.tcp_flags =~= expected.tcp_flags);
    }
    rule
}

/// Analyzes captured flows and suggests filter rules for the traffic of an alert: again and again
/// the best pattern is turned into a rule and the flows that it covers are set aside, until the
/// rate that remains is estimated to lie below the threshold. Where the alert is not for traffic of
/// any kind, only the flows of its category count, and each rule names the category's protocol.
pub fn analyze_flows(
    flows: &[FlowRecord],
    dest_prefix: Prefix,
    direction: Direction,
    protocol_filter: ProtocolCategory,
    current_rate: Double,
    threshold: Double,
) -> (rules: Vec<MitigationRule>)
    requires
        bytes_fit(of_category(flows@, protocol_filter)),
        dest_prefix.valid(),
    ensures
        rule_texts(rules@) == suggested(
            flows@,
            dest_prefix,
            direction,
            protocol_filter,
            current_rate,
            threshold,
        ),
{
    let mut remaining: Vec<FlowRecord> = select_category(flows, protocol_filter);
    let total: u128 = total_bytes(&remaining);
    let protocol_field: u8 = if proto_number(protocol_filter) != 0 { PROTOCOL } else { 0 };
    let port_field: u8 = match protocol_filter {
        ProtocolCategory::Dns | ProtocolCategory::Https => DST_PORT,
        _ => 0,
    };
    let exclude_fields: u8 = protocol_field | port_field;
    let mut rules: Vec<MitigationRule> = Vec::new();
    let mut round: usize = 0;
    let ghost all = suggested(
        flows@,
        dest_prefix,
        direction,
        protocol_filter,
        current_rate,
        threshold,
    );
    let ghost sum = bytes_in(remaining@);
    assert(rule_texts(rules@) =~= Seq::<RuleText>::empty());
    assert(all =~= Seq::<RuleText>::empty() + all);
    while round < MAX_RULES
        invariant
            round <= MAX_RULES,
            bytes_fit(remaining@),
            dest_prefix.valid(),
            total == sum,
            exclude_fields == forced_fields(protocol_filter),
            all == rule_texts(rules@) + rules_for(
                remaining@,
                sum,
                dest_prefix,
                direction,
                protocol_filter,
                current_rate,
                threshold,
                (MAX_RULES - round) as nat,
            ),
            all == suggested(
                flows@,
                dest_prefix,
                direction,
                protocol_filter,
                current_rate,
                threshold,
            ),
        decreases MAX_RULES - round,
    {
        if remaining.len() == 0 {
            assert(all =~= rule_texts(rules@));
            return rules;
        }
        if total > 0 && Double::from_bits(0).below(threshold) {
            let rest: u128 = total_bytes(&remaining);
            let estimate: Double = current_rate.times(Double::ratio(rest, total));
            if estimate.below(threshold) {
                assert(all =~= rule_texts(rules@));
                return rules;
            }
        }
        let found: Option<Candidate> = find_best_candidate(
            &remaining,
            Double::from_bits(MIN_COVERAGE),
            exclude_fields,
        );
        match found {
            None => {
                assert(all =~= rule_texts(rules@));
                return rules;
            },
            Some(candidate) => {
                let rule: MitigationRule = build_rule(
                    &candidate,
                    &remaining,
                    dest_prefix,
                    direction,
                    protocol_filter,
                );
                let ghost before = rules@;
                let ghost text = rule@;
                rules.push(rule);
                remaining = remove_covered(&remaining, &candidate);
                proof {
                    assert(rule_texts(rules@) =~= rule_texts(before) + seq![text]);
                    let rest = rules_for(
                        remaining@,
                        sum,
                        dest_prefix,
                        direction,
                        protocol_filter,
                        current_rate,
                        threshold,
                        (MAX_RULES - round - 1) as nat,
                    );
                    assert(rule_texts(before) + (seq![text] + rest) =~= rule_texts(before) + seq![
                        text,
                    ] + rest);
                }
            },
        }
        round = round + 1;
    }
    assert(all =~= rule_texts(rules@));
    rules
}

} // verus!
