//! Traffic counts of the last seconds, one bucket per second.

use crate::double::{
    double_of, nothing_is_no_part, product_of, quotient_of, ratio_of, Double, EIGHT,
};
use vstd::arithmetic::div_mod::*;
use vstd::prelude::*;

verus! {

/// What was counted in one second.
#[derive(Clone, Copy, Debug, PartialEq, Eq, Structural)]
pub struct Bucket {
    pub timestamp: u64,
    pub bytes: u64,
    pub packets: u64,
    pub flows: u64,
}

/// The three things that are counted.
pub enum Counter {
    Bytes,
    Packets,
    Flows,
}

impl Bucket {
    /// The bucket of a second in which nothing was counted.
    pub open spec fn empty(timestamp: u64) -> Bucket {
        Bucket { timestamp, bytes: 0, packets: 0, flows: 0 }
    }

    /// One of the three counts.
    pub open spec fn count(self, counter: Counter) -> nat {
        match counter {
            Counter::Bytes => self.bytes as nat,
            Counter::Packets => self.packets as nat,
            Counter::Flows => self.flows as nat,
        }
    }

    /// This bucket where it is that of `timestamp`, otherwise the empty bucket of `timestamp`.
    pub open spec fn at(self, timestamp: u64) -> Bucket {
        if self.timestamp == timestamp {
            self
        } else {
            Bucket::empty(timestamp)
        }
    }

    /// Whether one more flow can be counted in this bucket.
    pub open spec fn has_room(self, bytes: u64, packets: u64) -> bool {
        self.bytes + bytes <= u64::MAX && self.packets + packets <= u64::MAX && self.flows
            < u64::MAX
    }

    /// This bucket with one more flow.
    pub open spec fn plus(self, bytes: u64, packets: u64) -> Bucket {
        Bucket {
            timestamp: self.timestamp,
            bytes: (self.bytes + bytes) as u64,
            packets: (self.packets + packets) as u64,
            flows: (self.flows + 1) as u64,
        }
    }

    /// Makes this the empty bucket of `timestamp`.
    pub fn reset(&mut self, timestamp: u64)
        ensures
            *final(self) == Bucket::empty(timestamp),
    {
        self.timestamp = timestamp;
        self.bytes = 0;
        self.packets = 0;
        self.flows = 0;
    }
}

impl Default for Bucket {
    fn default() -> (bucket: Bucket)
        ensures
            bucket == Bucket::empty(0),
    {
        Bucket { timestamp: 0, bytes: 0, packets: 0, flows: 0 }
    }
}

/// The place of a second among `len` buckets.
pub open spec fn slot(len: nat, timestamp: u64) -> int {
    (timestamp as nat % len) as int
}

/// The buckets with one more flow.
pub open spec fn with_flow(
    buckets: Seq<Bucket>,
    timestamp: u64,
    bytes: u64,
    packets: u64,
) -> Seq<Bucket> {
    let i = slot(buckets.len(), timestamp);
    buckets.update(i, buckets[i].at(timestamp).plus(bytes, packets))
}

/// The second `ago` seconds before `now`, and no earlier than second 0.
pub open spec fn second_before(now: u64, ago: nat) -> u64 {
    if ago <= now {
        (now - ago) as u64
    } else {
        0
    }
}

/// Whether the bucket in the place of a second is that of the second.
pub open spec fn is_current(buckets: Seq<Bucket>, timestamp: u64) -> bool {
    buckets[slot(buckets.len(), timestamp)].timestamp == timestamp
}

/// What was counted in a second.
pub open spec fn counted_at(buckets: Seq<Bucket>, timestamp: u64, counter: Counter) -> nat {
    if is_current(buckets, timestamp) {
        buckets[slot(buckets.len(), timestamp)].count(counter)
    } else {
        0
    }
}

/// What was counted in the `n` seconds up to `now`.
pub open spec fn counted(buckets: Seq<Bucket>, now: u64, n: nat, counter: Counter) -> nat
    decreases n,
{
    if n == 0 {
        0
    } else {
        counted(buckets, now, (n - 1) as nat, counter) + counted_at(
            buckets,
            second_before(now, (n - 1) as nat),
            counter,
        )
    }
}

/// Whether any second of the window up to `now` has its bucket.
pub open spec fn any_current(buckets: Seq<Bucket>, now: u64) -> bool {
    exists|i: nat| i < buckets.len() && is_current(buckets, #[trigger] second_before(now, i))
}

/// The bits, packets and flows per second where so many bytes, packets and flows were counted in
/// the seconds of a window.
pub open spec fn means(bytes: nat, packets: nat, flows: nat, window: nat) -> (
    Double,
    Double,
    Double,
) {
    (
        quotient_of(product_of(double_of(bytes), Double { bits: EIGHT }), double_of(window)),
        ratio_of(packets, window),
        ratio_of(flows, window),
    )
}

/// The bits, packets and flows per second over the window up to `now`.
pub open spec fn rates(buckets: Seq<Bucket>, now: u64) -> (Double, Double, Double) {
    let window = buckets.len();
    if any_current(buckets, now) {
        means(
            counted(buckets, now, window, Counter::Bytes),
            counted(buckets, now, window, Counter::Packets),
            counted(buckets, now, window, Counter::Flows),
            window,
        )
    } else {
        (Double { bits: 0 }, Double { bits: 0 }, Double { bits: 0 })
    }
}

/// The buckets of a window of seconds.
#[derive(Clone, Debug)]
pub struct RingBuffer {
    buckets: Vec<Bucket>,
}

impl View for RingBuffer {
    type V = Seq<Bucket>;

    closed spec fn view(&self) -> Seq<Bucket> {
        self.buckets@
    }
}

impl RingBuffer {
    /// Empty buckets for a window of `window_secs` seconds.
    pub fn new(window_secs: usize) -> (buffer: RingBuffer)
        ensures
            buffer@ == Seq::new(window_secs as nat, |i: int| Bucket::empty(0)),
    {
        let mut buckets: Vec<Bucket> = Vec::new();
        while buckets.len() < window_secs
            invariant
                buckets@.len() <= window_secs,
                forall|i: int|
                    0 <= i < buckets@.len() ==> #[trigger] buckets@[i] == Bucket::empty(0),
            decreases window_secs - buckets@.len(),
        {
            buckets.push(Bucket::default());
        }
        let buffer: RingBuffer = RingBuffer { buckets };
        assert(buffer@ =~= Seq::new(window_secs as nat, |i: int| Bucket::empty(0)));
        buffer
    }

    /// The place of a second among the buckets.
    fn bucket_index(&self, timestamp: u64) -> (idx: usize)
        requires
            self@.len() > 0,
        ensures
            idx == slot(self@.len(), timestamp),
            idx < self@.len(),
    {
        proof {
            lemma_mod_bound(timestamp as int, self@.len() as int);
        }
        (timestamp % self.buckets.len() as u64) as usize
    }

    /// The bucket of a second, emptied first where it was that of another one.
    fn get_or_reset_bucket(&mut self, timestamp: u64) -> (bucket: &mut Bucket)
        requires
            old(self)@.len() > 0,
        ensures
            *bucket == old(self)@[slot(old(self)@.len(), timestamp)].at(timestamp),
            final(self)@ == old(self)@.update(slot(old(self)@.len(), timestamp), *final(bucket)),
    {
        let idx: usize = self.bucket_index(timestamp);
        let bucket: &mut Bucket = &mut self.buckets[idx];
        if bucket.timestamp != timestamp {
            bucket.reset(timestamp);
        }
        bucket
    }

    /// Whether one more flow can be counted in the bucket of a second.
    pub open spec fn has_room(self, timestamp: u64, bytes: u64, packets: u64) -> bool {
        self@.len() > 0 && self@[slot(self@.len(), timestamp)].at(timestamp).has_room(
            bytes,
            packets,
        )
    }

    /// Whether one more flow can be counted in the bucket of a second.
    pub fn room_for(&self, timestamp: u64, bytes: u64, packets: u64) -> (b: bool)
        ensures
            b == self.has_room(timestamp, bytes, packets),
    {
        if self.buckets.len() == 0 {
            return false;
        }
        let bucket: &Bucket = &self.buckets[self.bucket_index(timestamp)];
        bucket.timestamp != timestamp || (bytes <= u64::MAX - bucket.bytes && packets <= u64::MAX
            - bucket.packets && bucket.flows < u64::MAX)
    }

    /// Counts one flow in the bucket of a second.
    pub fn add_instant_flow(&mut self, timestamp: u64, bytes: u64, packets: u64)
        requires
            old(self).has_room(timestamp, bytes, packets),
        ensures
            final(self)@ == with_flow(old(self)@, timestamp, bytes, packets),
    {
        let bucket: &mut Bucket = self.get_or_reset_bucket(timestamp);
        bucket.bytes = bucket.bytes + bytes;
        bucket.packets = bucket.packets + packets;
        bucket.flows = bucket.flows + 1;
    }

    /// The bits, packets and flows per second over the window up to `current_time`.
    pub fn compute_rates(&self, current_time: u64) -> (result: (Double, Double, Double))
        ensures
            result == rates(self@, current_time),
    {
        let window: usize = self.buckets.len();
        let mut total_bytes: u128 = 0;
        let mut total_packets: u128 = 0;
        let mut total_flows: u128 = 0;
        let mut any: bool = false;
        let mut i: usize = 0;
        while i < window
            invariant
                window == self@.len(),
                i <= window,
                total_bytes == counted(self@, current_time, i as nat, Counter::Bytes),
                total_packets == counted(self@, current_time, i as nat, Counter::Packets),
                total_flows == counted(self@, current_time, i as nat, Counter::Flows),
                total_bytes <= i * u64::MAX,
                total_packets <= i * u64::MAX,
                total_flows <= i * u64::MAX,
                any <==> exists|j: nat|
                    j < i && is_current(self@, #[trigger] second_before(current_time, j)),
            decreases window - i,
        {
            let t: u64 = if i as u64 <= current_time { current_time - i as u64 } else { 0 };
            let bucket: &Bucket = &self.buckets[self.bucket_index(t)];
            assert(t == second_before(current_time, i as nat));
            assert((i + 1) * u64::MAX == i * u64::MAX + u64::MAX) by (nonlinear_arith);
            assert((i + 1) * u64::MAX <= 0xffff_ffff_ffff_ffff * u64::MAX) by (nonlinear_arith)
                requires
                    i + 1 <= 0xffff_ffff_ffff_ffff,
            ;
            if bucket.timestamp == t {
                total_bytes = total_bytes + bucket.bytes as u128;
                total_packets = total_packets + bucket.packets as u128;
                total_flows = total_flows + bucket.flows as u128;
                any = true;
            }
            i = i + 1;
        }
        if !any {
            return (Double::from_bits(0), Double::from_bits(0), Double::from_bits(0));
        }
        let secs: Double = Double::from_integer(window as u128);
        (
            Double::from_integer(total_bytes).eightfold().over(secs),
            Double::ratio(total_packets, window as u128),
            Double::ratio(total_flows, window as u128),
        )
    }
}

/// A flow that was counted: when, and how many bytes and packets.
pub struct Counted {
    pub timestamp: u64,
    pub bytes: u64,
    pub packets: u64,
}

impl Counted {
    /// What the flow adds to one of the three counts.
    pub open spec fn count(self, counter: Counter) -> nat {
        match counter {
            Counter::Bytes => self.bytes as nat,
            Counter::Packets => self.packets as nat,
            Counter::Flows => 1,
        }
    }
}

/// The buckets of a window of `len` seconds after some flows were counted, in their order.
pub open spec fn after_flows(len: nat, flows: Seq<Counted>) -> Seq<Bucket>
    decreases flows.len(),
{
    if flows.len() == 0 {
        Seq::new(len, |i: int| Bucket::empty(0))
    } else {
        let last = flows.last();
        with_flow(after_flows(len, flows.drop_last()), last.timestamp, last.bytes, last.packets)
    }
}

/// Whether there was room for each of the flows when it was counted.
pub open spec fn all_had_room(len: nat, flows: Seq<Counted>) -> bool
    decreases flows.len(),
{
    flows.len() > 0 ==> {
        let before = after_flows(len, flows.drop_last());
        let last = flows.last();
        &&& before[slot(len, last.timestamp)].at(last.timestamp).has_room(last.bytes, last.packets)
        &&& all_had_room(len, flows.drop_last())
    }
}

/// What the flows of the seconds from `from` to `to` add to a count.
pub open spec fn sum_between(flows: Seq<Counted>, from: int, to: int, counter: Counter) -> nat
    decreases flows.len(),
{
    if flows.len() == 0 {
        0
    } else {
        sum_between(flows.drop_last(), from, to, counter) + if from <= flows.last().timestamp
            <= to {
            flows.last().count(counter)
        } else {
            0
        }
    }
}

/// Where flows come in the order of their seconds, a window counts exactly the flows of its
/// seconds. It begins at second 0 or later: before that, second 0 would be counted more than once.
pub proof fn window_counts_its_flows(len: nat, flows: Seq<Counted>, now: u64, counter: Counter)
    requires
        0 < len <= now + 1,
        all_had_room(len, flows),
        forall|i: int, j: int|
            0 <= i <= j < flows.len() ==> (#[trigger] flows[i]).timestamp <= (
            #[trigger] flows[j]).timestamp,
        forall|i: int| 0 <= i < flows.len() ==> (#[trigger] flows[i]).timestamp <= now,
    ensures
        counted(after_flows(len, flows), now, len, counter) == sum_between(
            flows,
            now - len + 1,
            now as int,
            counter,
        ),
{
    lemma_window(len, flows, now, len, counter);
}

/// Where flows come in the order of their seconds, the rates are the means of the flows of the
/// window's seconds.
pub proof fn rates_are_those_of_the_flows(len: usize, flows: Seq<Counted>, now: u64)
    requires
        0 < len <= now + 1,
        all_had_room(len as nat, flows),
        forall|i: int, j: int|
            0 <= i <= j < flows.len() ==> (#[trigger] flows[i]).timestamp <= (
            #[trigger] flows[j]).timestamp,
        forall|i: int| 0 <= i < flows.len() ==> (#[trigger] flows[i]).timestamp <= now,
    ensures
        rates(after_flows(len as nat, flows), now) == means(
            sum_between(flows, now - len + 1, now as int, Counter::Bytes),
            sum_between(flows, now - len + 1, now as int, Counter::Packets),
            sum_between(flows, now - len + 1, now as int, Counter::Flows),
            len as nat,
        ),
{
    let n = len as nat;
    let buckets = after_flows(n, flows);
    lemma_after_len(n, flows);
    window_counts_its_flows(n, flows, now, Counter::Bytes);
    window_counts_its_flows(n, flows, now, Counter::Packets);
    window_counts_its_flows(n, flows, now, Counter::Flows);
    if !any_current(buckets, now) {
        lemma_nothing_current(buckets, now, n, Counter::Bytes);
        lemma_nothing_current(buckets, now, n, Counter::Packets);
        lemma_nothing_current(buckets, now, n, Counter::Flows);
        nothing_is_no_part(len as u128);
    }
}

pub(crate) proof fn lemma_nothing_current(buckets: Seq<Bucket>, now: u64, n: nat, counter: Counter)
    requires
        !any_current(buckets, now),
        n <= buckets.len(),
    ensures
        counted(buckets, now, n, counter) == 0,
    decreases n,
{
    if n > 0 {
        lemma_nothing_current(buckets, now, (n - 1) as nat, counter);
        assert(!is_current(buckets, second_before(now, (n - 1) as nat)));
    }
}

proof fn lemma_window(len: nat, flows: Seq<Counted>, now: u64, n: nat, counter: Counter)
    requires
        0 < len <= now + 1,
        n <= len,
        all_had_room(len, flows),
        forall|i: int, j: int|
            0 <= i <= j < flows.len() ==> (#[trigger] flows[i]).timestamp <= (
            #[trigger] flows[j]).timestamp,
        forall|i: int| 0 <= i < flows.len() ==> (#[trigger] flows[i]).timestamp <= now,
    ensures
        counted(after_flows(len, flows), now, n, counter) == sum_between(
            flows,
            now - n + 1,
            now as int,
            counter,
        ),
    decreases n,
{
    if n == 0 {
        lemma_sum_empty(flows, now + 1, now as int, counter);
    } else {
        lemma_window(len, flows, now, (n - 1) as nat, counter);
        let t = second_before(now, (n - 1) as nat);
        if flows.len() > 0 {
            assert(flows.last() == flows[flows.len() - 1]);
        }
        lemma_bucket(len, flows, t, counter);
        lemma_sum_splits(flows, now - n + 1, now as int, counter);
    }
}

proof fn lemma_sum_empty(flows: Seq<Counted>, from: int, to: int, counter: Counter)
    requires
        from > to,
    ensures
        sum_between(flows, from, to, counter) == 0,
    decreases flows.len(),
{
    if flows.len() > 0 {
        lemma_sum_empty(flows.drop_last(), from, to, counter);
    }
}

proof fn lemma_sum_splits(flows: Seq<Counted>, from: int, to: int, counter: Counter)
    requires
        from <= to,
    ensures
        sum_between(flows, from, to, counter) == sum_between(flows, from + 1, to, counter)
            + sum_between(flows, from, from, counter),
    decreases flows.len(),
{
    if flows.len() > 0 {
        lemma_sum_splits(flows.drop_last(), from, to, counter);
    }
}

proof fn lemma_sum_later(flows: Seq<Counted>, t: int, counter: Counter)
    requires
        forall|i: int| 0 <= i < flows.len() ==> (#[trigger] flows[i]).timestamp < t,
    ensures
        sum_between(flows, t, t, counter) == 0,
    decreases flows.len(),
{
    if flows.len() > 0 {
        assert(flows.last() == flows[flows.len() - 1]);
        assert forall|i: int| 0 <= i < flows.drop_last().len() implies (
        #[trigger] flows.drop_last()[i]).timestamp < t by {
            assert(flows.drop_last()[i] == flows[i]);
        }
        lemma_sum_later(flows.drop_last(), t, counter);
    }
}

proof fn lemma_after_len(len: nat, flows: Seq<Counted>)
    requires
        len > 0,
    ensures
        after_flows(len, flows).len() == len,
    decreases flows.len(),
{
    if flows.len() > 0 {
        lemma_after_len(len, flows.drop_last());
        lemma_mod_bound(flows.last().timestamp as int, len as int);
    }
}

/// A second that no later flow has pushed out of the window has its count in its bucket.
proof fn lemma_bucket(len: nat, flows: Seq<Counted>, t: u64, counter: Counter)
    requires
        len > 0,
        all_had_room(len, flows),
        forall|i: int, j: int|
            0 <= i <= j < flows.len() ==> (#[trigger] flows[i]).timestamp <= (
            #[trigger] flows[j]).timestamp,
        flows.len() > 0 ==> flows.last().timestamp < t + len,
    ensures
        counted_at(after_flows(len, flows), t, counter) == sum_between(
            flows,
            t as int,
            t as int,
            counter,
        ),
    decreases flows.len(),
{
    lemma_after_len(len, flows);
    lemma_mod_bound(t as int, len as int);
    if flows.len() > 0 {
        let earlier = flows.drop_last();
        let last = flows.last();
        lemma_after_len(len, earlier);
        assert forall|i: int, j: int| 0 <= i <= j < earlier.len() implies (
        #[trigger] earlier[i]).timestamp <= (#[trigger] earlier[j]).timestamp by {
            assert(flows[i].timestamp <= flows[j].timestamp);
        }
        if earlier.len() > 0 {
            assert(flows[earlier.len() - 1].timestamp <= flows[earlier.len() as int].timestamp);
        }
        lemma_bucket(len, earlier, t, counter);
        lemma_mod_bound(last.timestamp as int, len as int);
        if last.timestamp != t && slot(len, last.timestamp) == slot(len, t) {
            lemma_fundamental_div_mod(t as int, len as int);
            lemma_fundamental_div_mod(last.timestamp as int, len as int);
            let (a, b) = (t as int / len as int, last.timestamp as int / len as int);
            assert(a > b) by (nonlinear_arith)
                requires
                    len * a + t as int % len as int == t,
                    len * b + t as int % len as int == last.timestamp,
                    last.timestamp < t + len,
                    last.timestamp != t,
                    len > 0,
            ;
            assert(t > last.timestamp) by (nonlinear_arith)
                requires
                    len * a + t as int % len as int == t,
                    len * b + t as int % len as int == last.timestamp,
                    a > b,
                    len > 0,
            ;
            assert forall|i: int| 0 <= i < flows.len() implies (
            #[trigger] flows[i]).timestamp < t by {
                assert(flows[i].timestamp <= flows[flows.len() - 1].timestamp);
            }
            lemma_sum_later(flows, t as int, counter);
        }
    } else {
        assert(after_flows(len, flows)[slot(len, t)] == Bucket::empty(0));
    }
}

} // verus!
