//! What holds of the buckets and of the rates in every state of a buffer.

use crate::double::{double_of, nothing_is_no_part, product_of, quotient_of, Double};
use crate::ring_buffer::{
    any_current, counted, counted_at, is_current, lemma_nothing_current, second_before, slot,
    with_flow, Bucket, Counter, RingBuffer,
};
use vstd::arithmetic::div_mod::*;
use vstd::prelude::*;

verus! {

/// A new buffer has one bucket for each second of the window, and nothing is counted in any.
pub proof fn new_buffers_are_empty(window: usize, buffer: RingBuffer)
    requires
        call_ensures(RingBuffer::new, (window,), buffer),
    ensures
        buffer@.len() == window,
        forall|i: int|
            0 <= i < buffer@.len() ==> (#[trigger] buffer@[i]).timestamp == 0 && buffer@[i].bytes
                == 0 && buffer@[i].packets == 0 && buffer@[i].flows == 0,
{
}

/// A flow is counted in the bucket in the place of its second, whether it comes in order or late:
/// on top of what the bucket has of that second, and in place of what it has of another one. The
/// other buckets stay as they are.
pub proof fn a_flow_is_counted_in_its_second(
    buckets: Seq<Bucket>,
    timestamp: u64,
    bytes: u64,
    packets: u64,
    i: int,
)
    requires
        0 <= i < buckets.len(),
        i == timestamp as int % buckets.len() as int,
        buckets[i].timestamp == timestamp ==> buckets[i].bytes + bytes <= u64::MAX
            && buckets[i].packets + packets <= u64::MAX && buckets[i].flows < u64::MAX,
    ensures
        with_flow(buckets, timestamp, bytes, packets).len() == buckets.len(),
        with_flow(buckets, timestamp, bytes, packets)[i].timestamp == timestamp,
        buckets[i].timestamp == timestamp ==> {
            let bucket = with_flow(buckets, timestamp, bytes, packets)[i];
            &&& bucket.bytes == buckets[i].bytes + bytes
            &&& bucket.packets == buckets[i].packets + packets
            &&& bucket.flows == buckets[i].flows + 1
        },
        buckets[i].timestamp != timestamp ==> {
            let bucket = with_flow(buckets, timestamp, bytes, packets)[i];
            &&& bucket.bytes == bytes
            &&& bucket.packets == packets
            &&& bucket.flows == 1
        },
        forall|j: int|
            0 <= j < buckets.len() && j != i ==> with_flow(buckets, timestamp, bytes, packets)[j]
                == #[trigger] buckets[j],
{
}

/// There is room for a flow exactly where the sums of its second stay below two to the power of
/// 64.
pub proof fn room_is_for_sums_that_fit(
    buffer: RingBuffer,
    timestamp: u64,
    bytes: u64,
    packets: u64,
    room: bool,
    i: int,
)
    requires
        call_ensures(RingBuffer::room_for, (&buffer, timestamp, bytes, packets), room),
        0 <= i < buffer@.len(),
        i == timestamp as int % buffer@.len() as int,
    ensures
        room <==> {
            ||| buffer@[i].timestamp != timestamp
            ||| {
                &&& buffer@[i].bytes + bytes <= u64::MAX
                &&& buffer@[i].packets + packets <= u64::MAX
                &&& buffer@[i].flows < u64::MAX
            }
        },
{
}

/// Only the buckets of the window's seconds count: where two buffers differ in others alone, older
/// or newer, they have the same rates.
pub proof fn other_seconds_do_not_count(
    one: RingBuffer,
    other: RingBuffer,
    now: u64,
    rates: (Double, Double, Double),
    other_rates: (Double, Double, Double),
)
    requires
        one@.len() == other@.len(),
        forall|i: int|
            0 <= i < one@.len() && #[trigger] one@[i] != other@[i] ==> !(now - one@.len()
                < one@[i].timestamp <= now) && !(now - one@.len() < other@[i].timestamp <= now),
        call_ensures(RingBuffer::compute_rates, (&one, now), rates),
        call_ensures(RingBuffer::compute_rates, (&other, now), other_rates),
    ensures
        rates == other_rates,
{
    let (a, b) = (one@, other@);
    assert forall|ago: nat| ago < a.len() implies is_current(
        a,
        #[trigger] second_before(now, ago),
    ) == is_current(b, second_before(now, ago)) && (is_current(a, second_before(now, ago)) ==> a[slot(
        a.len(),
        second_before(now, ago),
    )] == b[slot(b.len(), second_before(now, ago))]) by {
        let t = second_before(now, ago);
        lemma_mod_bound(t as int, a.len() as int);
        let i = slot(a.len(), t);
        assert(now - a.len() < t <= now);
        assert(a[i] == b[i] || a[i] != b[i]);
    }
    assert(any_current(a, now) == any_current(b, now)) by {
        if any_current(a, now) {
            let i = choose|i: nat| i < a.len() && is_current(a, #[trigger] second_before(now, i));
            assert(is_current(b, second_before(now, i)));
        }
        if any_current(b, now) {
            let i = choose|i: nat| i < b.len() && is_current(b, #[trigger] second_before(now, i));
            assert(is_current(a, second_before(now, i)));
        }
    }
    lemma_same_counts(a, b, now, a.len(), Counter::Bytes);
    lemma_same_counts(a, b, now, a.len(), Counter::Packets);
    lemma_same_counts(a, b, now, a.len(), Counter::Flows);
}

proof fn lemma_same_counts(a: Seq<Bucket>, b: Seq<Bucket>, now: u64, n: nat, counter: Counter)
    requires
        a.len() == b.len(),
        n <= a.len(),
        forall|ago: nat|
            ago < a.len() ==> counted_at(a, #[trigger] second_before(now, ago), counter)
                == counted_at(b, second_before(now, ago), counter),
    ensures
        counted(a, now, n, counter) == counted(b, now, n, counter),
    decreases n,
{
    if n > 0 {
        let m = (n - 1) as nat;
        lemma_same_counts(a, b, now, m, counter);
        assert(counted_at(a, second_before(now, m), counter) == counted_at(
            b,
            second_before(now, m),
            counter,
        ));
    }
}

/// What the bucket in the place of a second has of the three counts, where it is that of the
/// second.
pub open spec fn share(buckets: Seq<Bucket>, second: int, counter: Counter) -> nat {
    let bucket = buckets[second % buckets.len() as int];
    if bucket.timestamp != second {
        0
    } else {
        match counter {
            Counter::Bytes => bucket.bytes as nat,
            Counter::Packets => bucket.packets as nat,
            Counter::Flows => bucket.flows as nat,
        }
    }
}

/// What the buckets of the seconds from `from` up to, but without, `to` have.
pub open spec fn shares(buckets: Seq<Bucket>, from: int, to: int, counter: Counter) -> nat
    decreases to - from,
{
    if from >= to {
        0
    } else {
        shares(buckets, from + 1, to, counter) + share(buckets, from, counter)
    }
}

/// What is counted in the `n` seconds up to `now`, in any state of the buckets.
proof fn lemma_counted_is_shares(buckets: Seq<Bucket>, now: u64, n: nat, counter: Counter)
    requires
        0 < buckets.len(),
        n <= buckets.len(),
    ensures
        n <= now + 1 ==> counted(buckets, now, n, counter) == shares(
            buckets,
            now - n + 1,
            now + 1,
            counter,
        ),
        n > now + 1 ==> counted(buckets, now, n, counter) == shares(buckets, 0, now + 1, counter)
            + ((n - now - 1) as nat) * share(buckets, 0, counter),
    decreases n,
{
    if n > 0 {
        let m = (n - 1) as nat;
        lemma_counted_is_shares(buckets, now, m, counter);
        let t = second_before(now, m);
        assert(counted_at(buckets, t, counter) == share(buckets, t as int, counter));
        if n > now + 1 {
            let (k, one) = ((m - now - 1) as nat, share(buckets, 0, counter));
            assert((k + 1) * one == k * one + one) by (nonlinear_arith);
            assert(m == now + 1 ==> k * one == 0) by (nonlinear_arith)
                requires
                    m == now + 1 ==> k == 0,
            ;
        }
    }
}

/// The rates are eight times the bytes, the packets and the flows of the window's seconds, each
/// divided by the number of its seconds. Where the window reaches back before second 0, that
/// second stands for those before it too.
pub proof fn rates_are_means_over_the_window(
    buffer: RingBuffer,
    now: u64,
    rates: (Double, Double, Double),
)
    requires
        0 < buffer@.len() <= u64::MAX,
        call_ensures(RingBuffer::compute_rates, (&buffer, now), rates),
    ensures
        ({
            let len = buffer@.len();
            let from = if len <= now + 1 { now - len + 1 } else { 0 };
            let again = (if len <= now + 1 { 0 } else { (len - now - 1) as nat });
            let bytes = shares(buffer@, from, now + 1, Counter::Bytes) + again * share(
                buffer@,
                0,
                Counter::Bytes,
            );
            let packets = shares(buffer@, from, now + 1, Counter::Packets) + again * share(
                buffer@,
                0,
                Counter::Packets,
            );
            let flows = shares(buffer@, from, now + 1, Counter::Flows) + again * share(
                buffer@,
                0,
                Counter::Flows,
            );
            &&& rates.0 == quotient_of(
                product_of(double_of(bytes), (Double { bits: 0x4020_0000_0000_0000 })),
                double_of(len),
            )
            &&& rates.1 == quotient_of(double_of(packets), double_of(len))
            &&& rates.2 == quotient_of(double_of(flows), double_of(len))
        }),
{
    let len = buffer@.len();
    lemma_counted_is_shares(buffer@, now, len, Counter::Bytes);
    lemma_counted_is_shares(buffer@, now, len, Counter::Packets);
    lemma_counted_is_shares(buffer@, now, len, Counter::Flows);
    if !any_current(buffer@, now) {
        lemma_nothing_current(buffer@, now, len, Counter::Bytes);
        lemma_nothing_current(buffer@, now, len, Counter::Packets);
        lemma_nothing_current(buffer@, now, len, Counter::Flows);
        nothing_is_no_part(len as u128);
    }
    let again = if len <= now + 1 {
        0
    } else {
        (len - now - 1) as nat
    };
    assert(len <= now + 1 ==> again * share(buffer@, 0, Counter::Bytes) == 0 && again * share(
        buffer@,
        0,
        Counter::Packets,
    ) == 0 && again * share(buffer@, 0, Counter::Flows) == 0);
}

/// A bucket that is reset is that of its new second, with nothing counted.
pub proof fn a_reset_bucket_is_empty(bucket: &mut Bucket, timestamp: u64)
    requires
        call_ensures(Bucket::reset, (bucket, timestamp), ()),
    ensures
        final(bucket).timestamp == timestamp,
        final(bucket).bytes == 0,
        final(bucket).packets == 0,
        final(bucket).flows == 0,
{
}

/// Adding a flow to a buffer counts it in the bucket of its second.
pub proof fn adding_counts_in_the_second(
    buffer: &mut RingBuffer,
    timestamp: u64,
    bytes: u64,
    packets: u64,
    i: int,
)
    requires
        call_ensures(RingBuffer::add_instant_flow, (buffer, timestamp, bytes, packets), ()),
        0 <= i < old(buffer)@.len(),
        i == timestamp as int % old(buffer)@.len() as int,
        old(buffer)@[i].timestamp == timestamp ==> old(buffer)@[i].bytes + bytes <= u64::MAX
            && old(buffer)@[i].packets + packets <= u64::MAX && old(buffer)@[i].flows < u64::MAX,
    ensures
        final(buffer)@.len() == old(buffer)@.len(),
        ({
            let (before, after) = (old(buffer)@[i], final(buffer)@[i]);
            let same = before.timestamp == timestamp;
            &&& after.timestamp == timestamp
            &&& after.bytes == bytes + if same { before.bytes as int } else { 0 }
            &&& after.packets == packets + if same { before.packets as int } else { 0 }
            &&& after.flows == 1 + if same { before.flows as int } else { 0 }
        }),
        forall|j: int|
            0 <= j < old(buffer)@.len() && j != i ==> #[trigger] final(buffer)@[j]
                == old(buffer)@[j],
{
    a_flow_is_counted_in_its_second(old(buffer)@, timestamp, bytes, packets, i);
}

} // verus!
