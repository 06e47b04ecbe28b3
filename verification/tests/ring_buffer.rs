use netalert::double::Double;
use netalert::ring_buffer::{Bucket, RingBuffer};

fn number(x: f64) -> Double {
    Double::from_bits(x.to_bits())
}

#[test]
fn reset_empties_a_bucket() {
    let mut bucket = Bucket { timestamp: 1, bytes: 2, packets: 3, flows: 4 };
    bucket.reset(9);
    assert_eq!(bucket, Bucket { timestamp: 9, bytes: 0, packets: 0, flows: 0 });
    assert_eq!(Bucket::default(), Bucket { timestamp: 0, bytes: 0, packets: 0, flows: 0 });
}

#[test]
fn rates_are_means_over_the_window() {
    let mut buffer = RingBuffer::new(10);
    buffer.add_instant_flow(1000, 500, 5);
    buffer.add_instant_flow(1000, 500, 5);
    buffer.add_instant_flow(1003, 250, 1);
    let (bps, pps, fps) = buffer.compute_rates(1004);
    assert_eq!(bps, number(1250.0 * 8.0 / 10.0));
    assert_eq!(pps, number(11.0 / 10.0));
    assert_eq!(fps, number(3.0 / 10.0));
}

#[test]
fn old_seconds_leave_the_window() {
    let mut buffer = RingBuffer::new(10);
    buffer.add_instant_flow(1000, 500, 5);
    assert_eq!(buffer.compute_rates(1009).1, number(0.5));
    assert_eq!(buffer.compute_rates(1010), (number(0.0), number(0.0), number(0.0)));
}

#[test]
fn newer_second_takes_the_bucket_of_an_older_one() {
    let mut buffer = RingBuffer::new(3);
    buffer.add_instant_flow(3, 100, 1);
    buffer.add_instant_flow(6, 7, 1);
    let (_, pps, _) = buffer.compute_rates(6);
    assert_eq!(pps, number(1.0 / 3.0));
    buffer.add_instant_flow(3, 100, 1);
    assert_eq!(buffer.compute_rates(6).1, number(0.0));
}

#[test]
fn second_zero_counts_again_for_seconds_before_it() {
    let mut buffer = RingBuffer::new(4);
    buffer.add_instant_flow(0, 1, 1);
    buffer.add_instant_flow(1, 1, 1);
    let (_, pps, _) = buffer.compute_rates(1);
    assert_eq!(pps, number(4.0 / 4.0));
}

#[test]
fn empty_window_has_no_rates() {
    let buffer = RingBuffer::new(0);
    assert_eq!(buffer.compute_rates(5), (number(0.0), number(0.0), number(0.0)));
    assert!(!buffer.room_for(5, 1, 1));
}

#[test]
fn full_counts_have_no_room() {
    let mut buffer = RingBuffer::new(2);
    buffer.add_instant_flow(8, u64::MAX - 1, 1);
    assert!(buffer.room_for(8, 1, 1));
    assert!(!buffer.room_for(8, 2, 1));
    assert!(!buffer.room_for(8, 0, u64::MAX));
    assert!(buffer.room_for(10, u64::MAX, u64::MAX));
}

#[test]
fn sums_over_many_buckets_do_not_wrap() {
    let mut buffer = RingBuffer::new(2);
    buffer.add_instant_flow(8, u64::MAX, 1);
    buffer.add_instant_flow(9, u64::MAX, 1);
    let (bps, _, _) = buffer.compute_rates(9);
    let total = 2.0 * (u64::MAX as f64);
    assert_eq!(bps, number(total * 8.0 / 2.0));
}
