use stream_replay::packet::PacketStruct;
use stream_replay::throttle::{CycledVecDequeue, RateThrottler, CYCLED_RATIO};

fn window_total(t: &RateThrottler) -> u128 {
    t.window.fifo.iter().map(|e| e.1 as u128).sum()
}

fn packet(seq: u32, length: u16) -> PacketStruct {
    let mut p = PacketStruct::new(5000);
    p.seq = seq;
    p.set_length(length);
    p
}

#[test]
fn fifo_evicts_when_full() {
    let mut q: CycledVecDequeue<u32> = CycledVecDequeue::new(3);
    assert_eq!(q.push(1), None);
    assert_eq!(q.push(2), None);
    assert_eq!(q.push(3), None);
    assert_eq!(q.len(), 3);
    assert_eq!(q.push(4), Some(1));
    assert_eq!(q.len(), 3);
    assert_eq!(q.front(), Some(&2));
    assert_eq!(q.pop_front(), Some(2));
    assert_eq!(q.pop_front(), Some(3));
    assert_eq!(q.pop_front(), Some(4));
    assert_eq!(q.pop_front(), None);
}

#[test]
fn fifo_try_push_drops_when_full() {
    let mut q: CycledVecDequeue<u32> = CycledVecDequeue::new(2);
    assert!(q.try_push(1));
    assert!(q.try_push(2));
    assert!(!q.try_push(3));
    assert_eq!(q.len(), 2);
    let mut unbounded: CycledVecDequeue<u32> = CycledVecDequeue::new(0);
    for i in 0..1000 {
        assert!(unbounded.try_push(i));
        assert_eq!(unbounded.push(i), None);
    }
    unbounded.reset();
    assert_eq!(unbounded.len(), 0);
}

#[test]
fn throttler_sizes() {
    let t = RateThrottler::new(String::from("8000@0"), 0, 200, true, false);
    assert_eq!(t.buffer.size, CYCLED_RATIO * 200);
    assert_eq!(t.window.size, 200);
    assert_eq!(t.max_error, 2 * 1472);
    let inf = RateThrottler::new(String::from("8000@0"), 0, 200, true, true);
    assert_eq!(inf.buffer.size, 0);
    // a window size of 0 keeps every emission
    let mut all = RateThrottler::new(String::from("8000@0"), 0, 0, true, false);
    assert_eq!((all.window.size, all.buffer.size, all.max_error), (0, 0, 0));
    for i in 0..500u64 {
        assert!(!all.exceeds_with(10, i));
    }
    assert_eq!(all.window.len(), 500);
    assert_eq!(all.sum_bytes, 5000);
    let huge = RateThrottler::new(String::from("8000@0"), 0, usize::MAX, true, false);
    assert_eq!(huge.buffer.size, usize::MAX);
}

#[test]
fn window_sum_matches_state() {
    let mut t = RateThrottler::new(String::from("s"), 0, 5, true, false);
    for (i, size) in [100u64, 1453, 7, 0, 900, 1200, 33, 1453, 1453, 64].iter().enumerate() {
        assert!(!t.exceeds_with(*size, i as u64 * 1000));
        assert_eq!(window_total(&t), t.sum_bytes);
        assert!(t.window.len() <= 5);
    }
    // the last five emissions remain in a window of five
    assert_eq!(t.window.len(), 5);
    assert_eq!(t.sum_bytes, 1200 + 33 + 1453 + 1453 + 64);
}

#[test]
fn ceiling_is_enforced() {
    // 5 Mbit/s ceiling, window of 200 (so the cached rate is refreshed
    // once 2944 bytes have been accounted for).
    let mut t = RateThrottler::new(String::from("s"), 5_000_000, 200, true, false);
    assert!(!t.exceeds_with(1453, 0));
    assert!(!t.exceeds_with(1453, 1_000_000));
    assert!(!t.exceeds_with(1453, 2_000_000));
    // 4 x 1453 bytes over 3 ms is about 15.5 Mbit/s
    assert!(t.exceeds_with(1453, 3_000_000));
    assert_eq!(t.last_rate, 8_000_000_000 * 4 * 1453 / 3_000_000);
    assert_eq!(t.acc_error, 0);
    assert_eq!(t.window.len(), 3);
    assert_eq!(window_total(&t), t.sum_bytes);
}

#[test]
fn rate_over_window() {
    let mut t = RateThrottler::new(String::from("s"), 0, 200, true, false);
    // nothing accounted yet: the cached rate answers
    assert_eq!(t.current_rate_bps(0, 10), Some(0));
    // a refresh over an empty window has no rate
    t.acc_error = t.max_error;
    assert_eq!(t.current_rate_bps(0, 10), None);
    assert_eq!(t.acc_error, 0);
    t.exceeds_with(1000, 0);
    t.exceeds_with(1000, 500_000);
    // acc_error (0) is below max_error (2944): the cached rate answers
    assert_eq!(t.current_rate_bps(0, 1_000_000), Some(0));
    t.acc_error = t.max_error;
    assert_eq!(t.current_rate_bps(0, 1_000_000), Some(16_000_000));
    assert_eq!(t.acc_error, 0);
    assert_eq!(t.last_rate, 16_000_000);
}

#[test]
fn buffer_drains_in_order() {
    let mut t = RateThrottler::new(String::from("s"), 0, 200, true, false);
    assert!(t.try_consume(0).is_none());
    t.prepare(vec![packet(1, 1453), packet(1, 1453), packet(2, 10)], 0);
    assert_eq!(t.buffer.len(), 3);
    let a = t.try_consume(1).unwrap().unwrap();
    let b = t.try_consume(2).unwrap().unwrap();
    let c = t.try_consume(3).unwrap().unwrap();
    assert_eq!((a.seq, b.seq, c.seq), (1, 1, 2));
    assert_eq!(c.length, 10);
    assert!(t.try_consume(4).is_none());
    assert_eq!(t.sum_bytes, 1453 + 1453 + 10);
}

#[test]
fn busy_when_ceiling_reached() {
    let mut t = RateThrottler::new(String::from("s"), 1_000_000, 200, true, false);
    t.prepare(vec![packet(1, 1453), packet(1, 1453), packet(1, 1453), packet(1, 1453)], 0);
    assert!(t.try_consume(0).unwrap().is_some());
    assert!(t.try_consume(1_000).unwrap().is_some());
    assert!(t.try_consume(2_000).unwrap().is_some());
    // now far above 1 Mbit/s: the packet stays
    assert!(t.try_consume(3_000).unwrap().is_none());
    assert_eq!(t.buffer.len(), 1);
}

#[test]
fn buffer_drops_when_full() {
    let mut t = RateThrottler::new(String::from("s"), 0, 1, true, false);
    let burst: Vec<PacketStruct> = (0..(CYCLED_RATIO as u32 + 5)).map(|i| packet(i, 1)).collect();
    t.prepare(burst, 0);
    assert_eq!(t.buffer.len(), CYCLED_RATIO);
    assert_eq!(t.buffer.front().unwrap().seq, 0);
}

#[test]
fn reset_clears_everything() {
    let mut t = RateThrottler::new(String::from("s"), 0, 10, true, false);
    t.prepare(vec![packet(1, 100)], 0);
    t.exceeds_with(100, 0);
    t.last_rate = 42;
    t.reset();
    assert_eq!(t.buffer.len(), 0);
    assert_eq!(t.window.len(), 0);
    assert_eq!((t.sum_bytes, t.acc_error, t.last_rate), (0, 0, 0));
}

#[test]
fn rate_at_ceiling_is_allowed() {
    // the window refreshes on every query (window 50: max_error 0)
    let mut t = RateThrottler::new(String::from("s"), 8_000_000, 50, true, false);
    assert_eq!(t.max_error, 0);
    assert!(!t.exceeds_with(500, 0));
    // 1000 bytes over 1 ms is exactly 8 Mbit/s: not above the ceiling
    assert!(!t.exceeds_with(500, 1_000_000));
    // 1001 bytes would be above it
    assert!(t.exceeds_with(1, 1_000_000));
}

#[test]
fn prepare_and_consume_report_the_rate() {
    let mut t = RateThrottler::new(String::from("s"), 0, 50, true, false);
    t.exceeds_with(1000, 0);
    let rate = t.prepare(vec![packet(1, 10)], 1_000_000);
    assert_eq!(rate, Some(8_000_000));
    assert_eq!(t.last_rate, 8_000_000);
    let (p, rate) = t.consume(2_000_000);
    assert_eq!(p.unwrap().seq, 1);
    assert_eq!(rate, Some(4_000_000));
    assert_eq!(t.last_rate, 4_000_000);
}
