use stream_replay::link::Link;
use stream_replay::packet::PacketType;
use stream_replay::rtt_records::{average_between_quantiles, RttRecords, SendTimes, RTT_RING_LENGTH};
use stream_replay::stream::SourceManager;
use stream_replay::throttle::RateThrottler;
use stream_replay::tx_part_ctl::{TxPartCtler, PART_SCALE};

const MS: u64 = 1_000_000;

#[test]
fn trimmed_mean_of_ten() {
    let mut v = vec![5, 1, 4, 2, 3, 10, 9, 8, 7, 6];
    // positions 1..9 of the sorted samples: 2..=9
    assert_eq!(average_between_quantiles(&mut v), 5);
    assert_eq!(v, vec![1, 2, 3, 4, 5, 6, 7, 8, 9, 10]);
    let mut w = vec![100, 0, 0, 0, 0, 0, 0, 0, 0, 0];
    assert_eq!(average_between_quantiles(&mut w), 0);
}

#[test]
fn trimmed_mean_small_inputs() {
    assert_eq!(average_between_quantiles(&mut vec![]), 0);
    assert_eq!(average_between_quantiles(&mut vec![7]), 7);
    assert_eq!(average_between_quantiles(&mut vec![9, 3]), 3);
}

#[test]
fn split_acks_fill_both_links() {
    let mut r = RttRecords::new(RTT_RING_LENGTH, 2, 4 * MS);
    assert!(!r.update(5, PacketType::DFL, 2 * MS));
    assert!(r.update(5, PacketType::DSL, 5 * MS));
    let s = r.statistic();
    assert_eq!(s.channel_rtts, vec![2 * MS, 5 * MS]);
    // the burst's value is its latest acknowledgement
    assert_eq!(s.rtt, 5 * MS);
    assert_eq!((s.samples, s.outages), (1, 1));
    assert_eq!(s.ch_samples, vec![1, 1]);
    assert_eq!(s.ch_outages, vec![0, 1]);
    // samples are taken once
    let again = r.statistic();
    assert_eq!(again.samples, 0);
    assert_eq!(again.ch_samples, vec![0, 0]);
    assert_eq!(again.rtt, 0);
}

#[test]
fn whole_burst_ack_completes() {
    let mut r = RttRecords::new(10, 2, MS);
    assert!(r.update(3, PacketType::SLFL, MS / 2));
    assert!(r.update(4, PacketType::SLSL, 3 * MS));
    let s = r.statistic();
    assert_eq!(s.samples, 2);
    assert_eq!(s.outages, 1);
    assert_eq!(s.channel_rtts, vec![MS / 2, 3 * MS]);
}

#[test]
fn slot_reuse_evicts_older_burst() {
    let mut r = RttRecords::new(10, 2, MS);
    assert!(!r.update(3, PacketType::DFL, MS));
    // seq 13 takes the same slot and starts afresh
    assert!(!r.update(13, PacketType::DSL, 2 * MS));
    let s = r.statistic();
    assert_eq!(s.samples, 0);
    assert_eq!(s.ch_samples, vec![0, 1]);
    assert_eq!(s.channel_rtts, vec![0, 2 * MS]);
}

fn manager(calc_rtt: bool) -> SourceManager {
    let links = vec![
        Link::new(String::from("10.0.0.1"), String::from("10.0.1.1")),
        Link::new(String::from("10.0.0.2"), String::from("10.0.1.2")),
    ];
    let throttler = RateThrottler::new(String::from("8000@0"), 0, 200, true, false);
    let ctl = TxPartCtler::new(vec![PART_SCALE, 0], links);
    let rtt = if calc_rtt { Some(RttRecords::new(RTT_RING_LENGTH, 2, 10 * MS)) } else { None };
    SourceManager::new(String::from("8000@0"), throttler, ctl, rtt)
}

#[test]
fn statistics_only_while_active() {
    let mut m = manager(true);
    assert!(m.statistics(0).is_none());
    m.start(1_000, 500, 10_000);
    assert!(m.statistics(1_499).is_none());
    let s = m.statistics(1_500).unwrap();
    assert_eq!(s.tx_parts, vec![PART_SCALE, 0]);
    assert!(s.rtt.is_some());
    assert!(m.statistics(11_000).is_some());
    assert!(m.statistics(11_001).is_none());
    let mut plain = manager(false);
    plain.start(0, 0, 100);
    assert!(plain.statistics(50).unwrap().rtt.is_none());
}

#[test]
fn control_updates() {
    let mut m = manager(false);
    m.throttle(2_000_000);
    assert_eq!(m.throttler.throttle, 2_000_000);
    assert!(!m.set_tx_parts(vec![1, 2, 3]));
    assert_eq!(m.tx_part_ctler.tx_parts, vec![PART_SCALE, 0]);
    assert!(m.set_tx_parts(vec![PART_SCALE / 2, PART_SCALE / 2]));
    assert_eq!(m.tx_part_ctler.tx_parts, vec![PART_SCALE / 2, PART_SCALE / 2]);
}

#[test]
fn send_times_match_acknowledgements() {
    let mut sent = SendTimes::new();
    let mut r = RttRecords::new(RTT_RING_LENGTH, 2, 10 * MS);
    assert_eq!(sent.acknowledge(&mut r, 4, PacketType::DFL, 5 * MS), None);
    sent.record(4, MS);
    assert_eq!(sent.acknowledge(&mut r, 4, PacketType::DFL, 3 * MS), Some(false));
    assert!(sent.sent.contains_key(&4));
    assert_eq!(sent.acknowledge(&mut r, 4, PacketType::DSL, 6 * MS), Some(true));
    assert!(!sent.sent.contains_key(&4));
    let s = r.statistic();
    assert_eq!(s.channel_rtts, vec![2 * MS, 5 * MS]);
    // a clock that went back counts as no time
    sent.record(5, 9 * MS);
    assert_eq!(sent.acknowledge(&mut r, 5, PacketType::SLFL, 8 * MS), Some(true));
    assert_eq!(r.statistic().rtt, 0);
}
