use stream_replay::packet::{to_indicator, PacketStruct, PacketType};
use stream_replay::record::{RecvData, RecvRecord};
use stream_replay::stutter::Stutter;

fn frag(seq: u32, offset: u16, t: PacketType, payload: &[u8]) -> PacketStruct {
    let mut p = PacketStruct::new(6000);
    p.seq = seq;
    p.set_offset(offset);
    p.set_indicator(t);
    p.set_length(payload.len() as u16);
    p.set_payload(payload);
    let bytes = p.to_bytes();
    PacketStruct::from_buffer(&bytes).unwrap()
}

#[test]
fn single_link_burst_completes_out_of_order() {
    let mut rx = RecvData::new();
    let out = rx.handle_packet(frag(1, 2, PacketType::SL, b"ef"), 0, true);
    assert!(out.ack.is_none() && !out.completed);
    let out = rx.handle_packet(frag(1, 0, PacketType::SNL, b"ab"), 0, true);
    assert!(out.ack.is_none() && !out.completed);
    assert_eq!(rx.recv_records.len(), 1);
    let out = rx.handle_packet(frag(1, 1, PacketType::SNL, b"cd"), 0, true);
    assert!(out.completed);
    assert_eq!(out.ack, Some(PacketType::SLFL));
    assert_eq!(out.gathered.unwrap(), b"abcdef".to_vec());
    let ack = PacketStruct::from_buffer(&out.ack_bytes.unwrap()).unwrap();
    assert_eq!(ack.indicators, to_indicator(PacketType::SLFL));
    assert_eq!((ack.seq, ack.offset), (1, 1));
    assert_eq!(rx.received, 1);
    assert!(rx.recv_records.is_empty());
    assert_eq!(rx.last_seq, 1);
}

#[test]
fn split_burst_acks_each_link_once() {
    let mut rx = RecvData::new();
    assert!(rx.handle_packet(frag(7, 0, PacketType::DFN, b"a"), 0, false).ack.is_none());
    let out = rx.handle_packet(frag(7, 1, PacketType::DFL, b"b"), 0, false);
    assert_eq!(out.ack, Some(PacketType::DFL));
    assert!(!out.completed);
    // the second link's first fragment is the burst's last offset
    let out = rx.handle_packet(frag(7, 3, PacketType::DSF, b"d"), 1, false);
    assert!(out.ack.is_none());
    let out = rx.handle_packet(frag(7, 2, PacketType::DSL, b"c"), 1, false);
    assert_eq!(out.ack, Some(PacketType::SLSL));
    assert!(out.completed);
    assert!(out.gathered.is_none());
    assert_eq!(rx.received, 1);
    assert!(rx.recv_records.is_empty());
}

#[test]
fn redundant_copy_gets_no_second_ack() {
    let mut rx = RecvData::new();
    // redundant region: offset 1 goes over both links
    let out = rx.handle_packet(frag(3, 0, PacketType::DFN, b"a"), 0, false);
    assert!(out.ack.is_none());
    let out = rx.handle_packet(frag(3, 1, PacketType::DFL, b"b"), 0, false);
    assert_eq!(out.ack, Some(PacketType::DFL));
    let out = rx.handle_packet(frag(3, 1, PacketType::DFL, b"b"), 0, false);
    assert!(out.ack.is_none());
    let out = rx.handle_packet(frag(3, 0, PacketType::DFN, b"a"), 0, false);
    assert!(out.ack.is_none());
    assert_eq!(rx.recv_records.get(&3).unwrap().is_ack, (true, false));
}

#[test]
fn incomplete_burst_stays_open() {
    let mut rx = RecvData::new();
    rx.handle_packet(frag(1, 0, PacketType::SNL, b"a"), 0, false);
    let out = rx.handle_packet(frag(1, 2, PacketType::SL, b"c"), 0, false);
    assert!(out.ack.is_none() && !out.completed);
    rx.handle_packet(frag(2, 0, PacketType::SL, b"x"), 0, false);
    rx.handle_packet(frag(4, 0, PacketType::SL, b"y"), 0, false);
    assert_eq!(rx.received, 2);
    assert_eq!(rx.last_seq, 4);
    assert_eq!(rx.loss_counts(), (2, 4));
    assert!(rx.recv_records.contains_key(&1));
}

#[test]
fn record_tracks_roles() {
    let mut r = RecvRecord::new();
    r.record(frag(1, 3, PacketType::DSS, b"z"));
    assert!(!r.is_complete());
    assert!(r.is_scd_ack());
    assert!(!r.is_fst_ack());
    r.record(frag(1, 0, PacketType::DFN, b"a"));
    r.record(frag(1, 2, PacketType::DFL, b"c"));
    assert!(!r.is_fst_ack());
    r.record(frag(1, 1, PacketType::DFN, b"b"));
    assert!(r.is_fst_ack());
    assert!(r.is_complete());
    assert_eq!(r.gather(), b"abcz".to_vec());
}

#[test]
fn datagram_accounting() {
    let mut rx = RecvData::new();
    rx.on_datagram(100, 5_000);
    rx.on_datagram(50, 9_000);
    assert_eq!(rx.data_len, 150);
    assert_eq!(rx.rx_start_time, Some(5_000));
    assert_eq!(rx.stutter.ack_times, vec![5_000, 9_000]);
}

#[test]
fn stutter_counts_long_gaps() {
    let mut s = Stutter::new();
    assert_eq!(s.get_stuttering().0, 0);
    let base: u64 = 1_000_000_000;
    s.update(base);
    s.update(base + 16_000_000);
    s.update(base + 100_000_000);
    s.update(base + 110_000_000);
    // only the 84 ms gap exceeds 16 ms + 32 ms, by 36 ms
    assert_eq!(s.get_stuttering(), (36_000_000, 110_000_000));
}

#[test]
fn redundant_split_burst_counts_once() {
    // ratios [0.6, 0.6] over ten fragments: link 0 carries 0..=5 (DFL at 5),
    // link 1 carries 9 down to 4 (DSF at 9, DSL at 4)
    let mut rx = RecvData::new();
    for o in 0..4u16 {
        assert!(rx.handle_packet(frag(9, o, PacketType::DFN, b"."), 0, false).ack.is_none());
    }
    rx.handle_packet(frag(9, 9, PacketType::DSF, b"."), 1, false);
    for o in [8u16, 7, 6, 5] {
        assert!(rx.handle_packet(frag(9, o, PacketType::DSM, b"."), 1, false).ack.is_none());
    }
    let out = rx.handle_packet(frag(9, 4, PacketType::DSL, b"."), 1, false);
    assert_eq!(out.ack, Some(PacketType::DSL));
    assert!(!out.completed);
    let out = rx.handle_packet(frag(9, 5, PacketType::DFL, b"."), 0, false);
    assert_eq!(out.ack, Some(PacketType::SLFL));
    assert!(out.completed);
    // the late first-link copy of offset 4 opens a record that never completes
    let out = rx.handle_packet(frag(9, 4, PacketType::DFN, b"."), 0, false);
    assert!(out.ack.is_none() && !out.completed);
    assert_eq!(rx.received, 1);
}
