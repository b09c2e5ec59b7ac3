use stream_replay::link::Link;
use stream_replay::packet::{to_indicator, PacketStruct, PacketType};
use stream_replay::source::{SourceState, Trace, MAX_BURST_BYTES};
use stream_replay::tx_part_ctl::{TxPartCtler, PART_SCALE};

fn ctl(parts: Vec<u64>) -> TxPartCtler {
    let links: Vec<Link> = (0..parts.len())
        .map(|i| Link::new(format!("10.0.0.{}", i + 1), format!("10.0.1.{}", i + 1)))
        .collect();
    TxPartCtler::new(parts, links)
}

#[test]
fn trace_must_be_usable() {
    assert!(Trace::new(vec![]).is_none());
    assert!(Trace::new(vec![(1, MAX_BURST_BYTES + 1)]).is_none());
    assert!(Trace::new(vec![(1, MAX_BURST_BYTES)]).is_some());
}

#[test]
fn bursts_walk_the_trace_cyclically() {
    let trace = Trace::new(vec![(10, 100), (20, 200), (30, 300)]).unwrap();
    let mut src = SourceState::new(trace, 7000, 4, usize::MAX);
    assert_eq!(src.idx, 1);
    let c = ctl(vec![PART_SCALE]);
    let order = vec![0, 1, 2];
    let b1 = src.next_burst(&c, &order).unwrap();
    assert_eq!((b1.interval_ns, b1.size_bytes, b1.seq), (30, 300, 1));
    let b2 = src.next_burst(&c, &order).unwrap();
    assert_eq!((b2.interval_ns, b2.size_bytes, b2.seq), (10, 100, 2));
    assert_eq!(b2.packets.len(), 1);
    assert_eq!(b2.packets[0].seq, 2);
    assert_eq!(b2.packets[0].port, 7000);
    assert_eq!(b2.packets[0].indicators, to_indicator(PacketType::SL));
}

#[test]
fn empty_burst_keeps_sequence() {
    let trace = Trace::new(vec![(5, 0), (6, 1500)]).unwrap();
    let mut src = SourceState::new(trace, 7000, 1, usize::MAX);
    let c = ctl(vec![PART_SCALE]);
    let b = src.next_burst(&c, &vec![0, 1, 2]).unwrap();
    assert_eq!((b.interval_ns, b.size_bytes), (5, 0));
    assert!(b.packets.is_empty());
    assert_eq!(b.seq, 0);
    assert_eq!(src.idx, 0);
    let b = src.next_burst(&c, &vec![0, 1, 2]).unwrap();
    assert_eq!(b.seq, 1);
    assert_eq!(src.idx, 1);
    let lengths: Vec<u16> = b.packets.iter().map(|p| p.length).collect();
    assert_eq!(lengths, vec![1453, 47]);
}

#[test]
fn loops_run_out() {
    let trace = Trace::new(vec![(5, 10)]).unwrap();
    let mut src = SourceState::new(trace, 1, 0, 3);
    let c = ctl(vec![PART_SCALE]);
    assert!(src.next_burst(&c, &vec![0]).is_some());
    assert!(src.next_burst(&c, &vec![0]).is_some());
    assert!(src.next_burst(&c, &vec![0]).is_none());
    assert!(src.next_burst(&c, &vec![0]).is_none());
    assert_eq!(src.template.seq, 2);
}

#[test]
fn shuffled_order_keeps_the_packets_and_varies() {
    let trace = Trace::new(vec![(1, 4500)]).unwrap();
    let mut src = SourceState::new(trace, 1, 0, usize::MAX);
    let c = ctl(vec![PART_SCALE / 2, PART_SCALE / 2]);
    let mut firsts = std::collections::HashSet::new();
    for _ in 0..64 {
        let b = src.next_burst_shuffled(&c).unwrap();
        let mut offsets: Vec<u16> = b.packets.iter().map(|p| p.offset).collect();
        firsts.insert(offsets[0]);
        offsets.sort();
        assert_eq!(offsets, vec![0, 1, 2, 3]);
    }
    // list 1 starts at offset 0, list 2 at offset 2: both orders occur
    assert_eq!(firsts.len(), 2);
}

#[test]
fn template_is_copied_not_shared() {
    let trace = Trace::new(vec![(1, 3000)]).unwrap();
    let mut src = SourceState::new(trace, 1, 0, usize::MAX);
    let c = ctl(vec![PART_SCALE]);
    let b = src.next_burst(&c, &vec![0]).unwrap();
    let tpl = PacketStruct::new(1);
    for p in &b.packets {
        assert_eq!(p.payload, tpl.payload);
    }
    let offsets: Vec<u16> = b.packets.iter().map(|p| p.offset).collect();
    assert_eq!(offsets, vec![0, 1, 2]);
}

#[test]
fn full_payload_burst_in_any_order() {
    let trace = Trace::new(vec![(1, 1453)]).unwrap();
    let mut src = SourceState::new(trace, 1, 0, usize::MAX);
    let c = ctl(vec![PART_SCALE, 0]);
    for _ in 0..20 {
        let b = src.next_burst_shuffled(&c).unwrap();
        assert_eq!(b.packets.len(), 1);
        assert_eq!(b.packets[0].indicators, to_indicator(PacketType::SL));
        assert_eq!((b.packets[0].offset, b.packets[0].length), (0, 1453));
    }
}

#[test]
fn burst_bytes_in_every_order() {
    let orders = [[0usize, 1, 2], [0, 2, 1], [1, 0, 2], [1, 2, 0], [2, 0, 1], [2, 1, 0]];
    for parts in [vec![PART_SCALE / 2, PART_SCALE / 2], vec![700_000, 500_000], vec![0, PART_SCALE]] {
        let c = ctl(parts.clone());
        for size in [1u64, 1453, 4500, 30_000] {
            let num = stream_replay::source::num_fragments(size) as u64;
            for order in orders.iter() {
                let packets = stream_replay::source::build_burst(&PacketStruct::new(1), &c, size, &order.to_vec());
                let total: u64 = packets
                    .iter()
                    .filter(|p| {
                        PacketStruct::channel_info(p.indicators) == 0
                            || (p.offset as u64) * PART_SCALE >= parts[0] * num
                    })
                    .map(|p| p.length as u64)
                    .sum();
                assert_eq!(total, size);
            }
        }
    }
}
