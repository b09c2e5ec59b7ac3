use stream_replay::link::Link;
use stream_replay::packet::{to_indicator, PacketType, MAX_PAYLOAD_LEN};
use stream_replay::source::{build_burst, num_fragments};
use stream_replay::tx_part_ctl::{check_parts, TxPartCtler, PART_SCALE};
use stream_replay::packet::PacketStruct;

fn two_links(parts: Vec<u64>) -> TxPartCtler {
    let links = vec![
        Link::new(String::from("10.0.0.1"), String::from("10.0.1.1")),
        Link::new(String::from("10.0.0.2"), String::from("10.0.1.2")),
    ];
    TxPartCtler::new(parts, links)
}

fn is_last_on_link(t: PacketType) -> bool {
    matches!(t, PacketType::SL | PacketType::DFL | PacketType::DSL | PacketType::DSS)
}

#[test]
fn even_split_of_ten_fragments() {
    let ctl = two_links(vec![PART_SCALE / 2, PART_SCALE / 2]);
    let states = ctl.get_packet_states(10);
    assert!(states[0].is_empty());
    assert_eq!(
        states[1],
        vec![
            (0, PacketType::DFN),
            (1, PacketType::DFN),
            (2, PacketType::DFN),
            (3, PacketType::DFN),
            (4, PacketType::DFL)
        ]
    );
    // On the second link the lowest offset is tagged DSL and the burst's
    // last offset DSF.
    assert_eq!(
        states[2],
        vec![
            (5, PacketType::DSL),
            (6, PacketType::DSM),
            (7, PacketType::DSM),
            (8, PacketType::DSM),
            (9, PacketType::DSF)
        ]
    );
}

#[test]
fn even_split_of_four_fragments() {
    let ctl = two_links(vec![PART_SCALE / 2, PART_SCALE / 2]);
    let states = ctl.get_packet_states(num_fragments(4500));
    assert_eq!(states[1], vec![(0, PacketType::DFN), (1, PacketType::DFL)]);
    assert_eq!(states[2], vec![(2, PacketType::DSL), (3, PacketType::DSF)]);
}

#[test]
fn whole_burst_on_first_link() {
    let ctl = two_links(vec![PART_SCALE, 0]);
    let states = ctl.get_packet_states(5);
    assert_eq!(
        states[0],
        vec![
            (0, PacketType::SNL),
            (1, PacketType::SNL),
            (2, PacketType::SNL),
            (3, PacketType::SNL),
            (4, PacketType::SL)
        ]
    );
    assert!(states[1].is_empty() && states[2].is_empty());
    for (_, t) in &states[0] {
        assert_eq!(ctl.packet_to_link(to_indicator(*t)), 0);
        assert_eq!(ctl.packet_to_ipaddr(to_indicator(*t)), "10.0.0.1");
    }
}

#[test]
fn whole_burst_on_second_link() {
    let ctl = two_links(vec![0, PART_SCALE]);
    for t in [PacketType::SNL, PacketType::SL, PacketType::DFL, PacketType::DSM, PacketType::DSL] {
        assert_eq!(ctl.packet_to_link(to_indicator(t)), 1);
        assert_eq!(ctl.packet_to_ipaddr(to_indicator(t)), "10.0.0.2");
    }
    let states = ctl.get_packet_states(5);
    assert!(states[0].is_empty() && states[1].is_empty());
    assert_eq!(
        states[2],
        vec![
            (0, PacketType::DSL),
            (1, PacketType::DSM),
            (2, PacketType::DSM),
            (3, PacketType::DSM),
            (4, PacketType::DSF)
        ]
    );
    assert_eq!(ctl.get_packet_states(1)[2], vec![(0, PacketType::DSS)]);
}

#[test]
fn splits_that_leave_offsets_unsent_are_refused() {
    assert!(!check_parts(&vec![300_000, 300_000]));
    assert!(!check_parts(&vec![0, 0]));
    assert!(!check_parts(&vec![PART_SCALE + 1, 0]));
    assert!(check_parts(&vec![300_000, 700_000]));
    assert!(check_parts(&vec![PART_SCALE]));
    let mut ctl = two_links(vec![PART_SCALE, 0]);
    assert!(!ctl.set_tx_parts(vec![300_000, 300_000]));
    assert_eq!(ctl.tx_parts, vec![PART_SCALE, 0]);
}

#[test]
fn uneven_split_without_redundancy() {
    // 30% on the first link, the trailing 70% on the second
    let ctl = two_links(vec![300_000, 700_000]);
    let states = ctl.get_packet_states(10);
    let first: Vec<u16> = states[1].iter().map(|e| e.0).collect();
    let second: Vec<u16> = states[2].iter().map(|e| e.0).collect();
    assert_eq!(first, vec![0, 1, 2]);
    assert_eq!(second, vec![3, 4, 5, 6, 7, 8, 9]);
    assert_eq!(states[1][2].1, PacketType::DFL);
    assert_eq!(states[2][0].1, PacketType::DSL);
    assert_eq!(states[2][6].1, PacketType::DSF);
}

#[test]
fn redundant_region_is_sent_twice() {
    let ctl = two_links(vec![600_000, 600_000]);
    let states = ctl.get_packet_states(10);
    let first: Vec<u16> = states[1].iter().map(|e| e.0).collect();
    let second: Vec<u16> = states[2].iter().map(|e| e.0).collect();
    assert_eq!(first, vec![0, 1, 2, 3, 4, 5]);
    assert_eq!(second, vec![4, 5, 6, 7, 8, 9]);
    assert_eq!(states[1][5].1, PacketType::DFL);
    assert_eq!(states[2][0].1, PacketType::DSL);
    assert_eq!(states[2][5].1, PacketType::DSF);
}

#[test]
fn every_offset_is_sent() {
    for parts in [vec![PART_SCALE / 2, PART_SCALE / 2], vec![600_000, 600_000], vec![0, PART_SCALE], vec![250_000, 750_000]] {
        let ctl = two_links(parts);
        for num in 0..40usize {
            let mut seen = vec![false; num];
            for list in ctl.get_packet_states(num) {
                for (o, _) in list {
                    seen[o as usize] = true;
                }
            }
            assert!(seen.iter().all(|s| *s));
        }
    }
}

#[test]
fn one_last_on_link_per_list() {
    for parts in [vec![PART_SCALE / 2, PART_SCALE / 2], vec![600_000, 600_000], vec![PART_SCALE, 0], vec![300_000, 700_000], vec![0, PART_SCALE]] {
        let ctl = two_links(parts);
        for num in 1..40usize {
            for list in ctl.get_packet_states(num) {
                if !list.is_empty() {
                    assert_eq!(list.iter().filter(|e| is_last_on_link(e.1)).count(), 1);
                }
            }
        }
    }
}

#[test]
fn single_fragment_on_either_ratio() {
    for parts in [vec![PART_SCALE, 0], vec![PART_SCALE / 2, PART_SCALE / 2], vec![100_000, PART_SCALE]] {
        let ctl = two_links(parts);
        let states = ctl.get_packet_states(1);
        assert_eq!(states[0], vec![(0, PacketType::SL)]);
        assert!(states[1].is_empty() && states[2].is_empty());
    }
    let ctl = two_links(vec![0, PART_SCALE]);
    let states = ctl.get_packet_states(1);
    assert!(states[0].is_empty() && states[1].is_empty());
    assert_eq!(states[2], vec![(0, PacketType::DSS)]);
}

#[test]
fn full_payload_is_one_sl_fragment() {
    let ctl = two_links(vec![PART_SCALE, 0]);
    let tpl = PacketStruct::new(9000);
    assert_eq!(num_fragments(MAX_PAYLOAD_LEN as u64), 1);
    let packets = build_burst(&tpl, &ctl, MAX_PAYLOAD_LEN as u64, &vec![0, 1, 2]);
    assert_eq!(packets.len(), 1);
    assert_eq!(packets[0].indicators, to_indicator(PacketType::SL));
    assert_eq!(packets[0].length as usize, MAX_PAYLOAD_LEN);
    assert_eq!(packets[0].offset, 0);
    assert_eq!(packets[0].port, 9000);
}

#[test]
fn fragment_lengths_add_up_to_burst() {
    for parts in [vec![PART_SCALE / 2, PART_SCALE / 2], vec![600_000, 600_000], vec![PART_SCALE, 0], vec![0, PART_SCALE], vec![300_000, 700_000]] {
        let ctl = two_links(parts.clone());
        for size in [1u64, 1452, 1453, 1454, 2906, 4500, 14_530, 20_000] {
            let num = num_fragments(size) as u64;
            let packets = build_burst(&PacketStruct::new(1), &ctl, size, &vec![0, 1, 2]);
            let t0 = parts[0] * num;
            let total: u64 = packets
                .iter()
                .filter(|p| {
                    PacketStruct::channel_info(p.indicators) == 0 || (p.offset as u64) * PART_SCALE >= t0
                })
                .map(|p| p.length as u64)
                .sum();
            assert_eq!(total, size);
        }
    }
}

#[test]
fn burst_follows_the_given_order() {
    let ctl = two_links(vec![PART_SCALE / 2, PART_SCALE / 2]);
    let tpl = PacketStruct::new(1);
    let packets = build_burst(&tpl, &ctl, 4500, &vec![2, 0, 1]);
    let offsets: Vec<u16> = packets.iter().map(|p| p.offset).collect();
    assert_eq!(offsets, vec![2, 3, 0, 1]);
    let lengths: Vec<u16> = packets.iter().map(|p| p.length).collect();
    assert_eq!(lengths, vec![1453, 141, 1453, 1453]);
}

#[test]
fn ratio_update_is_length_checked() {
    let mut ctl = two_links(vec![PART_SCALE, 0]);
    assert!(!ctl.set_tx_parts(vec![PART_SCALE]));
    assert_eq!(ctl.tx_parts, vec![PART_SCALE, 0]);
    assert!(!ctl.set_tx_parts(vec![PART_SCALE + 1, 0]));
    assert_eq!(ctl.tx_parts, vec![PART_SCALE, 0]);
    assert!(ctl.set_tx_parts(vec![PART_SCALE / 2, PART_SCALE / 2]));
    assert_eq!(ctl.tx_parts, vec![PART_SCALE / 2, PART_SCALE / 2]);
}

#[test]
fn empty_burst_has_no_fragments() {
    let ctl = two_links(vec![PART_SCALE / 2, PART_SCALE / 2]);
    assert_eq!(num_fragments(0), 0);
    assert!(build_burst(&PacketStruct::new(1), &ctl, 0, &vec![0, 1, 2]).is_empty());
}
