//! Split controller: decides, for each fragment offset of a burst, which
//! link carries it and with which tag.
//!
//! A split ratio is held in parts per `PART_SCALE` (one million) and gives
//! the fraction of a burst routed to its link.  With two ratios `p0` and
//! `p1`, the first link carries the leading share, the offsets `o` with
//! `o < p0 * num`, and the second link the trailing share, those with
//! `o >= (1 - p1) * num`; offsets in both shares are sent twice.  The two
//! shares must cover the burst (`p0 + p1 >= 1`).  On the second link the
//! lowest offset is tagged `DSL`, the burst's last offset `DSF` (`DSS` when
//! it is both), the others `DSM`.

use vstd::prelude::*;
use crate::link::Link;
use crate::packet::{PacketType, PacketStruct, channel_of};

verus! {

/// One whole ratio: a ratio of `PART_SCALE` sends the whole burst.
pub const PART_SCALE: u64 = 1_000_000;

/// Most fragments a burst may have: offsets travel in 16 bits.
pub const MAX_FRAGMENTS: usize = 0x1_0000;

/// Every ratio lies in `[0, PART_SCALE]`, and with two or more links the
/// first two shares together cover the burst.
pub open spec fn parts_valid(parts: Seq<u64>) -> bool {
    &&& forall|i: int| 0 <= i < parts.len() ==> parts[i] <= PART_SCALE
    &&& parts.len() >= 2 ==> parts[0] + parts[1] >= PART_SCALE
}

/// Where the second link's share starts, scaled by `PART_SCALE`: its
/// ratio is the trailing fraction of the burst.
pub open spec fn second_start(parts: Seq<u64>, num: int) -> int {
    (PART_SCALE - parts[1]) * num
}

/// The whole burst goes over one link: fewer than two ratios, an empty
/// share for the second link, or a first-link share that reaches the
/// last offset.
pub open spec fn single_channel(parts: Seq<u64>, num: int) -> bool {
    parts.len() < 2 || parts[1] * num <= 0 || (num - 1) * PART_SCALE < parts[0] * num
}

/// The tag of offset `o` of a burst of `num` fragments in channel list `c`
/// (0: single link, 1: first link of a split, 2: second link), or `None`
/// when that channel does not carry the offset.
pub open spec fn state_of(parts: Seq<u64>, o: int, num: int, c: int) -> Option<PacketType> {
    if c == 1 {
        let t0 = parts[0] * num;
        if o * PART_SCALE < t0 {
            if (o + 1) * PART_SCALE >= t0 {
                Some(PacketType::DFL)
            } else {
                Some(PacketType::DFN)
            }
        } else {
            None
        }
    } else if c == 2 {
        let t1 = second_start(parts, num);
        if o * PART_SCALE >= t1 {
            let near = o * PART_SCALE < t1 + PART_SCALE;
            let last = o + 1 == num;
            if near && last {
                Some(PacketType::DSS)
            } else if near {
                Some(PacketType::DSL)
            } else if last {
                Some(PacketType::DSF)
            } else {
                Some(PacketType::DSM)
            }
        } else {
            None
        }
    } else {
        if o + 1 == num {
            Some(PacketType::SL)
        } else {
            Some(PacketType::SNL)
        }
    }
}

/// The offsets below `k` that channel `c` carries, in increasing order,
/// each with its tag.
pub open spec fn channel_states(parts: Seq<u64>, num: int, c: int, k: nat) -> Seq<(u16, PacketType)>
    decreases k,
{
    if k == 0 {
        seq![]
    } else {
        let prev = channel_states(parts, num, c, (k - 1) as nat);
        match state_of(parts, k - 1, num, c) {
            Some(t) => prev.push(((k - 1) as u16, t)),
            None => prev,
        }
    }
}

/// A channel list holds, in strictly increasing order, exactly the offsets
/// below `k` that the channel carries, each with its tag.
pub proof fn lemma_channel_entries(parts: Seq<u64>, num: int, c: int, k: nat)
    requires
        k <= MAX_FRAGMENTS,
    ensures
        forall|i: int|
            0 <= i < channel_states(parts, num, c, k).len() ==> {
                let e = #[trigger] channel_states(parts, num, c, k)[i];
                &&& (e.0 as int) < k
                &&& state_of(parts, e.0 as int, num, c) == Some(e.1)
            },
        forall|i: int, j: int|
            0 <= i < j < channel_states(parts, num, c, k).len() ==> (#[trigger] channel_states(parts, num, c, k)[i]).0
                < (#[trigger] channel_states(parts, num, c, k)[j]).0,
        forall|o: int|
            0 <= o < k && (#[trigger] state_of(parts, o, num, c)).is_some() ==> exists|i: int|
                0 <= i < channel_states(parts, num, c, k).len() && channel_states(parts, num, c, k)[i].0 == o,
    decreases k,
{
    if k > 0 {
        let k1 = (k - 1) as nat;
        lemma_channel_entries(parts, num, c, k1);
        let prev = channel_states(parts, num, c, k1);
        let cur = channel_states(parts, num, c, k);
        assert forall|o: int| 0 <= o < k && (#[trigger] state_of(parts, o, num, c)).is_some() implies exists|i: int|
            0 <= i < cur.len() && cur[i].0 == o by {
            if o < k1 {
                let i = choose|i: int| 0 <= i < prev.len() && prev[i].0 == o;
                assert(cur[i] == prev[i]);
            } else {
                assert(cur[prev.len() as int].0 == o);
            }
        }
    }
}

/// The three channel lists of a burst of `num` fragments.
pub open spec fn packet_states(parts: Seq<u64>, num: nat) -> Seq<Seq<(u16, PacketType)>> {
    if single_channel(parts, num as int) {
        seq![channel_states(parts, num as int, 0, num), seq![], seq![]]
    } else {
        seq![seq![], channel_states(parts, num as int, 1, num), channel_states(parts, num as int, 2, num)]
    }
}

/// Link index a packet with this indicator is sent on: the link its tag
/// names, except that a first-link ratio of zero sends everything over
/// the second link.
pub open spec fn link_of(parts: Seq<u64>, indicator: u8) -> int {
    if parts.len() >= 2 && parts[0] == 0 {
        1
    } else {
        channel_of(indicator) as int
    }
}

proof fn lemma_share_bound(p: u64, n: u64)
    requires
        p <= PART_SCALE,
        n <= MAX_FRAGMENTS,
    ensures
        p * n <= PART_SCALE * MAX_FRAGMENTS,
{
    assert(p * n <= PART_SCALE * MAX_FRAGMENTS) by (nonlinear_arith)
        requires
            p <= PART_SCALE,
            n <= MAX_FRAGMENTS,
    ;
}

/// Whether a list of ratios is a valid split (see `parts_valid`).
pub fn check_parts(parts: &Vec<u64>) -> (r: bool)
    ensures
        r == parts_valid(parts@),
{
    let mut i: usize = 0;
    while i < parts.len()
        invariant
            i <= parts@.len(),
            forall|j: int| 0 <= j < i ==> parts@[j] <= PART_SCALE,
        decreases parts@.len() - i,
    {
        if parts[i] > PART_SCALE {
            return false;
        }
        i = i + 1;
    }
    !(parts.len() >= 2 && parts[0] + parts[1] < PART_SCALE)
}

pub struct TxPartCtler {
    pub tx_parts: Vec<u64>,
    pub tx_ipaddrs: Vec<String>,
}

impl TxPartCtler {
    /// Ratios and links agree in number, and every ratio is at most one.
    pub open spec fn wf(&self) -> bool {
        &&& self.tx_parts@.len() == self.num_links()
        &&& parts_valid(self.tx_parts@)
    }

    pub open spec fn num_links(&self) -> nat {
        self.tx_ipaddrs@.len()
    }

    /// Local addresses of the links, in order.
    pub open spec fn addrs(&self) -> Seq<Seq<char>> {
        self.tx_ipaddrs@.map_values(|s: String| s@)
    }

    pub fn new(tx_parts: Vec<u64>, links: Vec<Link>) -> (r: Self)
        requires
            tx_parts@.len() == links@.len(),
            parts_valid(tx_parts@),
        ensures
            r.wf(),
            r.tx_parts@ == tx_parts@,
            r.addrs() == links@.map_values(|l: Link| l.tx_ipaddr@),
    {
        let mut tx_ipaddrs: Vec<String> = Vec::new();
        let mut i: usize = 0;
        while i < links.len()
            invariant
                i <= links@.len(),
                tx_ipaddrs@.len() == i,
                forall|j: int| 0 <= j < i ==> tx_ipaddrs@[j]@ == links@[j].tx_ipaddr@,
            decreases links@.len() - i,
        {
            tx_ipaddrs.push(links[i].tx_ipaddr.clone());
            i = i + 1;
        }
        let r = TxPartCtler { tx_parts, tx_ipaddrs };
        assert(r.addrs() =~= links@.map_values(|l: Link| l.tx_ipaddr@));
        r
    }

    /// Replaces the ratios.  A list of another length than the links, a
    /// ratio above one, or two shares that leave part of a burst unsent are
    /// refused, and the ratios stay as they were.
    pub fn set_tx_parts(&mut self, tx_parts: Vec<u64>) -> (accepted: bool)
        requires
            old(self).wf(),
        ensures
            final(self).wf(),
            accepted == (tx_parts@.len() == old(self).tx_parts@.len() && parts_valid(tx_parts@)),
            accepted ==> final(self).tx_parts@ == tx_parts@,
            !accepted ==> final(self).tx_parts@ == old(self).tx_parts@,
            final(self).addrs() == old(self).addrs(),
    {
        if tx_parts.len() != self.tx_parts.len() || !check_parts(&tx_parts) {
            return false;
        }
        self.tx_parts = tx_parts;
        true
    }

    fn is_single_channel(&self, num: usize) -> (r: bool)
        requires
            self.wf(),
            num <= MAX_FRAGMENTS,
        ensures
            r == single_channel(self.tx_parts@, num as int),
    {
        if self.tx_parts.len() < 2 || num == 0 {
            return true;
        }
        proof {
            lemma_share_bound(self.tx_parts@[0], num as u64);
            lemma_share_bound(self.tx_parts@[1], num as u64);
        }
        let t0: u64 = self.tx_parts[0] * num as u64;
        let t1: u64 = self.tx_parts[1] * num as u64;
        t1 == 0 || (num as u64 - 1) * PART_SCALE < t0
    }

    /// Tag of `offset` in channel list `channel` of a burst of `num`
    /// fragments (channel 1 needs one ratio, channel 2 two).
    pub fn get_packet_state(&self, offset: usize, num: usize, channel: u16) -> (r: Option<PacketType>)
        requires
            self.wf(),
            num <= MAX_FRAGMENTS,
            offset < num,
            channel == 1 ==> self.tx_parts@.len() >= 1,
            channel == 2 ==> self.tx_parts@.len() >= 2,
        ensures
            r == state_of(self.tx_parts@, offset as int, num as int, channel as int),
    {
        let o: u64 = offset as u64;
        let n: u64 = num as u64;
        match channel {
            1 => {
                proof {
                    lemma_share_bound(self.tx_parts@[0], n);
                }
                let t0: u64 = self.tx_parts[0] * n;
                if o * PART_SCALE < t0 {
                    if (o + 1) * PART_SCALE >= t0 {
                        Some(PacketType::DFL)
                    } else {
                        Some(PacketType::DFN)
                    }
                } else {
                    None
                }
            },
            2 => {
                proof {
                    lemma_share_bound((PART_SCALE - self.tx_parts@[1]) as u64, n);
                }
                let t1: u64 = (PART_SCALE - self.tx_parts[1]) * n;
                if o * PART_SCALE >= t1 {
                    let near = o * PART_SCALE < t1 + PART_SCALE;
                    let last = o + 1 == n;
                    if near && last {
                        Some(PacketType::DSS)
                    } else if near {
                        Some(PacketType::DSL)
                    } else if last {
                        Some(PacketType::DSF)
                    } else {
                        Some(PacketType::DSM)
                    }
                } else {
                    None
                }
            },
            _ => {
                if o + 1 == n {
                    Some(PacketType::SL)
                } else {
                    Some(PacketType::SNL)
                }
            },
        }
    }

    fn fill_channel(&self, num: usize, channel: u16) -> (r: Vec<(u16, PacketType)>)
        requires
            self.wf(),
            num <= MAX_FRAGMENTS,
            channel == 1 ==> self.tx_parts@.len() >= 1,
            channel == 2 ==> self.tx_parts@.len() >= 2,
        ensures
            r@ == channel_states(self.tx_parts@, num as int, channel as int, num as nat),
    {
        let mut out: Vec<(u16, PacketType)> = Vec::new();
        let mut offset: usize = 0;
        while offset < num
            invariant
                self.wf(),
                num <= MAX_FRAGMENTS,
                offset <= num,
                channel == 1 ==> self.tx_parts@.len() >= 1,
                channel == 2 ==> self.tx_parts@.len() >= 2,
                out@ == channel_states(self.tx_parts@, num as int, channel as int, offset as nat),
            decreases num - offset,
        {
            if let Some(t) = self.get_packet_state(offset, num, channel) {
                out.push((offset as u16, t));
            }
            offset = offset + 1;
        }
        out
    }

    /// The three channel lists of a burst of `num` fragments: list 0 when
    /// the burst goes over one link, lists 1 and 2 when it is split.
    pub fn get_packet_states(&self, num: usize) -> (r: Vec<Vec<(u16, PacketType)>>)
        requires
            self.wf(),
            num <= MAX_FRAGMENTS,
        ensures
            r@.len() == 3,
            forall|c: int| 0 <= c < 3 ==> #[trigger] r@[c]@ == packet_states(self.tx_parts@, num as nat)[c],
    {
        let mut results: Vec<Vec<(u16, PacketType)>> = Vec::new();
        if self.is_single_channel(num) {
            results.push(self.fill_channel(num, 0));
            results.push(Vec::new());
            results.push(Vec::new());
        } else {
            results.push(Vec::new());
            results.push(self.fill_channel(num, 1));
            results.push(self.fill_channel(num, 2));
        }
        assert(results@[1]@ =~= packet_states(self.tx_parts@, num as nat)[1]);
        assert(results@[2]@ =~= packet_states(self.tx_parts@, num as nat)[2]);
        assert(results@[0]@ =~= packet_states(self.tx_parts@, num as nat)[0]);
        results
    }

    /// Index of the link a packet with this indicator is sent on.
    pub fn packet_to_link(&self, indicator: u8) -> (r: usize)
        requires
            self.wf(),
        ensures
            r == link_of(self.tx_parts@, indicator),
    {
        if self.tx_parts.len() >= 2 && self.tx_parts[0] == 0 {
            1
        } else {
            PacketStruct::channel_info(indicator) as usize
        }
    }

    /// Local address of the link a packet with this indicator is sent on.
    pub fn packet_to_ipaddr(&self, indicator: u8) -> (r: String)
        requires
            self.wf(),
            link_of(self.tx_parts@, indicator) < self.tx_parts@.len(),
        ensures
            r@ == self.addrs()[link_of(self.tx_parts@, indicator)],
    {
        let i = self.packet_to_link(indicator);
        self.tx_ipaddrs[i].clone()
    }
}


/// Tags that mark the last fragment a link sends of a burst.
pub open spec fn is_last_on_link(t: PacketType) -> bool {
    t == PacketType::SL || t == PacketType::DFL || t == PacketType::DSL || t == PacketType::DSS
}

proof fn lemma_scale_floor(t: int)
    requires
        t > 0,
    ensures
        ((t - 1) / 1_000_000) * 1_000_000 < t,
        t <= ((t - 1) / 1_000_000 + 1) * 1_000_000,
        (t - 1) / 1_000_000 >= 0,
{
    vstd::arithmetic::div_mod::lemma_fundamental_div_mod(t - 1, 1_000_000);
}

proof fn lemma_scale_ceil(t: int)
    requires
        t >= 0,
    ensures
        ((t + 999_999) / 1_000_000) * 1_000_000 >= t,
        ((t + 999_999) / 1_000_000) * 1_000_000 < t + 1_000_000,
        (t + 999_999) / 1_000_000 >= 0,
{
    vstd::arithmetic::div_mod::lemma_fundamental_div_mod(t + 999_999, 1_000_000);
}

/// In every channel list of a burst that carries anything, exactly one
/// fragment bears a last-on-link tag (`SL` or `DFL` on the first link,
/// `DSL` or `DSS` on the second).
pub proof fn lemma_one_last_per_link(parts: Seq<u64>, num: nat, c: int)
    requires
        parts_valid(parts),
        num <= MAX_FRAGMENTS,
        0 <= c < 3,
        packet_states(parts, num)[c].len() > 0,
    ensures
        ({
            let l = packet_states(parts, num)[c];
            exists|i: int|
                0 <= i < l.len() && is_last_on_link(l[i].1) && forall|j: int|
                    0 <= j < l.len() && is_last_on_link(#[trigger] l[j].1) ==> j == i
        }),
{
    assert(PART_SCALE == 1_000_000);
    let n = num as int;
    let single = single_channel(parts, n);
    let l = packet_states(parts, num)[c];
    let cc = if single {
        0
    } else {
        c
    };
    lemma_channel_entries(parts, n, cc, num);
    assert(l == channel_states(parts, n, cc, num));
    assert(0 <= l[0].0 < n);
    let o: int = if cc == 0 {
        n - 1
    } else if cc == 1 {
        let t0 = parts[0] * n;
        lemma_scale_floor(t0);
        (t0 - 1) / 1_000_000
    } else {
        let t1 = second_start(parts, n);
        assert(t1 >= 0) by (nonlinear_arith)
            requires
                t1 == (PART_SCALE - parts[1]) * n,
                parts[1] <= PART_SCALE,
                n >= 0,
        ;
        lemma_scale_ceil(t1);
        (t1 + 999_999) / 1_000_000
    };
    if cc == 1 {
        let t0 = parts[0] * n;
        assert(t0 <= 1_000_000 * n) by (nonlinear_arith)
            requires
                parts[0] <= 1_000_000,
                t0 == parts[0] * n,
                n >= 0,
        ;
        assert(o < n) by (nonlinear_arith)
            requires
                o * 1_000_000 < t0,
                t0 <= 1_000_000 * n,
        ;
        assert(state_of(parts, o, n, 1) == Some(PacketType::DFL));
    } else if cc == 2 {
        let t1 = second_start(parts, n);
        let o0 = l[0].0 as int;
        assert(o0 * 1_000_000 >= t1);
        assert(o <= o0) by (nonlinear_arith)
            requires
                o0 * 1_000_000 >= t1,
                o * 1_000_000 < t1 + 1_000_000,
        ;
        assert(is_last_on_link(state_of(parts, o, n, 2).unwrap()));
    }
    assert(state_of(parts, o, n, cc) is Some);
    let i = choose|i: int| 0 <= i < l.len() && l[i].0 == o;
    assert(is_last_on_link(l[i].1));
    assert forall|j: int| 0 <= j < l.len() && is_last_on_link(#[trigger] l[j].1) implies j == i by {
        let oj = l[j].0 as int;
        if cc == 1 {
            let t0 = parts[0] * n;
            assert(oj * 1_000_000 < t0 && t0 <= (oj + 1) * 1_000_000);
            assert(oj == o) by (nonlinear_arith)
                requires
                    oj * 1_000_000 < t0,
                    t0 <= (oj + 1) * 1_000_000,
                    o * 1_000_000 < t0,
                    t0 <= (o + 1) * 1_000_000,
            ;
        } else if cc == 2 {
            let t1 = second_start(parts, n);
            assert(oj * 1_000_000 >= t1 && oj * 1_000_000 < t1 + 1_000_000);
            assert(oj == o) by (nonlinear_arith)
                requires
                    oj * 1_000_000 >= t1,
                    oj * 1_000_000 < t1 + 1_000_000,
                    o * 1_000_000 >= t1,
                    o * 1_000_000 < t1 + 1_000_000,
            ;
        }
        if j < i {
            assert(l[j].0 < l[i].0);
        } else if j > i {
            assert(l[i].0 < l[j].0);
        }
    }
}

/// With the whole burst on the first link (`[PART_SCALE, 0]`), every
/// fragment is in the single-link list, tagged `SNL` or `SL`, and sent on
/// link 0.
pub proof fn lemma_all_on_first_link(parts: Seq<u64>, num: nat)
    requires
        parts == seq![PART_SCALE, 0u64],
        num <= MAX_FRAGMENTS,
    ensures
        packet_states(parts, num)[1].len() == 0,
        packet_states(parts, num)[2].len() == 0,
        forall|i: int|
            0 <= i < packet_states(parts, num)[0].len() ==> {
                let t = (#[trigger] packet_states(parts, num)[0][i]).1;
                &&& (t == PacketType::SNL || t == PacketType::SL)
                &&& link_of(parts, crate::packet::indicator_of(t)) == 0
            },
{
    assert(single_channel(parts, num as int));
    lemma_channel_entries(parts, num as int, 0, num);
}

/// With a first ratio of zero, every packet, whatever its tag, is sent on
/// the second link.
pub proof fn lemma_zero_first_ratio_routes_second(parts: Seq<u64>, indicator: u8)
    requires
        parts.len() >= 2,
        parts[0] == 0,
    ensures
        link_of(parts, indicator) == 1,
{
}

/// The channel list that carries a one-fragment burst: the second link's
/// when the first link's ratio is zero, else the single-link list.
pub open spec fn one_fragment_list(parts: Seq<u64>) -> int {
    if parts.len() >= 2 && parts[0] == 0 {
        2
    } else {
        0
    }
}

/// The tag of a one-fragment burst: `DSS` on the second link, else `SL`.
pub open spec fn one_fragment_tag(parts: Seq<u64>) -> PacketType {
    if parts.len() >= 2 && parts[0] == 0 {
        PacketType::DSS
    } else {
        PacketType::SL
    }
}

/// A burst of one fragment is exactly one entry, offset 0, tagged `SL`
/// (or `DSS` when the whole burst goes to the second link); the other
/// lists are empty.
pub proof fn lemma_one_fragment_burst(parts: Seq<u64>)
    requires
        parts_valid(parts),
    ensures
        packet_states(parts, 1)[one_fragment_list(parts)] == seq![(0u16, one_fragment_tag(parts))],
        forall|c: int| 0 <= c < 3 && c != one_fragment_list(parts) ==> #[trigger] packet_states(parts, 1)[c].len() == 0,
{
    assert(channel_states(parts, 1, 0, 0) == Seq::<(u16, PacketType)>::empty());
    if parts.len() >= 2 && parts[0] == 0 {
        assert(parts[1] == PART_SCALE);
        assert(!single_channel(parts, 1));
        assert(second_start(parts, 1) == 0);
        assert(channel_states(parts, 1, 1, 0) == Seq::<(u16, PacketType)>::empty());
        assert(channel_states(parts, 1, 2, 0) == Seq::<(u16, PacketType)>::empty());
        assert(state_of(parts, 0, 1, 1) is None);
        assert(state_of(parts, 0, 1, 2) == Some(PacketType::DSS));
        assert(channel_states(parts, 1, 1, 1) =~= Seq::<(u16, PacketType)>::empty());
        assert(channel_states(parts, 1, 2, 1) =~= seq![(0u16, PacketType::DSS)]);
    } else {
        assert(single_channel(parts, 1));
        assert(channel_states(parts, 1, 0, 1) =~= seq![(0u16, PacketType::SL)]);
    }
}

/// With the whole burst on the second link (`[0, PART_SCALE]`), every
/// offset `0..num` is in the second link's list, in order: `DSL` at offset
/// 0, `DSF` at the last, `DSM` between, `DSS` for a single fragment; the
/// other lists are empty.
pub proof fn lemma_all_on_second_link(parts: Seq<u64>, num: nat)
    requires
        parts == seq![0u64, PART_SCALE],
        1 <= num <= MAX_FRAGMENTS,
    ensures
        packet_states(parts, num)[0].len() == 0,
        packet_states(parts, num)[1].len() == 0,
        packet_states(parts, num)[2].len() == num,
        forall|i: int|
            0 <= i < num ==> {
                let e = #[trigger] packet_states(parts, num)[2][i];
                &&& e.0 == i
                &&& e.1 == (if num == 1 {
                    PacketType::DSS
                } else if i == 0 {
                    PacketType::DSL
                } else if i == num - 1 {
                    PacketType::DSF
                } else {
                    PacketType::DSM
                })
            },
{
    let n = num as int;
    assert(parts[0] == 0 && parts[1] == PART_SCALE);
    assert(!single_channel(parts, n)) by (nonlinear_arith)
        requires
            parts[0] == 0,
            parts[1] == PART_SCALE,
            parts.len() == 2,
            n >= 1,
            PART_SCALE == 1_000_000,
    ;
    assert(second_start(parts, n) == 0) by (nonlinear_arith)
        requires
            second_start(parts, n) == (PART_SCALE - parts[1]) * n,
            parts[1] == PART_SCALE,
    ;
    lemma_all_offsets_second(parts, n, num);
    lemma_no_offsets_first(parts, n, num);
}

proof fn lemma_all_offsets_second(parts: Seq<u64>, n: int, k: nat)
    requires
        parts == seq![0u64, PART_SCALE],
        k <= n,
        n <= MAX_FRAGMENTS,
        second_start(parts, n) == 0,
    ensures
        channel_states(parts, n, 2, k).len() == k,
        forall|i: int|
            0 <= i < k ==> {
                let e = #[trigger] channel_states(parts, n, 2, k)[i];
                &&& e.0 == i
                &&& e.1 == (if n == 1 {
                    PacketType::DSS
                } else if i == 0 {
                    PacketType::DSL
                } else if i == n - 1 {
                    PacketType::DSF
                } else {
                    PacketType::DSM
                })
            },
    decreases k,
{
    if k > 0 {
        lemma_all_offsets_second(parts, n, (k - 1) as nat);
        assert(parts[0] == 0 && parts[1] == PART_SCALE);
        let o = k - 1;
        assert(o * PART_SCALE >= 0);
        assert(o == 0 <==> o * PART_SCALE < PART_SCALE) by (nonlinear_arith)
            requires
                o >= 0,
                PART_SCALE == 1_000_000,
        ;
    }
}

proof fn lemma_no_offsets_first(parts: Seq<u64>, n: int, k: nat)
    requires
        parts == seq![0u64, PART_SCALE],
    ensures
        channel_states(parts, n, 1, k).len() == 0,
    decreases k,
{
    if k > 0 {
        lemma_no_offsets_first(parts, n, (k - 1) as nat);
        assert(parts[0] == 0);
        assert(parts[0] * n == 0) by (nonlinear_arith)
            requires
                parts[0] == 0,
        ;
    }
}

/// Some channel list of a burst of `num` fragments holds offset `o`.
pub open spec fn carried(parts: Seq<u64>, num: nat, o: int) -> bool {
    exists|c: int, i: int|
        0 <= c < 3 && 0 <= i < packet_states(parts, num)[c].len() && (#[trigger] packet_states(parts, num)[c][i]).0
            == o
}

/// The links together carry every offset of a burst and nothing else:
/// under a valid split each offset below `num` is in one of the three
/// lists, and every entry of a list is such an offset.
pub proof fn lemma_every_offset_sent(parts: Seq<u64>, num: nat)
    requires
        parts_valid(parts),
        num <= MAX_FRAGMENTS,
    ensures
        forall|c: int, i: int|
            0 <= c < 3 && 0 <= i < packet_states(parts, num)[c].len() ==> (#[trigger] packet_states(parts, num)[c][i]).0
                < num,
        forall|o: int| 0 <= o < num ==> #[trigger] carried(parts, num, o),
{
    let n = num as int;
    lemma_channel_entries(parts, n, 0, num);
    lemma_channel_entries(parts, n, 1, num);
    lemma_channel_entries(parts, n, 2, num);
    assert forall|o: int| 0 <= o < num implies #[trigger] carried(parts, num, o) by {
        if single_channel(parts, n) {
            assert(state_of(parts, o, n, 0) is Some);
            let i = choose|i: int| 0 <= i < channel_states(parts, n, 0, num).len() && channel_states(parts, n, 0, num)[i].0 == o;
            assert(packet_states(parts, num)[0][i].0 == o);
        } else if o * PART_SCALE < parts[0] * n {
            assert(state_of(parts, o, n, 1) is Some);
            let i = choose|i: int| 0 <= i < channel_states(parts, n, 1, num).len() && channel_states(parts, n, 1, num)[i].0 == o;
            assert(packet_states(parts, num)[1][i].0 == o);
        } else {
            assert(second_start(parts, n) <= parts[0] * n) by (nonlinear_arith)
                requires
                    second_start(parts, n) == (PART_SCALE - parts[1]) * n,
                    parts[0] + parts[1] >= PART_SCALE,
                    n >= 0,
            ;
            assert(state_of(parts, o, n, 2) is Some);
            let i = choose|i: int| 0 <= i < channel_states(parts, n, 2, num).len() && channel_states(parts, n, 2, num)[i].0 == o;
            assert(packet_states(parts, num)[2][i].0 == o);
        }
    }
}

} // verus!
