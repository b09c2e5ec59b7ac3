//! Burst source: walks the trace, cuts each burst into fragments, and tags
//! every fragment through the split controller.
//!
//! The pacing loop (sleeping until each burst's deadline and draining the
//! throttler meanwhile) runs outside the library; `SourceState::next_burst`
//! is the decision it takes at each burst.

use vstd::prelude::*;
use rand::seq::SliceRandom;
use crate::packet::{PacketStruct, PacketView, PacketType, MAX_PAYLOAD_LEN, indicator_of, channel_of};
use crate::tx_part_ctl::{
    TxPartCtler, MAX_FRAGMENTS, PART_SCALE, packet_states, lemma_channel_entries, lemma_one_fragment_burst,
    parts_valid, channel_states, single_channel, state_of, second_start, one_fragment_list, one_fragment_tag,
};
use crate::throttle::views;

verus! {

/// Largest burst: every fragment offset must fit in 16 bits.
pub const MAX_BURST_BYTES: u64 = 0x1_0000 * 1453;

/// Number of fragments of a burst of `size` bytes.
pub open spec fn fragments_of(size: int) -> int {
    if size % MAX_PAYLOAD_LEN as int == 0 {
        size / MAX_PAYLOAD_LEN as int
    } else {
        size / MAX_PAYLOAD_LEN as int + 1
    }
}

/// Payload length of fragment `o` of a burst of `size` bytes in `num`
/// fragments: full fragments, then what remains.
pub open spec fn fragment_length(size: int, num: int, o: int) -> int {
    if o + 1 < num {
        MAX_PAYLOAD_LEN as int
    } else {
        size - (num - 1) * MAX_PAYLOAD_LEN
    }
}

/// The packet sent for channel entry `e` of a burst.
pub open spec fn fragment_view(tpl: PacketView, size: int, num: int, e: (u16, PacketType)) -> PacketView {
    PacketView {
        offset: e.0,
        length: fragment_length(size, num, e.0 as int) as u16,
        indicators: indicator_of(e.1),
        ..tpl
    }
}

pub open spec fn channel_packets(tpl: PacketView, size: int, num: int, list: Seq<(u16, PacketType)>) -> Seq<PacketView> {
    list.map_values(|e: (u16, PacketType)| fragment_view(tpl, size, num, e))
}

/// The packets of a burst of `size` bytes: the channel lists taken in the
/// given order (entries of 3 and above name no list), each list in
/// increasing offset.
pub open spec fn burst_spec(tpl: PacketView, parts: Seq<u64>, size: int, order: Seq<usize>) -> Seq<PacketView>
    decreases order.len(),
{
    if order.len() == 0 {
        seq![]
    } else {
        let num = fragments_of(size);
        let c = order.last();
        let rest = burst_spec(tpl, parts, size, order.drop_last());
        if c < 3 {
            rest + channel_packets(tpl, size, num, packet_states(parts, num as nat)[c as int])
        } else {
            rest
        }
    }
}

/// Every permutation of the three channel lists.
pub open spec fn is_channel_order(order: Seq<usize>) -> bool {
    order.to_multiset() == seq![0usize, 1, 2].to_multiset()
}

proof fn lemma_fragments(size: int)
    requires
        0 <= size <= MAX_BURST_BYTES,
    ensures
        0 <= fragments_of(size) <= MAX_FRAGMENTS,
        size == 0 ==> fragments_of(size) == 0,
        size > 0 ==> fragments_of(size) >= 1 && (fragments_of(size) - 1) * MAX_PAYLOAD_LEN < size
            && size <= fragments_of(size) * MAX_PAYLOAD_LEN,
{
    let m = MAX_PAYLOAD_LEN as int;
    let q = size / m;
    let r = size % m;
    assert(m == 1453);
    assert(size == m * q + r && 0 <= r < m) by {
        vstd::arithmetic::div_mod::lemma_fundamental_div_mod(size, m);
    }
    assert(q <= 0x1_0000) by (nonlinear_arith)
        requires
            size == m * q + r,
            0 <= r < m,
            m == 1453,
            size <= 0x1_0000 * 1453,
    ;
    assert(q >= 0) by (nonlinear_arith)
        requires
            size == m * q + r,
            0 <= r < m,
            m == 1453,
            size >= 0,
    ;
    if r == 0 {
        assert(q == 0x1_0000 ==> size == 0x1_0000 * 1453);
        if size > 0 {
            assert(q >= 1) by (nonlinear_arith)
                requires
                    size == m * q,
                    size > 0,
                    m == 1453,
                    q >= 0,
            ;
            assert((q - 1) * m < size && size <= q * m) by (nonlinear_arith)
                requires
                    size == m * q,
                    m == 1453,
            ;
        }
    } else {
        assert(q < 0x1_0000) by (nonlinear_arith)
            requires
                size == m * q + r,
                0 < r < m,
                m == 1453,
                size <= 0x1_0000 * 1453,
        ;
        assert(q * m < size && size <= (q + 1) * m) by (nonlinear_arith)
            requires
                size == m * q + r,
                0 < r < m,
                m == 1453,
        ;
    }
}

pub fn num_fragments(size: u64) -> (r: usize)
    requires
        size <= MAX_BURST_BYTES,
    ensures
        r == fragments_of(size as int),
        r <= MAX_FRAGMENTS,
{
    proof {
        lemma_fragments(size as int);
    }
    let full: u64 = size / MAX_PAYLOAD_LEN as u64;
    let remains: u64 = size % MAX_PAYLOAD_LEN as u64;
    let num: u64 = if remains > 0 {
        full + 1
    } else {
        full
    };
    num as usize
}

/// The packets of one burst of `size` bytes, built from `template`: for
/// each channel list named in `order`, one packet per entry, with the
/// entry's offset and tag and the fragment's length.
pub fn build_burst(template: &PacketStruct, ctl: &TxPartCtler, size: u64, order: &Vec<usize>) -> (r: Vec<PacketStruct>)
    requires
        ctl.wf(),
        size <= MAX_BURST_BYTES,
    ensures
        r@.map_values(|p: PacketStruct| p@) == burst_spec(template@, ctl.tx_parts@, size as int, order@),
{
    let num = num_fragments(size);
    let states = ctl.get_packet_states(num);
    let ghost tpl = template@;
    let ghost parts = ctl.tx_parts@;
    proof {
        lemma_fragments(size as int);
    }
    let mut out: Vec<PacketStruct> = Vec::new();
    let mut k: usize = 0;
    while k < order.len()
        invariant
            k <= order@.len(),
            num == fragments_of(size as int),
            num <= MAX_FRAGMENTS,
            size <= MAX_BURST_BYTES,
            tpl == template@,
            parts == ctl.tx_parts@,
            states@.len() == 3,
            forall|c: int| 0 <= c < 3 ==> #[trigger] states@[c]@ == packet_states(parts, num as nat)[c],
            out@.map_values(|p: PacketStruct| p@) == burst_spec(tpl, parts, size as int, order@.subrange(0, k as int)),
        decreases order@.len() - k,
    {
        let c = order[k];
        let ghost before = out@.map_values(|p: PacketStruct| p@);
        if c < 3 {
            let list = &states[c];
            proof {
                lemma_fragments(size as int);
                lemma_channel_entries(parts, num as int, 0, num as nat);
                lemma_channel_entries(parts, num as int, 1, num as nat);
                lemma_channel_entries(parts, num as int, 2, num as nat);
            }
            assert(forall|i: int| 0 <= i < list@.len() ==> (#[trigger] list@[i]).0 < num);
            let mut j: usize = 0;
            while j < list.len()
                invariant
                    j <= list@.len(),
                    num == fragments_of(size as int),
                    num <= MAX_FRAGMENTS,
                    size <= MAX_BURST_BYTES,
                    tpl == template@,
                    list@ == packet_states(parts, num as nat)[c as int],
                    forall|i: int| 0 <= i < list@.len() ==> (#[trigger] list@[i]).0 < num,
                    size > 0 ==> num >= 1 && (num - 1) * MAX_PAYLOAD_LEN < size && size <= num * MAX_PAYLOAD_LEN,
                    size == 0 ==> num == 0,
                    out@.map_values(|p: PacketStruct| p@) == before + channel_packets(
                        tpl,
                        size as int,
                        num as int,
                        list@.subrange(0, j as int),
                    ),
                decreases list@.len() - j,
            {
                let (offset, t) = list[j];
                let length: u64 = if (offset as usize) + 1 < num {
                    MAX_PAYLOAD_LEN as u64
                } else {
                    size - (num as u64 - 1) * MAX_PAYLOAD_LEN as u64
                };
                let mut p = template.duplicate();
                p.set_length(length as u16);
                p.set_offset(offset);
                p.set_indicator(t);
                let ghost prev = out@;
                out.push(p);
                proof {
                    assert(list@.subrange(0, j + 1) =~= list@.subrange(0, j as int).push((offset, t)));
                    assert(out@.map_values(|p: PacketStruct| p@) =~= prev.map_values(|p: PacketStruct| p@).push(p@));
                    assert(p@ == fragment_view(tpl, size as int, num as int, (offset, t)));
                }
                j = j + 1;
            }
            proof {
                assert(list@.subrange(0, list@.len() as int) =~= list@);
            }
        }
        proof {
            assert(order@.subrange(0, k + 1).drop_last() =~= order@.subrange(0, k as int));
        }
        k = k + 1;
    }
    proof {
        assert(order@.subrange(0, order@.len() as int) =~= order@);
    }
    out
}

/// A recorded trace: rows of `(interval_ns, size_bytes)`.
pub struct Trace {
    pub rows: Vec<(u64, u64)>,
}

impl Trace {
    /// At least one row, and every burst small enough to fragment.
    pub open spec fn wf(&self) -> bool {
        &&& self.rows@.len() > 0
        &&& forall|i: int| 0 <= i < self.rows@.len() ==> self.rows@[i].1 <= MAX_BURST_BYTES
    }

    /// A trace from its rows; `None` for an empty trace or one with a burst
    /// too large to fragment.
    pub fn new(rows: Vec<(u64, u64)>) -> (r: Option<Trace>)
        ensures
            r is Some <==> (rows@.len() > 0 && forall|i: int|
                0 <= i < rows@.len() ==> rows@[i].1 <= MAX_BURST_BYTES),
            r matches Some(t) ==> t.rows@ == rows@ && t.wf(),
    {
        if rows.len() == 0 {
            return None;
        }
        let mut i: usize = 0;
        while i < rows.len()
            invariant
                i <= rows@.len(),
                forall|j: int| 0 <= j < i ==> rows@[j].1 <= MAX_BURST_BYTES,
            decreases rows@.len() - i,
        {
            if rows[i].1 > MAX_BURST_BYTES {
                return None;
            }
            i = i + 1;
        }
        Some(Trace { rows })
    }
}

/// One burst handed to the pacing loop: its packets and the time to wait
/// after it.
pub struct Burst {
    pub seq: u32,
    pub interval_ns: u64,
    pub size_bytes: u64,
    pub packets: Vec<PacketStruct>,
}

/// Position of a stream in its trace.
pub struct SourceState {
    pub trace: Trace,
    pub template: PacketStruct,
    pub idx: usize,
    pub loops: usize,
    pub max_loops: usize,
}

/// The header a burst of `size` bytes leaves in the template: a non-empty
/// burst takes the next sequence number and notes its fragment count.
pub open spec fn template_after(tpl: PacketView, size: int) -> PacketView {
    if size > 0 {
        PacketView {
            seq: ((tpl.seq + 1) % 0x1_0000_0000) as u32,
            offset: (fragments_of(size) % 0x1_0000) as u16,
            ..tpl
        }
    } else {
        tpl
    }
}

/// One step of the source: the step count advances; while it stays below
/// `max_loops`, the next trace row (cyclically) becomes a burst whose
/// packets take the channel lists in `order`; after that, no burst.
pub open spec fn burst_step(pre: SourceState, post: SourceState, parts: Seq<u64>, order: Seq<usize>, r: Option<Burst>) -> bool {
    let loops = if pre.loops + 1 > usize::MAX {
        usize::MAX as int
    } else {
        pre.loops + 1
    };
    &&& post.loops == loops
    &&& post.max_loops == pre.max_loops
    &&& post.trace.rows@ == pre.trace.rows@
    &&& if loops < pre.max_loops {
        let idx = (pre.idx + 1) % pre.trace.rows@.len() as int;
        let row = pre.trace.rows@[idx];
        &&& post.idx == idx
        &&& post.template@ == template_after(pre.template@, row.1 as int)
        &&& r matches Some(b) && b.interval_ns == row.0 && b.size_bytes == row.1 && b.seq == post.template.seq
            && views(b.packets@) == burst_spec(post.template@, parts, row.1 as int, order)
    } else {
        &&& post.idx == pre.idx
        &&& post.template@ == pre.template@
        &&& r is None
    }
}

/// Relies on rand's `SliceRandom::shuffle` (with `thread_rng`), which only
/// swaps elements: the result is a permutation of the input.
#[verifier::external_body]
fn shuffle_order(order: &mut Vec<usize>)
    ensures
        final(order)@.to_multiset() == old(order)@.to_multiset(),
{
    order.shuffle(&mut rand::thread_rng());
}

impl SourceState {
    pub open spec fn wf(&self) -> bool {
        &&& self.trace.wf()
        &&& self.idx < self.trace.rows@.len()
    }

    /// A stream positioned at row `start_offset` (cyclically) with a fresh
    /// template for `port`.
    pub fn new(trace: Trace, port: u16, start_offset: usize, max_loops: usize) -> (r: Self)
        requires
            trace.wf(),
        ensures
            r.wf(),
            r.trace.rows@ == trace.rows@,
            r.idx == start_offset as int % trace.rows@.len() as int,
            r.loops == 0,
            r.max_loops == max_loops,
            r.template@ == PacketStruct::new_spec(port),
    {
        let idx = start_offset % trace.rows.len();
        let template = PacketStruct::new(port);
        SourceState { trace, template, idx, loops: 0, max_loops }
    }

    /// The next burst, its packets taking the channel lists in `order`.
    pub fn next_burst(&mut self, ctl: &TxPartCtler, order: &Vec<usize>) -> (r: Option<Burst>)
        requires
            old(self).wf(),
            ctl.wf(),
        ensures
            final(self).wf(),
            burst_step(*old(self), *final(self), ctl.tx_parts@, order@, r),
    {
        self.loops = self.loops.saturating_add(1);
        if self.loops >= self.max_loops {
            return None;
        }
        let n = self.trace.rows.len();
        self.idx = (self.idx + 1) % n;
        let (interval_ns, size_bytes) = self.trace.rows[self.idx];
        if size_bytes > 0 {
            let full: usize = (size_bytes / MAX_PAYLOAD_LEN as u64) as usize;
            let remains: usize = (size_bytes % MAX_PAYLOAD_LEN as u64) as usize;
            self.template.next_seq(full, remains);
        }
        let packets = build_burst(&self.template, ctl, size_bytes, order);
        Some(Burst { seq: self.template.seq, interval_ns, size_bytes, packets })
    }

    /// The next burst, with the channel lists taken in a random order.
    pub fn next_burst_shuffled(&mut self, ctl: &TxPartCtler) -> (r: Option<Burst>)
        requires
            old(self).wf(),
            ctl.wf(),
        ensures
            final(self).wf(),
            exists|order: Seq<usize>|
                is_channel_order(order) && burst_step(*old(self), *final(self), ctl.tx_parts@, order, r),
    {
        let mut order: Vec<usize> = vec![0, 1, 2];
        let ghost canonical = order@;
        shuffle_order(&mut order);
        let r = self.next_burst(ctl, &order);
        assert(canonical =~= seq![0usize, 1, 2]);
        assert(is_channel_order(order@));
        r
    }
}

/// An empty burst yields no packet, whatever the order of the lists, and
/// leaves the template (so the sequence number) as it was.
pub proof fn lemma_empty_burst(tpl: PacketView, parts: Seq<u64>, order: Seq<usize>)
    ensures
        burst_spec(tpl, parts, 0, order) == Seq::<PacketView>::empty(),
        template_after(tpl, 0) == tpl,
    decreases order.len(),
{
    if order.len() > 0 {
        lemma_empty_burst(tpl, parts, order.drop_last());
        assert(fragments_of(0) == 0);
        assert(channel_states(parts, 0, 0, 0) == Seq::<(u16, PacketType)>::empty());
        assert(single_channel(parts, 0));
        let c = order.last();
        if c < 3 {
            assert(packet_states(parts, 0)[c as int] =~= Seq::<(u16, PacketType)>::empty());
            assert(burst_spec(tpl, parts, 0, order) =~= Seq::<PacketView>::empty());
        }
    }
}

/// Payload bytes carried by the entries of a channel list whose offset `o`
/// has `o * PART_SCALE >= skip` (with `skip` the first link's share, the
/// second link's fragments that the first link does not also carry).
pub open spec fn list_bytes(list: Seq<(u16, PacketType)>, size: int, num: int, skip: int) -> int
    decreases list.len(),
{
    if list.len() == 0 {
        0
    } else {
        let e = list.last();
        list_bytes(list.drop_last(), size, num, skip) + if e.0 * PART_SCALE >= skip {
            fragment_length(size, num, e.0 as int)
        } else {
            0
        }
    }
}

spec fn carried_bytes(parts: Seq<u64>, size: int, num: int, c: int, skip: int, k: nat) -> int
    decreases k,
{
    if k == 0 {
        0
    } else {
        let o = k - 1;
        carried_bytes(parts, size, num, c, skip, (k - 1) as nat) + if state_of(parts, o, num, c) is Some && o
            * PART_SCALE >= skip {
            fragment_length(size, num, o)
        } else {
            0
        }
    }
}

spec fn prefix_bytes(size: int, num: int, k: nat) -> int
    decreases k,
{
    if k == 0 {
        0
    } else {
        prefix_bytes(size, num, (k - 1) as nat) + fragment_length(size, num, k - 1)
    }
}

proof fn lemma_list_bytes(parts: Seq<u64>, size: int, num: int, c: int, skip: int, k: nat)
    requires
        k <= MAX_FRAGMENTS,
    ensures
        list_bytes(channel_states(parts, num, c, k), size, num, skip) == carried_bytes(parts, size, num, c, skip, k),
    decreases k,
{
    if k > 0 {
        lemma_list_bytes(parts, size, num, c, skip, (k - 1) as nat);
        let prev = channel_states(parts, num, c, (k - 1) as nat);
        match state_of(parts, k - 1, num, c) {
            Some(t) => {
                assert(prev.push(((k - 1) as u16, t)).drop_last() =~= prev);
            },
            None => {},
        }
    }
}

proof fn lemma_prefix_bytes(size: int, num: int, k: nat)
    requires
        k < num,
    ensures
        prefix_bytes(size, num, k) == k * 1453,
    decreases k,
{
    assert(MAX_PAYLOAD_LEN == 1453);
    if k > 0 {
        lemma_prefix_bytes(size, num, (k - 1) as nat);
    }
}

proof fn lemma_split_bytes(parts: Seq<u64>, size: int, num: int, k: nat)
    requires
        parts.len() >= 2,
        second_start(parts, num) <= parts[0] * num,
    ensures
        carried_bytes(parts, size, num, 1, 0, k) + carried_bytes(parts, size, num, 2, parts[0] * num, k)
            == prefix_bytes(size, num, k),
    decreases k,
{
    if k > 0 {
        lemma_split_bytes(parts, size, num, (k - 1) as nat);
    }
}

proof fn lemma_single_bytes(parts: Seq<u64>, size: int, num: int, k: nat)
    ensures
        carried_bytes(parts, size, num, 0, 0, k) == prefix_bytes(size, num, k),
    decreases k,
{
    if k > 0 {
        lemma_single_bytes(parts, size, num, (k - 1) as nat);
    }
}

/// The fragments of a burst carry exactly its bytes: the lengths on the
/// first link (or the single link), plus those on the second link at
/// offsets the first does not also carry, add up to `size`.
pub proof fn lemma_burst_bytes(parts: Seq<u64>, size: int)
    requires
        parts_valid(parts),
        0 <= size <= MAX_BURST_BYTES,
    ensures
        ({
            let num = fragments_of(size);
            let ls = packet_states(parts, num as nat);
            let skip = if parts.len() >= 1 {
                parts[0] * num
            } else {
                0
            };
            list_bytes(ls[0], size, num, 0) + list_bytes(ls[1], size, num, 0) + list_bytes(ls[2], size, num, skip)
                == size
        }),
{
    let num = fragments_of(size);
    lemma_fragments(size);
    let skip = if parts.len() >= 1 {
        parts[0] * num
    } else {
        0
    };
    let ls = packet_states(parts, num as nat);
    if num > 0 {
        lemma_prefix_bytes(size, num, (num - 1) as nat);
        assert(MAX_PAYLOAD_LEN == 1453);
        assert(prefix_bytes(size, num, num as nat) == size);
    }
    assert(list_bytes(Seq::<(u16, PacketType)>::empty(), size, num, 0) == 0);
    assert(list_bytes(Seq::<(u16, PacketType)>::empty(), size, num, skip) == 0);
    if single_channel(parts, num) {
        lemma_list_bytes(parts, size, num, 0, 0, num as nat);
        lemma_single_bytes(parts, size, num, num as nat);
    } else {
        assert(second_start(parts, num) <= parts[0] * num) by (nonlinear_arith)
            requires
                second_start(parts, num) == (PART_SCALE - parts[1]) * num,
                parts[0] + parts[1] >= PART_SCALE,
                num >= 0,
        ;
        lemma_list_bytes(parts, size, num, 1, 0, num as nat);
        lemma_list_bytes(parts, size, num, 2, skip, num as nat);
        lemma_split_bytes(parts, size, num, num as nat);
    }
}

/// How many times list `c` is named in an order.
pub open spec fn count_of(order: Seq<usize>, c: usize) -> nat
    decreases order.len(),
{
    if order.len() == 0 {
        0
    } else {
        count_of(order.drop_last(), c) + if order.last() == c {
            1nat
        } else {
            0
        }
    }
}

proof fn lemma_count_multiset(order: Seq<usize>, c: usize)
    ensures
        order.to_multiset().count(c) == count_of(order, c),
    decreases order.len(),
{
    broadcast use vstd::seq_lib::group_to_multiset_ensures;
    broadcast use vstd::multiset::group_multiset_axioms;

    if order.len() == 0 {
        assert(order =~= Seq::<usize>::empty());
    } else {
        lemma_count_multiset(order.drop_last(), c);
        assert(order.drop_last().push(order.last()) =~= order);
        assert(order.to_multiset() =~= order.drop_last().to_multiset().insert(order.last()));
    }
}

/// A channel order names each list exactly once.
proof fn lemma_channel_order_counts(order: Seq<usize>)
    requires
        is_channel_order(order),
    ensures
        count_of(order, 0) == 1,
        count_of(order, 1) == 1,
        count_of(order, 2) == 1,
{
    let canonical = seq![0usize, 1, 2];
    assert(canonical.drop_last() =~= seq![0usize, 1]);
    assert(seq![0usize, 1].drop_last() =~= seq![0usize]);
    assert(seq![0usize].drop_last() =~= Seq::<usize>::empty());
    assert forall|c: usize| c < 3 implies count_of(order, c) == 1 by {
        lemma_count_multiset(order, c);
        lemma_count_multiset(canonical, c);
        assert(count_of(Seq::<usize>::empty(), c) == 0);
        assert(count_of(seq![0usize], c) == if c == 0 { 1nat } else { 0 });
        assert(count_of(seq![0usize, 1], c) == if c <= 1 { 1nat } else { 0 });
    }
}

proof fn lemma_one_list_only(tpl: PacketView, parts: Seq<u64>, size: int, order: Seq<usize>, j: usize)
    requires
        j < 3,
        forall|c: int| 0 <= c < 3 && c != j ==> #[trigger] packet_states(parts, fragments_of(size) as nat)[c].len() == 0,
        count_of(order, j) <= 1,
    ensures
        burst_spec(tpl, parts, size, order) == (if count_of(order, j) == 1 {
            channel_packets(tpl, size, fragments_of(size), packet_states(parts, fragments_of(size) as nat)[j as int])
        } else {
            Seq::<PacketView>::empty()
        }),
    decreases order.len(),
{
    if order.len() > 0 {
        lemma_one_list_only(tpl, parts, size, order.drop_last(), j);
        let num = fragments_of(size);
        let c = order.last();
        if c < 3 && c != j {
            assert(packet_states(parts, num as nat)[c as int].len() == 0);
            assert(channel_packets(tpl, size, num, packet_states(parts, num as nat)[c as int])
                =~= Seq::<PacketView>::empty());
        }
        assert(burst_spec(tpl, parts, size, order) =~= (if count_of(order, j) == 1 {
            channel_packets(tpl, size, num, packet_states(parts, num as nat)[j as int])
        } else {
            Seq::<PacketView>::empty()
        }));
    }
}

/// A burst of exactly one full payload is one packet: offset 0, the full
/// length, tagged `SL`, or `DSS` when the whole burst goes to the second
/// link; this whatever order the channel lists are taken in, so also for
/// the random order of `next_burst_shuffled`.
pub proof fn lemma_full_payload_any_order(tpl: PacketView, parts: Seq<u64>, order: Seq<usize>)
    requires
        parts_valid(parts),
        is_channel_order(order),
    ensures
        burst_spec(tpl, parts, MAX_PAYLOAD_LEN as int, order) == seq![
            PacketView {
                offset: 0,
                length: MAX_PAYLOAD_LEN as u16,
                indicators: indicator_of(one_fragment_tag(parts)),
                ..tpl
            },
        ],
{
    let size = MAX_PAYLOAD_LEN as int;
    assert(fragments_of(size) == 1);
    lemma_one_fragment_burst(parts);
    lemma_channel_order_counts(order);
    let j = one_fragment_list(parts) as usize;
    lemma_one_list_only(tpl, parts, size, order, j);
    let one = seq![(0u16, one_fragment_tag(parts))];
    assert(packet_states(parts, 1)[j as int] == one);
    assert(channel_packets(tpl, size, 1, one) =~= seq![fragment_view(tpl, size, 1, (0u16, one_fragment_tag(parts)))]);
}

/// Payload bytes that a burst's packets deliver: every packet on the first
/// link, and those on the second link whose offset has
/// `offset * PART_SCALE >= skip` (with `skip` the first link's share, the
/// ones the first link does not also carry).
pub open spec fn sent_bytes(pkts: Seq<PacketView>, skip: int) -> int
    decreases pkts.len(),
{
    if pkts.len() == 0 {
        0
    } else {
        let p = pkts.last();
        sent_bytes(pkts.drop_last(), skip) + if channel_of(p.indicators) == 0 || p.offset * PART_SCALE >= skip {
            p.length as int
        } else {
            0
        }
    }
}

proof fn lemma_sent_concat(a: Seq<PacketView>, b: Seq<PacketView>, skip: int)
    ensures
        sent_bytes(a + b, skip) == sent_bytes(a, skip) + sent_bytes(b, skip),
    decreases b.len(),
{
    if b.len() == 0 {
        assert(a + b =~= a);
    } else {
        lemma_sent_concat(a, b.drop_last(), skip);
        assert((a + b).drop_last() =~= a + b.drop_last());
        assert((a + b).last() == b.last());
    }
}

proof fn lemma_sent_list(tpl: PacketView, parts: Seq<u64>, size: int, c: int, skip: int, k: nat)
    requires
        0 <= size <= MAX_BURST_BYTES,
        0 <= c < 3,
        k <= fragments_of(size),
    ensures
        ({
            let num = fragments_of(size);
            let list = channel_states(parts, num, c, k);
            sent_bytes(channel_packets(tpl, size, num, list), skip) == list_bytes(
                list,
                size,
                num,
                if c == 2 {
                    skip
                } else {
                    0
                },
            )
        }),
    decreases k,
{
    let num = fragments_of(size);
    lemma_fragments(size);
    if k > 0 {
        lemma_sent_list(tpl, parts, size, c, skip, (k - 1) as nat);
        let prev = channel_states(parts, num, c, (k - 1) as nat);
        match state_of(parts, k - 1, num, c) {
            Some(t) => {
                let e = ((k - 1) as u16, t);
                assert(e.0 as int == k - 1);
                let cur = prev.push(e);
                assert(channel_packets(tpl, size, num, cur) =~= channel_packets(tpl, size, num, prev).push(
                    fragment_view(tpl, size, num, e),
                ));
                assert(channel_packets(tpl, size, num, cur).drop_last() =~= channel_packets(tpl, size, num, prev));
                assert(cur.drop_last() =~= prev);
                assert(MAX_PAYLOAD_LEN == 1453);
                assert(1 <= fragment_length(size, num, k - 1) <= 1453);
            },
            None => {},
        }
    }
}

proof fn lemma_sent_burst(tpl: PacketView, parts: Seq<u64>, size: int, skip: int, order: Seq<usize>)
    requires
        forall|c: usize| count_of(order, c) <= 1,
    ensures
        ({
            let num = fragments_of(size);
            let b = |c: int| sent_bytes(channel_packets(tpl, size, num, packet_states(parts, num as nat)[c]), skip);
            sent_bytes(burst_spec(tpl, parts, size, order), skip) == (if count_of(order, 0) == 1 {
                b(0)
            } else {
                0
            }) + (if count_of(order, 1) == 1 {
                b(1)
            } else {
                0
            }) + (if count_of(order, 2) == 1 {
                b(2)
            } else {
                0
            })
        }),
    decreases order.len(),
{
    if order.len() > 0 {
        let rest = order.drop_last();
        assert forall|c: usize| count_of(rest, c) <= 1 by {
            assert(count_of(rest, c) <= count_of(order, c));
        }
        lemma_sent_burst(tpl, parts, size, skip, rest);
        let num = fragments_of(size);
        let c = order.last();
        if c < 3 {
            lemma_sent_concat(
                burst_spec(tpl, parts, size, rest),
                channel_packets(tpl, size, num, packet_states(parts, num as nat)[c as int]),
                skip,
            );
        }
    } else {
        assert(sent_bytes(Seq::<PacketView>::empty(), skip) == 0);
    }
}

/// Every byte of a burst is delivered once: over the packets the source
/// emits for it, in any order of the channel lists (so also the random
/// order of `next_burst_shuffled`), the lengths on the first link plus
/// those on the second link outside the redundant region add up to the
/// burst's size.
pub proof fn lemma_burst_packets_bytes(tpl: PacketView, parts: Seq<u64>, size: int, order: Seq<usize>)
    requires
        parts_valid(parts),
        0 <= size <= MAX_BURST_BYTES,
        is_channel_order(order),
    ensures
        ({
            let num = fragments_of(size);
            let skip = if parts.len() >= 1 {
                parts[0] * num
            } else {
                0
            };
            sent_bytes(burst_spec(tpl, parts, size, order), skip) == size
        }),
{
    let num = fragments_of(size);
    lemma_fragments(size);
    let skip = if parts.len() >= 1 {
        parts[0] * num
    } else {
        0
    };
    lemma_channel_order_counts(order);
    assert forall|c: usize| count_of(order, c) <= 1 by {
        lemma_count_multiset(order, c);
        lemma_count_multiset(seq![0usize, 1, 2], c);
        if c >= 3 {
            assert(!seq![0usize, 1, 2].contains(c)) by {
                if seq![0usize, 1, 2].contains(c) {
                    let i = choose|i: int| 0 <= i < 3 && seq![0usize, 1, 2][i] == c;
                }
            }
            broadcast use vstd::seq_lib::group_to_multiset_ensures;
        }
    }
    lemma_sent_burst(tpl, parts, size, skip, order);
    lemma_burst_bytes(parts, size);
    let ls = packet_states(parts, num as nat);
    lemma_sent_list(tpl, parts, size, 0, skip, num as nat);
    lemma_sent_list(tpl, parts, size, 1, skip, num as nat);
    lemma_sent_list(tpl, parts, size, 2, skip, num as nat);
    let empty = Seq::<(u16, PacketType)>::empty();
    assert(channel_packets(tpl, size, num, empty) =~= Seq::<PacketView>::empty());
    assert(sent_bytes(Seq::<PacketView>::empty(), skip) == 0);
    assert(list_bytes(empty, size, num, 0) == 0);
    assert(list_bytes(empty, size, num, skip) == 0);
}

} // verus!
