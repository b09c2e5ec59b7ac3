//! Receiver side: reassembles each burst by sequence number, detects
//! completion as early as the tags allow, and decides the per-link
//! acknowledgements.
//!
//! A burst is complete when its single-link last fragment has arrived with
//! every offset before it, or when both halves of a split are complete:
//! the first link's from offset 0 up to its last fragment (`DFL`), the
//! second link's from its lowest offset (`DSL`) up to the burst's
//! last offset (`DSF`).

use vstd::prelude::*;
use std::collections::HashMap;
use crate::packet::{PacketStruct, PacketType, packet_wf, tag_of, is_indicator, indicator_of, encode_spec, PacketView};

verus! {

broadcast use vstd::std_specs::hash::group_hash_axioms;

/// Offsets are all present from `lo` to `hi` inclusive (none needed when
/// `lo > hi`).
pub open spec fn range_complete(dom: Set<u16>, lo: u16, hi: u16) -> bool {
    forall|i: u16| lo <= i <= hi ==> #[trigger] dom.contains(i)
}

/// What a record knows: the offsets received, the offsets of the tagged
/// fragments seen, and which links have been acknowledged.
pub struct RecordModel {
    pub dom: Set<u16>,
    pub sl: Option<u16>,
    pub dfl: Option<u16>,
    pub dsf: Option<u16>,
    pub dsl: Option<u16>,
    pub ack: (bool, bool),
}

pub open spec fn empty_record() -> RecordModel {
    RecordModel { dom: Set::empty(), sl: None, dfl: None, dsf: None, dsl: None, ack: (false, false) }
}

pub open spec fn sl_complete(m: RecordModel) -> bool {
    m.sl matches Some(sl) && range_complete(m.dom, 0, sl)
}

pub open spec fn ch1_complete(m: RecordModel) -> bool {
    !sl_complete(m) && (m.dfl matches Some(dfl) && range_complete(m.dom, 0, dfl))
}

pub open spec fn ch2_complete(m: RecordModel) -> bool {
    !sl_complete(m) && (m.dsf matches Some(dsf) && m.dsl matches Some(dsl) && range_complete(m.dom, dsl, dsf))
}

/// The burst can be delivered.
pub open spec fn complete(m: RecordModel) -> bool {
    sl_complete(m) || (ch1_complete(m) && ch2_complete(m))
}

/// The record after the fragment at `offset` tagged `t` arrives.
pub open spec fn record_spec(m: RecordModel, offset: u16, t: PacketType) -> RecordModel {
    let m1 = match t {
        PacketType::SL => RecordModel { sl: Some(offset), ..m },
        PacketType::DFL => RecordModel { dfl: Some(offset), ..m },
        PacketType::DSF => RecordModel { dsf: Some(offset), ..m },
        PacketType::DSL => RecordModel { dsl: Some(offset), ..m },
        PacketType::DSS => RecordModel { dsf: Some(offset), dsl: Some(offset), ..m },
        _ => m,
    };
    RecordModel { dom: m1.dom.insert(offset), ..m1 }
}

/// Acknowledgement tag for a link: `SLFL`/`SLSL` when the burst is
/// complete, else `DFL`/`DSL`.
pub open spec fn ack_tag(link: int, done: bool) -> PacketType {
    if link == 0 {
        if done {
            PacketType::SLFL
        } else {
            PacketType::DFL
        }
    } else {
        if done {
            PacketType::SLSL
        } else {
            PacketType::DSL
        }
    }
}

/// Whether a fragment arriving on `link` leaves a record that is owed an
/// acknowledgement on that link: a completed half (or the whole
/// single-link burst) has not been acknowledged, and neither has `link`.
pub open spec fn ack_due(m: RecordModel, link: int) -> bool {
    &&& ((!m.ack.0 && (sl_complete(m) || ch1_complete(m))) || (!m.ack.1 && ch2_complete(m)))
    &&& if link == 0 {
        !m.ack.0
    } else {
        !m.ack.1
    }
}

/// What the receiver knows: open records by sequence number, the highest
/// sequence number seen, and the number of bursts delivered.
pub struct RxModel {
    pub records: Map<u32, RecordModel>,
    pub last_seq: u32,
    pub received: u32,
}

/// One arriving fragment `(seq, offset, t)` on `link`: the record of `seq`
/// (fresh if none) takes it; an acknowledgement goes back on `link` when
/// due; a complete record is removed and counted.  Returns the new state,
/// the acknowledgement tag if any, and whether the burst completed.
pub open spec fn rx_step(m: RxModel, seq: u32, offset: u16, t: PacketType, link: int) -> (RxModel, Option<PacketType>, bool) {
    let rec0 = if m.records.contains_key(seq) {
        m.records[seq]
    } else {
        empty_record()
    };
    let rec1 = record_spec(rec0, offset, t);
    let due = ack_due(rec1, link);
    let rec2 = if !due {
        rec1
    } else if link == 0 {
        RecordModel { ack: (true, rec1.ack.1), ..rec1 }
    } else {
        RecordModel { ack: (rec1.ack.0, true), ..rec1 }
    };
    let done = complete(rec2);
    let ack = if due {
        Some(ack_tag(link, done))
    } else {
        None
    };
    let last = if seq > m.last_seq {
        seq
    } else {
        m.last_seq
    };
    if done {
        (
            RxModel {
                records: m.records.remove(seq),
                last_seq: last,
                received: ((m.received + 1) % 0x1_0000_0000) as u32,
            },
            ack,
            true,
        )
    } else {
        (RxModel { records: m.records.insert(seq, rec2), last_seq: last, ..m }, ack, false)
    }
}

pub open spec fn link_acked(r: RecordModel, link: int) -> bool {
    if link == 0 {
        r.ack.0
    } else {
        r.ack.1
    }
}

/// A fragment that completes its burst removes the burst's record and
/// counts one delivery; any other fragment keeps the record and leaves the
/// count as it was.
pub proof fn lemma_completion_counted_once(m: RxModel, seq: u32, offset: u16, t: PacketType, link: int)
    ensures
        ({
            let (m1, a, done) = rx_step(m, seq, offset, t, link);
            &&& done ==> !m1.records.contains_key(seq) && m1.received == (m.received + 1) % 0x1_0000_0000
            &&& !done ==> m1.records.contains_key(seq) && m1.received == m.received
            &&& forall|s: u32| s != seq ==> (#[trigger] m1.records.contains_key(s) == m.records.contains_key(s))
        }),
{
}

/// Once every offset of a burst of `num` fragments has arrived, its record
/// is complete: in single-link mode as soon as its last fragment is known,
/// in split mode once the first link's last fragment and the second link's
/// two ends are known.
pub proof fn lemma_all_arrived_completes(r: RecordModel, num: u16)
    requires
        num >= 1,
        forall|i: u16| i < num ==> #[trigger] r.dom.contains(i),
        r.sl == Some((num - 1) as u16) || (r.dfl is Some && r.dsl is Some && r.dsf is Some
            && r.dfl.unwrap() < num && r.dsl.unwrap() <= r.dsf.unwrap() && r.dsf.unwrap() < num),
    ensures
        complete(r),
{
}

/// The receiver after fragments `arrivals` (offset, tag) of burst `seq`
/// arrive in turn on `link`, and how many of them completed the burst.
pub open spec fn rx_run(m: RxModel, seq: u32, arrivals: Seq<(u16, PacketType)>, link: int) -> (RxModel, nat)
    decreases arrivals.len(),
{
    if arrivals.len() == 0 {
        (m, 0)
    } else {
        let (m1, c) = rx_run(m, seq, arrivals.drop_last(), link);
        let e = arrivals.last();
        let (m2, a, done) = rx_step(m1, seq, e.0, e.1, link);
        (m2, c + if done {
            1nat
        } else {
            0
        })
    }
}

/// The fragments of a single-link burst of `n` fragments, each arriving
/// exactly once, in some order: offsets below `n`, pairwise distinct and
/// all present, the last one tagged `SL` and the others `SNL`.
pub open spec fn single_link_arrivals(arrivals: Seq<(u16, PacketType)>, n: int) -> bool {
    &&& 1 <= n <= 0x1_0000
    &&& arrivals.len() == n
    &&& forall|i: int| 0 <= i < n ==> (#[trigger] arrivals[i]).0 < n
    &&& forall|i: int, j: int| 0 <= i < j < n ==> (#[trigger] arrivals[i]).0 != (#[trigger] arrivals[j]).0
    &&& forall|o: u16| (o as int) < n ==> #[trigger] arrived(arrivals, n).contains(o)
    &&& forall|i: int|
        0 <= i < n ==> (#[trigger] arrivals[i]).1 == (if arrivals[i].0 == n - 1 {
            PacketType::SL
        } else {
            PacketType::SNL
        })
}

pub open spec fn arrived(arrivals: Seq<(u16, PacketType)>, k: int) -> Set<u16> {
    Set::new(|o: u16| exists|i: int| 0 <= i < k && (#[trigger] arrivals[i]).0 == o)
}

proof fn lemma_single_link_prefix(m: RxModel, seq: u32, arrivals: Seq<(u16, PacketType)>, n: int, link: int, k: int)
    requires
        n >= 1,
        single_link_arrivals(arrivals, n),
        !m.records.contains_key(seq),
        0 <= k <= n,
    ensures
        ({
            let (mk, c) = rx_run(m, seq, arrivals.subrange(0, k), link);
            &&& k < n ==> {
                &&& c == 0
                &&& mk.received == m.received
                &&& (k > 0 ==> mk.records.contains_key(seq))
                &&& (k == 0 ==> !mk.records.contains_key(seq))
                &&& (k > 0 ==> mk.records[seq].dom == arrived(arrivals, k))
                &&& (k > 0 ==> mk.records[seq].dfl is None && mk.records[seq].dsf is None
                    && mk.records[seq].dsl is None)
                &&& (k > 0 ==> (mk.records[seq].sl is Some <==> arrived(arrivals, k).contains((n - 1) as u16)))
                &&& (k > 0 ==> (mk.records[seq].sl is Some ==> mk.records[seq].sl == Some((n - 1) as u16)))
            }
            &&& k == n ==> c == 1 && !mk.records.contains_key(seq) && mk.received == (m.received + 1)
                % 0x1_0000_0000
        }),
    decreases k,
{
    if k == 0 {
        assert(arrivals.subrange(0, 0) =~= Seq::<(u16, PacketType)>::empty());
    } else {
        lemma_single_link_prefix(m, seq, arrivals, n, link, k - 1);
        let pre = arrivals.subrange(0, k - 1);
        let cur = arrivals.subrange(0, k);
        assert(cur.drop_last() =~= pre);
        let m1 = rx_run(m, seq, pre, link).0;
        let e = arrivals[k - 1];
        assert(cur.last() == e);
        let rec0 = if m1.records.contains_key(seq) {
            m1.records[seq]
        } else {
            empty_record()
        };
        let rec1 = record_spec(rec0, e.0, e.1);
        assert(rec1.dom =~= arrived(arrivals, k)) by {
            assert forall|o: u16| rec1.dom.contains(o) <==> arrived(arrivals, k).contains(o) by {
                if o == e.0 {
                    assert(arrivals[k - 1].0 == o);
                }
                if arrived(arrivals, k).contains(o) && o != e.0 {
                    let i = choose|i: int| 0 <= i < k && (#[trigger] arrivals[i]).0 == o;
                    assert(i < k - 1);
                    assert(arrived(arrivals, k - 1).contains(o));
                }
                if k - 1 > 0 && rec0.dom.contains(o) {
                    assert(arrived(arrivals, k - 1).contains(o));
                    let i = choose|i: int| 0 <= i < k - 1 && (#[trigger] arrivals[i]).0 == o;
                    assert(arrived(arrivals, k).contains(o));
                }
            }
        }
        if k < n {
            // the burst's last arrival has not come yet, so an offset is missing
            let last_o = arrivals[n - 1].0;
            assert(!arrived(arrivals, k).contains(last_o)) by {
                if arrived(arrivals, k).contains(last_o) {
                    let i = choose|i: int| 0 <= i < k && (#[trigger] arrivals[i]).0 == last_o;
                    assert(arrivals[i].0 != arrivals[n - 1].0);
                }
            }
            assert(!range_complete(rec1.dom, 0, (n - 1) as u16));
            assert(arrived(arrivals, k).contains((n - 1) as u16) <==> (arrived(arrivals, k - 1).contains((n - 1) as u16) || e.0 == (n - 1) as u16)) by {
                if arrived(arrivals, k).contains((n - 1) as u16) && e.0 != (n - 1) as u16 {
                    let i = choose|i: int| 0 <= i < k && (#[trigger] arrivals[i]).0 == (n - 1) as u16;
                    assert(arrived(arrivals, k - 1).contains((n - 1) as u16));
                }
                if arrived(arrivals, k - 1).contains((n - 1) as u16) {
                    let i = choose|i: int| 0 <= i < k - 1 && (#[trigger] arrivals[i]).0 == (n - 1) as u16;
                    assert(arrived(arrivals, k).contains((n - 1) as u16));
                }
            }
        } else {
            assert forall|o: u16| 0 <= o <= (n - 1) as u16 implies #[trigger] rec1.dom.contains(o) by {
                assert(arrived(arrivals, n).contains(o));
            }
            assert(arrived(arrivals, n).contains((n - 1) as u16));
            if e.0 != (n - 1) as u16 {
                let i = choose|i: int| 0 <= i < n && (#[trigger] arrivals[i]).0 == (n - 1) as u16;
                assert(i < k - 1);
                assert(arrived(arrivals, k - 1).contains((n - 1) as u16));
            }
            assert(rec1.sl == Some((n - 1) as u16));
        }
    }
}

/// Receiver completion: when every fragment of a single-link burst arrives
/// exactly once, in any order, with no record of the burst open before,
/// the burst completes exactly once (at its last arrival), its record is
/// deleted, and the delivery count grows by exactly one.
pub proof fn lemma_single_link_burst_completes_once(
    m: RxModel,
    seq: u32,
    arrivals: Seq<(u16, PacketType)>,
    n: int,
    link: int,
)
    requires
        n >= 1,
        single_link_arrivals(arrivals, n),
        !m.records.contains_key(seq),
    ensures
        ({
            let (mn, c) = rx_run(m, seq, arrivals, link);
            &&& c == 1
            &&& !mn.records.contains_key(seq)
            &&& mn.received == (m.received + 1) % 0x1_0000_0000
        }),
{
    lemma_single_link_prefix(m, seq, arrivals, n, link, n);
    assert(arrivals.subrange(0, n) =~= arrivals);
}

/// The receiver after fragments `(offset, tag, link)` of burst `seq` arrive
/// in turn: the state, how many of them completed the burst, and how many
/// acknowledgements went out on each link.
pub open spec fn rx_trace(m: RxModel, seq: u32, arrivals: Seq<(u16, PacketType, int)>) -> (RxModel, nat, nat, nat)
    decreases arrivals.len(),
{
    if arrivals.len() == 0 {
        (m, 0, 0, 0)
    } else {
        let (m1, c, a0, a1) = rx_trace(m, seq, arrivals.drop_last());
        let e = arrivals.last();
        let (m2, a, done) = rx_step(m1, seq, e.0, e.1, e.2);
        (
            m2,
            c + if done {
                1nat
            } else {
                0
            },
            a0 + if a is Some && e.2 == 0 {
                1nat
            } else {
                0
            },
            a1 + if a is Some && e.2 != 0 {
                1nat
            } else {
                0
            },
        )
    }
}

/// Early-acknowledgement dedup: while a burst stays open (none of its
/// fragments completes it), starting with no record of it, the receiver
/// acknowledges each link at most once, whatever fragments arrive on
/// whichever links and in whatever order.
pub proof fn lemma_one_ack_per_link(m: RxModel, seq: u32, arrivals: Seq<(u16, PacketType, int)>)
    requires
        !m.records.contains_key(seq),
        forall|i: int| 0 <= i < arrivals.len() ==> 0 <= (#[trigger] arrivals[i]).2 < 2,
    ensures
        ({
            let (mn, c, a0, a1) = rx_trace(m, seq, arrivals);
            c == 0 ==> a0 <= 1 && a1 <= 1
        }),
    decreases arrivals.len(),
{
    lemma_ack_flags_track(m, seq, arrivals);
}

proof fn lemma_ack_flags_track(m: RxModel, seq: u32, arrivals: Seq<(u16, PacketType, int)>)
    requires
        !m.records.contains_key(seq),
        forall|i: int| 0 <= i < arrivals.len() ==> 0 <= (#[trigger] arrivals[i]).2 < 2,
    ensures
        ({
            let (mn, c, a0, a1) = rx_trace(m, seq, arrivals);
            c == 0 ==> {
                &&& a0 <= 1 && a1 <= 1
                &&& arrivals.len() > 0 ==> mn.records.contains_key(seq)
                &&& arrivals.len() == 0 ==> a0 == 0 && a1 == 0 && !mn.records.contains_key(seq)
                &&& arrivals.len() > 0 ==> (a0 == 1 ==> mn.records[seq].ack.0) && (a1 == 1 ==> mn.records[seq].ack.1)
            }
        }),
    decreases arrivals.len(),
{
    if arrivals.len() > 0 {
        let pre = arrivals.drop_last();
        assert forall|i: int| 0 <= i < pre.len() implies 0 <= (#[trigger] pre[i]).2 < 2 by {
            assert(pre[i] == arrivals[i]);
        }
        lemma_ack_flags_track(m, seq, pre);
        assert(0 <= arrivals[arrivals.len() - 1].2 < 2);
    }
}

/// Number of arrivals tagged `SL` or `DFL`: the fragments that can close a
/// burst (single-link last, or first-link last of a split).
pub open spec fn closers(arrivals: Seq<(u16, PacketType, int)>) -> nat
    decreases arrivals.len(),
{
    if arrivals.len() == 0 {
        0
    } else {
        closers(arrivals.drop_last()) + if arrivals.last().1 == PacketType::SL || arrivals.last().1
            == PacketType::DFL {
            1nat
        } else {
            0
        }
    }
}

/// A burst completes at most as often as fragments able to close it
/// arrive: completing needs the record to know its `SL` or `DFL` offset,
/// and a completed record is removed.  As a burst has exactly one such
/// fragment, one that arrives once completes the burst at most once, on a
/// single link or split.
pub proof fn lemma_completions_bounded(m: RxModel, seq: u32, arrivals: Seq<(u16, PacketType, int)>)
    requires
        !m.records.contains_key(seq),
    ensures
        rx_trace(m, seq, arrivals).1 <= closers(arrivals),
{
    lemma_completions_track(m, seq, arrivals);
}

proof fn lemma_completions_track(m: RxModel, seq: u32, arrivals: Seq<(u16, PacketType, int)>)
    requires
        !m.records.contains_key(seq),
    ensures
        ({
            let (mn, c, a0, a1) = rx_trace(m, seq, arrivals);
            let open_closer = mn.records.contains_key(seq) && (mn.records[seq].sl is Some
                || mn.records[seq].dfl is Some);
            c + (if open_closer {
                1nat
            } else {
                0
            }) <= closers(arrivals)
        }),
    decreases arrivals.len(),
{
    if arrivals.len() > 0 {
        lemma_completions_track(m, seq, arrivals.drop_last());
    }
}

/// The acknowledgement flags of an open record are never cleared, and a
/// link already acknowledged gets no further acknowledgement.
pub proof fn lemma_ack_flags_persist(m: RxModel, seq: u32, offset: u16, t: PacketType, link: int)
    requires
        m.records.contains_key(seq),
    ensures
        ({
            let (m1, a, done) = rx_step(m, seq, offset, t, link);
            &&& !done ==> (m.records[seq].ack.0 ==> m1.records[seq].ack.0)
            &&& !done ==> (m.records[seq].ack.1 ==> m1.records[seq].ack.1)
            &&& 0 <= link < 2 && link_acked(m.records[seq], link) ==> a is None
        }),
{
}

/// Payload bytes of offsets `0..k` in order, skipping absent offsets.
pub open spec fn gather_spec(packets: Map<u16, PacketStruct>, k: nat) -> Seq<u8>
    decreases k,
{
    if k == 0 {
        seq![]
    } else {
        let prev = gather_spec(packets, (k - 1) as nat);
        let o = (k - 1) as u16;
        if packets.contains_key(o) {
            prev + packets[o].payload@.subrange(0, packets[o].length as int)
        } else {
            prev
        }
    }
}

pub struct RecvOffsets {
    pub sl: Option<u16>,
    pub dfl: Option<u16>,
    pub dsf: Option<u16>,
    pub dsl: Option<u16>,
}

pub struct RecvComplete {
    pub sl_complete: bool,
    pub ch1_complete: bool,
    pub ch2_complete: bool,
}

/// The fragments received so far of one burst.
pub struct RecvRecord {
    pub packets: HashMap<u16, PacketStruct>,
    pub is_ack: (bool, bool),
    pub offsets: RecvOffsets,
    pub is_complete: RecvComplete,
}

fn is_range_complete(packets: &HashMap<u16, PacketStruct>, lo: u16, hi: u16) -> (r: bool)
    ensures
        r == range_complete(packets@.dom(), lo, hi),
{
    if lo > hi {
        return true;
    }
    let mut i: u16 = lo;
    loop
        invariant
            lo <= i <= hi,
            forall|j: u16| lo <= j < i ==> #[trigger] packets@.dom().contains(j),
        decreases hi - i,
    {
        if !packets.contains_key(&i) {
            return false;
        }
        if i == hi {
            return true;
        }
        i = i + 1;
    }
}

impl RecvRecord {
    pub open spec fn model(&self) -> RecordModel {
        RecordModel {
            dom: self.packets@.dom(),
            sl: self.offsets.sl,
            dfl: self.offsets.dfl,
            dsf: self.offsets.dsf,
            dsl: self.offsets.dsl,
            ack: self.is_ack,
        }
    }

    /// The completion flags match the fragments, and each stored packet
    /// sits at its own offset with a length its payload covers.
    pub open spec fn wf(&self) -> bool {
        &&& self.is_complete.sl_complete == sl_complete(self.model())
        &&& self.is_complete.ch1_complete == ch1_complete(self.model())
        &&& self.is_complete.ch2_complete == ch2_complete(self.model())
        &&& forall|o: u16| #[trigger] self.packets@.contains_key(o) ==> self.packets@[o].offset == o
            && packet_wf(self.packets@[o]@)
    }

    pub fn new() -> (r: Self)
        ensures
            r.wf(),
            r.model() == empty_record(),
            r.packets@ == Map::<u16, PacketStruct>::empty(),
    {
        let r = RecvRecord {
            packets: HashMap::new(),
            is_ack: (false, false),
            offsets: RecvOffsets { sl: None, dfl: None, dsf: None, dsl: None },
            is_complete: RecvComplete { sl_complete: false, ch1_complete: false, ch2_complete: false },
        };
        assert(r.model().dom =~= Set::<u16>::empty());
        assert(r.packets@ =~= Map::<u16, PacketStruct>::empty());
        assert(!sl_complete(r.model()));
        r
    }

    fn determine_complete(&self) -> (r: RecvComplete)
        ensures
            r.sl_complete == sl_complete(self.model()),
            r.ch1_complete == ch1_complete(self.model()),
            r.ch2_complete == ch2_complete(self.model()),
    {
        if let Some(sl) = self.offsets.sl {
            if is_range_complete(&self.packets, 0, sl) {
                return RecvComplete { sl_complete: true, ch1_complete: false, ch2_complete: false };
            }
        }
        let ch1_complete = match self.offsets.dfl {
            Some(dfl) => is_range_complete(&self.packets, 0, dfl),
            None => false,
        };
        let ch2_complete = match (self.offsets.dsf, self.offsets.dsl) {
            (Some(dsf), Some(dsl)) => is_range_complete(&self.packets, dsl, dsf),
            _ => false,
        };
        RecvComplete { sl_complete: false, ch1_complete, ch2_complete }
    }

    /// Stores a fragment, notes its role, and recomputes completion.
    pub fn record(&mut self, packet: PacketStruct)
        requires
            old(self).wf(),
            is_indicator(packet.indicators),
            packet_wf(packet@),
        ensures
            final(self).wf(),
            final(self).model() == record_spec(old(self).model(), packet.offset, tag_of(packet.indicators).unwrap()),
            final(self).packets@ == old(self).packets@.insert(packet.offset, packet),
    {
        let offset = packet.offset;
        match PacketStruct::get_packet_type(packet.indicators) {
            PacketType::SL => self.offsets.sl = Some(offset),
            PacketType::DFL => self.offsets.dfl = Some(offset),
            PacketType::DSF => self.offsets.dsf = Some(offset),
            PacketType::DSL => self.offsets.dsl = Some(offset),
            PacketType::DSS => {
                self.offsets.dsf = Some(offset);
                self.offsets.dsl = Some(offset);
            },
            _ => {},
        }
        self.packets.insert(offset, packet);
        self.is_complete = self.determine_complete();
        assert(self.model().dom =~= record_spec(old(self).model(), offset, tag_of(old(self).packets@.insert(offset, packet)[offset].indicators).unwrap()).dom);
    }

    pub fn is_complete(&self) -> (r: bool)
        requires
            self.wf(),
        ensures
            r == complete(self.model()),
    {
        self.is_complete.sl_complete || (self.is_complete.ch1_complete && self.is_complete.ch2_complete)
    }

    /// The first link is owed an acknowledgement.
    pub fn is_fst_ack(&self) -> (r: bool)
        requires
            self.wf(),
        ensures
            r == (!self.is_ack.0 && (sl_complete(self.model()) || ch1_complete(self.model()))),
    {
        !self.is_ack.0 && (self.is_complete.sl_complete || self.is_complete.ch1_complete)
    }

    /// The second link is owed an acknowledgement.
    pub fn is_scd_ack(&self) -> (r: bool)
        requires
            self.wf(),
        ensures
            r == (!self.is_ack.1 && ch2_complete(self.model())),
    {
        !self.is_ack.1 && self.is_complete.ch2_complete
    }

    /// Payloads of offsets `0..n` in order, where `n` is the number of
    /// fragments held; absent offsets are skipped.
    pub fn gather(&self) -> (r: Vec<u8>)
        requires
            self.wf(),
        ensures
            r@ == gather_spec(self.packets@, self.packets@.len()),
    {
        let mut data: Vec<u8> = Vec::new();
        let n = self.packets.len();
        let mut i: usize = 0;
        while i < n
            invariant
                self.wf(),
                n == self.packets@.len(),
                i <= n,
                data@ == gather_spec(self.packets@, i as nat),
            decreases n - i,
        {
            let o: u16 = (i % 0x1_0000) as u16;
            assert(n <= 0x1_0000) by {
                lemma_dom_bound(self.packets@);
            }
            if let Some(p) = self.packets.get(&o) {
                let ghost prev = data@;
                let mut j: usize = 0;
                let len = p.length as usize;
                while j < len
                    invariant
                        packet_wf(p@),
                        len == p.length,
                        j <= len,
                        data@ == prev + p.payload@.subrange(0, j as int),
                    decreases len - j,
                {
                    data.push(p.payload[j]);
                    j = j + 1;
                    assert(data@ =~= prev + p.payload@.subrange(0, j as int));
                }
            }
            i = i + 1;
        }
        data
    }
}

proof fn lemma_dom_bound(m: Map<u16, PacketStruct>)
    requires
        m.dom().finite(),
    ensures
        m.dom().len() <= 0x1_0000,
{
    let full = Set::new(|i: u16| true);
    assert(m.dom().subset_of(full));
    assert(full =~= vstd::set_lib::set_int_range(0, 0x1_0000).map(|i: int| i as u16)) by {
        assert forall|x: u16| full.contains(x) implies vstd::set_lib::set_int_range(0, 0x1_0000).map(|i: int| i as u16).contains(x) by {
            assert(vstd::set_lib::set_int_range(0, 0x1_0000).contains(x as int));
        }
    }
    vstd::set_lib::lemma_int_range(0, 0x1_0000);
    vstd::set_lib::lemma_map_size_bound(vstd::set_lib::set_int_range(0, 0x1_0000), full, |i: int| i as u16);
    vstd::set_lib::lemma_len_subset(m.dom(), full);
}

/// The acknowledgement of a fragment: the same packet with its indicator
/// replaced.
pub open spec fn ack_packet(p: PacketView, t: PacketType) -> PacketView {
    PacketView { indicators: indicator_of(t), ..p }
}

/// What the receiver does with one fragment.
pub struct RxOutcome {
    /// Tag of the acknowledgement to send back on the fragment's link.
    pub ack: Option<PacketType>,
    /// Wire form of that acknowledgement.
    pub ack_bytes: Option<Vec<u8>>,
    /// The fragment completed its burst.
    pub completed: bool,
    /// The burst's payload, when it completed and delivery was asked for.
    pub gathered: Option<Vec<u8>>,
}

/// Receiver state of one stream.
pub struct RecvData {
    pub recv_records: HashMap<u32, RecvRecord>,
    pub last_seq: u32,
    pub received: u32,
    pub data_len: u64,
    /// Arrival time (ns) of the first datagram, once one has arrived.
    pub rx_start_time: Option<u64>,
    pub stutter: crate::stutter::Stutter,
}

impl RecvData {
    pub open spec fn model(&self) -> RxModel {
        RxModel {
            records: self.recv_records@.map_values(|r: RecvRecord| r.model()),
            last_seq: self.last_seq,
            received: self.received,
        }
    }

    pub open spec fn wf(&self) -> bool {
        forall|s: u32| #[trigger] self.recv_records@.contains_key(s) ==> self.recv_records@[s].wf()
    }

    pub fn new() -> (r: Self)
        ensures
            r.wf(),
            r.model().records == Map::<u32, RecordModel>::empty(),
            r.last_seq == 0 && r.received == 0 && r.data_len == 0,
            r.rx_start_time is None,
            r.stutter.ack_times@.len() == 0,
    {
        let r = RecvData {
            recv_records: HashMap::new(),
            last_seq: 0,
            received: 0,
            data_len: 0,
            rx_start_time: None,
            stutter: crate::stutter::Stutter::new(),
        };
        assert(r.model().records =~= Map::<u32, RecordModel>::empty());
        r
    }

    /// Accounts for a datagram of `len` bytes arriving at `now`: the first
    /// one marks the start, every one adds its bytes (saturating) and its
    /// arrival time.
    pub fn on_datagram(&mut self, len: u64, now: u64)
        ensures
            final(self).rx_start_time == (match old(self).rx_start_time {
                Some(t) => Some(t),
                None => Some(now),
            }),
            final(self).data_len == (if old(self).data_len + len > u64::MAX {
                u64::MAX as int
            } else {
                old(self).data_len + len
            }),
            final(self).stutter.ack_times@ == old(self).stutter.ack_times@.push(now),
            final(self).recv_records == old(self).recv_records,
            final(self).last_seq == old(self).last_seq,
            final(self).received == old(self).received,
    {
        if self.rx_start_time.is_none() {
            self.rx_start_time = Some(now);
        }
        self.data_len = self.data_len.saturating_add(len);
        self.stutter.update(now);
    }

    /// Handles one decoded fragment that arrived on `link` (0: the first
    /// sender address, 1: any other): see `rx_step`.  With `rx_mode`, a
    /// completed burst's payload is gathered.
    pub fn handle_packet(&mut self, packet: PacketStruct, link: usize, rx_mode: bool) -> (r: RxOutcome)
        requires
            old(self).wf(),
            is_indicator(packet.indicators),
            packet_wf(packet@),
            link < 2,
        ensures
            final(self).wf(),
            (final(self).model(), r.ack, r.completed) == rx_step(
                old(self).model(),
                packet.seq,
                packet.offset,
                tag_of(packet.indicators).unwrap(),
                link as int,
            ),
            r.ack is None <==> r.ack_bytes is None,
            r.ack matches Some(t) ==> r.ack_bytes matches Some(b) && b@ == encode_spec(ack_packet(packet@, t)),
            r.gathered is Some ==> r.completed && rx_mode,
            r.completed && rx_mode ==> r.gathered is Some,
            r.gathered matches Some(g) ==> {
                let held = if old(self).recv_records@.contains_key(packet.seq) {
                    old(self).recv_records@[packet.seq].packets@
                } else {
                    Map::<u16, PacketStruct>::empty()
                };
                let pkts = held.insert(packet.offset, packet);
                g@ == gather_spec(pkts, pkts.len())
            },
            final(self).data_len == old(self).data_len,
            final(self).rx_start_time == old(self).rx_start_time,
            final(self).stutter == old(self).stutter,
    {
        let seq = packet.seq;
        let offset = packet.offset;
        let ghost pv = packet@;
        let ghost t = tag_of(packet.indicators).unwrap();
        if seq > self.last_seq {
            self.last_seq = seq;
        }
        let mut rec = match self.recv_records.remove(&seq) {
            Some(r) => r,
            None => RecvRecord::new(),
        };
        let ghost rec0 = rec.model();
        assert(rec0 == (if old(self).model().records.contains_key(seq) {
            old(self).model().records[seq]
        } else {
            empty_record()
        }));
        rec.record(packet);
        let fst = rec.is_fst_ack();
        let scd = rec.is_scd_ack();
        let link_acked = if link == 0 {
            rec.is_ack.0
        } else {
            rec.is_ack.1
        };
        let due = (fst || scd) && !link_acked;
        if due {
            if link == 0 {
                rec.is_ack.0 = true;
            } else {
                rec.is_ack.1 = true;
            }
        }
        let done = rec.is_complete();
        let mut ack: Option<PacketType> = None;
        let mut ack_bytes: Option<Vec<u8>> = None;
        if due {
            let tag = if link == 0 {
                if done {
                    PacketType::SLFL
                } else {
                    PacketType::DFL
                }
            } else {
                if done {
                    PacketType::SLSL
                } else {
                    PacketType::DSL
                }
            };
            match rec.packets.get(&offset) {
                Some(p) => {
                    let mut a = p.duplicate();
                    a.set_indicator(tag);
                    ack_bytes = Some(a.to_bytes());
                },
                None => {},
            }
            ack = Some(tag);
        }
        let mut gathered: Option<Vec<u8>> = None;
        if done {
            if rx_mode {
                gathered = Some(rec.gather());
            }
            self.received = self.received.wrapping_add(1);
            proof {
                assert(self.model().records =~= old(self).model().records.remove(seq));
            }
        } else {
            self.recv_records.insert(seq, rec);
            proof {
                assert(self.model().records =~= old(self).model().records.insert(seq, rec.model()));
            }
        }
        RxOutcome { ack, ack_bytes, completed: done, gathered }
    }

    /// Bursts not (yet) delivered out of those numbered up to the highest
    /// sequence number seen, and that number: their ratio is the loss rate.
    pub fn loss_counts(&self) -> (r: (u32, u32))
        ensures
            r.1 == self.last_seq,
            r.0 == (if self.last_seq >= self.received {
                self.last_seq - self.received
            } else {
                0
            }),
    {
        (self.last_seq.saturating_sub(self.received), self.last_seq)
    }
}

} // verus!
