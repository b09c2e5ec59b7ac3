//! Round-trip-time records: a ring of slots indexed by sequence number,
//! filled by acknowledgements, and the statistics drawn from it.  Times
//! are in nanoseconds.

use vstd::prelude::*;
use vstd::relations::sorted_by;
use std::collections::HashMap;
use crate::packet::PacketType;

verus! {

/// Slots in the ring.
pub const RTT_RING_LENGTH: usize = 1000;

/// Tags that acknowledgements carry.
pub open spec fn is_ack_tag(t: PacketType) -> bool {
    t == PacketType::SLFL || t == PacketType::SLSL || t == PacketType::DFL || t == PacketType::DSL
}

/// Link an acknowledgement tag reports on.
pub open spec fn ack_channel(t: PacketType) -> int {
    if t == PacketType::SLSL || t == PacketType::DSL {
        1
    } else {
        0
    }
}

/// Link an acknowledgement reports on, or `None` for a tag that no
/// acknowledgement carries.
pub fn ack_link(t: PacketType) -> (r: Option<usize>)
    ensures
        r == (if is_ack_tag(t) {
            Some(ack_channel(t) as usize)
        } else {
            None
        }),
{
    match t {
        PacketType::SLFL | PacketType::DFL => Some(0),
        PacketType::SLSL | PacketType::DSL => Some(1),
        _ => None,
    }
}

pub open spec fn all_some(s: Seq<Option<u64>>) -> bool {
    forall|i: int| 0 <= i < s.len() ==> (#[trigger] s[i]) is Some
}

pub struct EntryView {
    pub seq: usize,
    pub rtt: u64,
    pub channel_rtts: Seq<Option<u64>>,
    pub visited: Seq<bool>,
    pub completed: bool,
}

pub open spec fn fresh_entry(seq: usize, max_links: usize) -> EntryView {
    EntryView {
        seq,
        rtt: 0,
        channel_rtts: Seq::new(max_links as nat, |i: int| None),
        visited: Seq::new(max_links as nat + 1, |i: int| false),
        completed: false,
    }
}

/// An entry after an acknowledgement tagged `t` measured `v`: the latest
/// value becomes the burst's, the link's value is set, and the burst is
/// complete once acknowledged whole (`SLFL`, `SLSL`) or on every link.
pub open spec fn entry_update(e: EntryView, t: PacketType, v: u64) -> EntryView {
    let ch = e.channel_rtts.update(ack_channel(t), Some(v));
    EntryView {
        rtt: v,
        channel_rtts: ch,
        completed: if t == PacketType::SLFL || t == PacketType::SLSL {
            true
        } else {
            all_some(ch)
        },
        ..e
    }
}

/// One slot of the ring: a burst's latest round-trip time, the time of
/// each link, which of them statistics have taken, and completion.
#[derive(Debug)]
pub struct RTTEntry {
    pub seq: usize,
    pub rtt: u64,
    pub channel_rtts: Vec<Option<u64>>,
    pub visited_rtt: Vec<bool>,
    pub completed: bool,
}

impl RTTEntry {
    pub open spec fn view(&self) -> EntryView {
        EntryView {
            seq: self.seq,
            rtt: self.rtt,
            channel_rtts: self.channel_rtts@,
            visited: self.visited_rtt@,
            completed: self.completed,
        }
    }

    fn new(seq: usize, max_links: usize) -> (r: Self)
        requires
            max_links < usize::MAX,
        ensures
            r.view() == fresh_entry(seq, max_links),
    {
        let mut channel_rtts: Vec<Option<u64>> = Vec::new();
        let mut i: usize = 0;
        while i < max_links
            invariant
                i <= max_links,
                channel_rtts@ =~= Seq::new(i as nat, |j: int| None::<u64>),
            decreases max_links - i,
        {
            channel_rtts.push(None);
            i = i + 1;
        }
        let mut visited_rtt: Vec<bool> = Vec::new();
        let mut j: usize = 0;
        while j < max_links + 1
            invariant
                max_links < usize::MAX,
                j <= max_links + 1,
                visited_rtt@ =~= Seq::new(j as nat, |k: int| false),
            decreases max_links + 1 - j,
        {
            visited_rtt.push(false);
            j = j + 1;
        }
        RTTEntry { seq, rtt: 0, channel_rtts, visited_rtt, completed: false }
    }

    fn update_value(&mut self, channel: PacketType, value: u64)
        requires
            is_ack_tag(channel),
            ack_channel(channel) < old(self).channel_rtts@.len(),
        ensures
            final(self).view() == entry_update(old(self).view(), channel, value),
    {
        self.rtt = value;
        let ch: usize = match channel {
            PacketType::SLSL | PacketType::DSL => 1,
            _ => 0,
        };
        self.channel_rtts.set(ch, Some(value));
        match channel {
            PacketType::SLFL | PacketType::SLSL => {
                self.completed = true;
            },
            _ => {
                let mut all = true;
                let mut i: usize = 0;
                while i < self.channel_rtts.len()
                    invariant
                        i <= self.channel_rtts@.len(),
                        all == (forall|j: int| 0 <= j < i ==> (#[trigger] self.channel_rtts@[j]) is Some),
                    decreases self.channel_rtts@.len() - i,
                {
                    if self.channel_rtts[i].is_none() {
                        all = false;
                    }
                    i = i + 1;
                }
                self.completed = all;
            },
        }
    }
}

/// Sum of a sequence of samples.
pub open spec fn seq_sum(s: Seq<u64>) -> int
    decreases s.len(),
{
    if s.len() == 0 {
        0
    } else {
        seq_sum(s.drop_last()) + s.last()
    }
}

/// Mean of the samples between the 10th and the 90th percentile of a
/// sorted sequence: positions `n/10` up to (excluding) `9n/10`, or all of
/// them when that range is empty; 0 for no samples.
pub open spec fn trimmed_mean(t: Seq<u64>) -> int {
    let n = t.len() as int;
    let lo = n / 10;
    let hi = 9 * n / 10;
    if n == 0 {
        0
    } else if lo < hi {
        seq_sum(t.subrange(lo, hi)) / (hi - lo)
    } else {
        seq_sum(t) / n
    }
}

pub open spec fn u64_leq() -> spec_fn(u64, u64) -> bool {
    |a: u64, b: u64| a <= b
}

/// `r` is the trimmed mean of the samples `s`, taken in sorted order.
pub open spec fn is_trimmed_mean_of(s: Seq<u64>, r: u64) -> bool {
    exists|t: Seq<u64>| sorted_by(t, u64_leq()) && t.to_multiset() == s.to_multiset() && r == trimmed_mean(t)
}

proof fn lemma_sum_bound(s: Seq<u64>)
    ensures
        0 <= seq_sum(s) <= s.len() * 0xffff_ffff_ffff_ffff,
    decreases s.len(),
{
    if s.len() > 0 {
        lemma_sum_bound(s.drop_last());
        let n = s.len() as int;
        assert((n - 1) * 0xffff_ffff_ffff_ffff + 0xffff_ffff_ffff_ffff == n * 0xffff_ffff_ffff_ffff) by (nonlinear_arith);
    }
}

proof fn lemma_mean_fits(total: int, count: int)
    requires
        count > 0,
        0 <= total <= count * 0xffff_ffff_ffff_ffff,
    ensures
        0 <= total / count <= 0xffff_ffff_ffff_ffff,
{
    assert(0 <= total / count <= 0xffff_ffff_ffff_ffff) by (nonlinear_arith)
        requires
            count > 0,
            0 <= total <= count * 0xffff_ffff_ffff_ffff,
    ;
}

/// Relies on std's `slice::sort_unstable`: sorts in ascending order,
/// keeping the same elements.
#[verifier::external_body]
fn sort_samples(values: &mut Vec<u64>)
    ensures
        final(values)@.to_multiset() == old(values)@.to_multiset(),
        sorted_by(final(values)@, u64_leq()),
{
    values.sort_unstable();
}

fn sum_range(values: &Vec<u64>, lo: usize, hi: usize) -> (r: u128)
    requires
        lo <= hi <= values@.len(),
    ensures
        r == seq_sum(values@.subrange(lo as int, hi as int)),
{
    let mut total: u128 = 0;
    let mut i: usize = lo;
    while i < hi
        invariant
            lo <= i <= hi <= values@.len(),
            total == seq_sum(values@.subrange(lo as int, i as int)),
        decreases hi - i,
    {
        proof {
            let s = values@.subrange(lo as int, i + 1);
            assert(s.drop_last() =~= values@.subrange(lo as int, i as int));
            lemma_sum_bound(values@.subrange(lo as int, i as int));
            assert((i - lo) * 0xffff_ffff_ffff_ffff <= 0x1_0000_0000_0000_0000 * 0xffff_ffff_ffff_ffff) by (nonlinear_arith)
                requires
                    i - lo <= 0x1_0000_0000_0000_0000,
                    i >= lo,
            ;
        }
        total = total + values[i] as u128;
        i = i + 1;
    }
    total
}

/// Sorts the samples and returns their trimmed mean (see `trimmed_mean`).
pub fn average_between_quantiles(values: &mut Vec<u64>) -> (r: u64)
    ensures
        final(values)@.to_multiset() == old(values)@.to_multiset(),
        sorted_by(final(values)@, u64_leq()),
        r == trimmed_mean(final(values)@),
        is_trimmed_mean_of(old(values)@, r),
{
    sort_samples(values);
    let n = values.len();
    if n == 0 {
        return 0;
    }
    let lo: usize = n / 10;
    let hi: usize = ((n as u128) * 9 / 10) as usize;
    let (total, count) = if lo < hi {
        (sum_range(values, lo, hi), hi - lo)
    } else {
        proof {
            assert(values@.subrange(0, n as int) =~= values@);
        }
        (sum_range(values, 0, n), n)
    };
    proof {
        if lo < hi {
            lemma_sum_bound(values@.subrange(lo as int, hi as int));
        } else {
            lemma_sum_bound(values@);
        }
        lemma_mean_fits(total as int, count as int);
    }
    let r = (total / count as u128) as u64;
    assert(r == trimmed_mean(values@));
    r
}

/// Samples an entry contributes that statistics have not taken yet: the
/// burst's value once it is complete.
pub open spec fn entry_fresh_rtt(e: EntryView) -> Seq<u64> {
    if e.completed && !e.visited[0] {
        seq![e.rtt]
    } else {
        seq![]
    }
}

/// Likewise for link `i`.
pub open spec fn entry_fresh_ch(e: EntryView, i: int) -> Seq<u64> {
    if e.channel_rtts[i] is Some && !e.visited[i + 1] {
        seq![e.channel_rtts[i].unwrap()]
    } else {
        seq![]
    }
}

/// The entry once statistics have taken its samples.
pub open spec fn visit(e: EntryView) -> EntryView {
    EntryView {
        visited: Seq::new(
            e.visited.len(),
            |j: int|
                e.visited[j] || (if j == 0 {
                    e.completed
                } else {
                    e.channel_rtts[j - 1] is Some
                }),
        ),
        ..e
    }
}

pub open spec fn visit_slot(o: Option<EntryView>) -> Option<EntryView> {
    match o {
        Some(e) => Some(visit(e)),
        None => None,
    }
}

/// New burst samples over the slots, in slot order.
pub open spec fn fresh_rtts(q: Seq<Option<EntryView>>) -> Seq<u64>
    decreases q.len(),
{
    if q.len() == 0 {
        seq![]
    } else {
        fresh_rtts(q.drop_last()) + match q.last() {
            Some(e) => entry_fresh_rtt(e),
            None => seq![],
        }
    }
}

/// New samples of link `i` over the slots, in slot order.
pub open spec fn fresh_ch(q: Seq<Option<EntryView>>, i: int) -> Seq<u64>
    decreases q.len(),
{
    if q.len() == 0 {
        seq![]
    } else {
        fresh_ch(q.drop_last(), i) + match q.last() {
            Some(e) => entry_fresh_ch(e, i),
            None => seq![],
        }
    }
}

/// Number of samples above `target`.
pub open spec fn count_above(s: Seq<u64>, target: u64) -> int
    decreases s.len(),
{
    if s.len() == 0 {
        0
    } else {
        count_above(s.drop_last(), target) + if s.last() > target {
            1int
        } else {
            0
        }
    }
}

/// Statistics over the samples taken by one call: trimmed means, and how
/// many samples there were and how many exceeded the target.
pub struct RttStatistic {
    pub rtt: u64,
    pub channel_rtts: Vec<u64>,
    pub outages: u64,
    pub samples: u64,
    pub ch_outages: Vec<u64>,
    pub ch_samples: Vec<u64>,
}

fn count_above_exec(values: &Vec<u64>, target: u64) -> (r: u64)
    ensures
        r == count_above(values@, target),
{
    let mut n: u64 = 0;
    let mut i: usize = 0;
    while i < values.len()
        invariant
            i <= values@.len(),
            n == count_above(values@.subrange(0, i as int), target),
            n <= i,
        decreases values@.len() - i,
    {
        proof {
            assert(values@.subrange(0, i + 1).drop_last() =~= values@.subrange(0, i as int));
        }
        if values[i] > target {
            n = n + 1;
        }
        i = i + 1;
    }
    proof {
        assert(values@.subrange(0, values@.len() as int) =~= values@);
    }
    n
}

/// Takes the samples of one entry that statistics have not taken yet.
fn take_samples(e: &mut RTTEntry, rtts: &mut Vec<u64>, ch_values: &mut Vec<Vec<u64>>)
    requires
        old(e).channel_rtts@.len() == old(ch_values)@.len(),
        old(e).visited_rtt@.len() == old(ch_values)@.len() + 1,
        old(ch_values)@.len() < usize::MAX,
    ensures
        final(e).view() == visit(old(e).view()),
        final(rtts)@ == old(rtts)@ + entry_fresh_rtt(old(e).view()),
        final(ch_values)@.len() == old(ch_values)@.len(),
        forall|i: int|
            0 <= i < old(ch_values)@.len() ==> (#[trigger] final(ch_values)@[i])@ == old(ch_values)@[i]@
                + entry_fresh_ch(old(e).view(), i),
{
    let ghost e0 = e.view();
    let n = ch_values.len();
    let mut i: usize = 0;
    while i < n
        invariant
            n == ch_values@.len(),
            n == old(ch_values)@.len(),
            n < usize::MAX,
            i <= n,
            e.channel_rtts@ == e0.channel_rtts,
            e0.channel_rtts.len() == n,
            e0.visited.len() == n + 1,
            e.rtt == e0.rtt && e.seq == e0.seq && e.completed == e0.completed,
            e.visited_rtt@.len() == n + 1,
            e.visited_rtt@[0] == e0.visited[0],
            forall|j: int| 1 <= j <= i ==> #[trigger] e.visited_rtt@[j] == (e0.visited[j] || e0.channel_rtts[j - 1] is Some),
            forall|j: int| i < j <= n ==> #[trigger] e.visited_rtt@[j] == e0.visited[j],
            forall|j: int| 0 <= j < i ==> (#[trigger] ch_values@[j])@ == old(ch_values)@[j]@ + entry_fresh_ch(e0, j),
            forall|j: int| i <= j < n ==> (#[trigger] ch_values@[j])@ == old(ch_values)@[j]@,
        decreases n - i,
    {
        if let Some(v) = e.channel_rtts[i] {
            if !e.visited_rtt[i + 1] {
                e.visited_rtt.set(i + 1, true);
                let mut list: Vec<u64> = Vec::new();
                ch_values.set_and_swap(i, &mut list);
                list.push(v);
                ch_values.set_and_swap(i, &mut list);
                assert(ch_values@[i as int]@ =~= old(ch_values)@[i as int]@ + entry_fresh_ch(e0, i as int));
            } else {
                assert(entry_fresh_ch(e0, i as int) =~= seq![]);
                assert(ch_values@[i as int]@ =~= old(ch_values)@[i as int]@ + entry_fresh_ch(e0, i as int));
            }
        } else {
            assert(entry_fresh_ch(e0, i as int) =~= seq![]);
            assert(ch_values@[i as int]@ =~= old(ch_values)@[i as int]@ + entry_fresh_ch(e0, i as int));
        }
        i = i + 1;
    }
    if e.completed && !e.visited_rtt[0] {
        e.visited_rtt.set(0, true);
        rtts.push(e.rtt);
    } else {
        assert(entry_fresh_rtt(e0) =~= seq![]);
    }
    assert(e.visited_rtt@ =~= visit(e0).visited);
    assert(rtts@ =~= old(rtts)@ + entry_fresh_rtt(e0));
}

/// `r` holds the statistics of the samples not taken yet in `q`: trimmed
/// means, sample counts and counts above `target`, overall and for each of
/// the `links` links.
pub open spec fn statistic_of(q: Seq<Option<EntryView>>, target: u64, links: usize, r: RttStatistic) -> bool {
    &&& r.samples == fresh_rtts(q).len()
    &&& r.outages == count_above(fresh_rtts(q), target)
    &&& is_trimmed_mean_of(fresh_rtts(q), r.rtt)
    &&& r.channel_rtts@.len() == links
    &&& r.ch_samples@.len() == links
    &&& r.ch_outages@.len() == links
    &&& forall|i: int| 0 <= i < links ==> is_trimmed_mean_of(fresh_ch(q, i), #[trigger] r.channel_rtts@[i])
    &&& forall|i: int| 0 <= i < links ==> #[trigger] r.ch_samples@[i] == fresh_ch(q, i).len()
    &&& forall|i: int| 0 <= i < links ==> #[trigger] r.ch_outages@[i] == count_above(fresh_ch(q, i), target)
}

/// The entry of burst `seq` in `rec` after an acknowledgement tagged `t`
/// that took `v`: the slot is `seq` modulo the ring length, and an entry
/// of another burst there is replaced by a fresh one.
pub open spec fn updated_entry(rec: RttRecords, seq: usize, t: PacketType, v: u64) -> EntryView {
    let idx = seq as int % rec.max_length as int;
    let base = match rec.entries()[idx] {
        Some(e) => if e.seq == seq {
            e
        } else {
            fresh_entry(seq, rec.max_links)
        },
        None => fresh_entry(seq, rec.max_links),
    };
    entry_update(base, t, v)
}

pub struct RttRecords {
    pub queue: Vec<Option<RTTEntry>>,
    pub target_rtt: u64,
    pub max_length: usize,
    pub max_links: usize,
}

impl RttRecords {
    /// The slots, as entries.
    pub open spec fn entries(&self) -> Seq<Option<EntryView>> {
        self.queue@.map_values(
            |o: Option<RTTEntry>|
                match o {
                    Some(e) => Some(e.view()),
                    None => None,
                },
        )
    }

    /// One slot per ring position, and every entry sized for the links.
    pub open spec fn wf(&self) -> bool {
        &&& self.entries().len() == self.max_length > 0
        &&& self.max_links < usize::MAX
        &&& forall|k: int|
            0 <= k < self.entries().len() && (#[trigger] self.entries()[k]) is Some ==> {
                let e = self.entries()[k].unwrap();
                e.channel_rtts.len() == self.max_links && e.visited.len() == self.max_links + 1
            }
    }

    /// An empty ring of `max_length` slots for a stream of `max_links`
    /// links.  A slot is chosen modulo the ring length, which must
    /// therefore be positive; each entry keeps `max_links + 1` flags, which
    /// must be countable in a `usize`.
    pub fn new(max_length: usize, max_links: usize, target_rtt: u64) -> (r: Self)
        requires
            max_length > 0,
            max_links < usize::MAX,
        ensures
            r.wf(),
            r.entries() == Seq::new(max_length as nat, |k: int| None::<EntryView>),
            r.target_rtt == target_rtt,
            r.max_length == max_length,
            r.max_links == max_links,
    {
        let mut queue: Vec<Option<RTTEntry>> = Vec::new();
        let mut k: usize = 0;
        while k < max_length
            invariant
                k <= max_length,
                queue@.len() == k,
                forall|j: int| 0 <= j < k ==> (#[trigger] queue@[j]) is None,
            decreases max_length - k,
        {
            queue.push(None);
            k = k + 1;
        }
        let r = RttRecords { queue, target_rtt, max_length, max_links };
        assert(r.entries() =~= Seq::new(max_length as nat, |k: int| None::<EntryView>));
        r
    }

    /// Records an acknowledgement of burst `seq` tagged `channel` that took
    /// `rtt`.  The burst's slot is `seq` modulo the ring length; an entry of
    /// another burst there is replaced by a fresh one.  Returns whether the
    /// burst is now complete.
    pub fn update(&mut self, seq: usize, channel: PacketType, rtt: u64) -> (r: bool)
        requires
            old(self).wf(),
            is_ack_tag(channel),
            ack_channel(channel) < old(self).max_links,
        ensures
            final(self).wf(),
            final(self).target_rtt == old(self).target_rtt,
            final(self).max_length == old(self).max_length,
            final(self).max_links == old(self).max_links,
            final(self).entries() == old(self).entries().update(
                seq as int % old(self).max_length as int,
                Some(updated_entry(*old(self), seq, channel, rtt)),
            ),
            r == updated_entry(*old(self), seq, channel, rtt).completed,
    {
        let idx = seq % self.max_length;
        proof {
            if self.entries()[idx as int] is Some {
                assert(self.entries()[idx as int].unwrap().channel_rtts.len() == self.max_links);
            }
        }
        let mut slot: Option<RTTEntry> = None;
        self.queue.set_and_swap(idx, &mut slot);
        let mut entry = match slot {
            Some(e) => if e.seq == seq {
                e
            } else {
                RTTEntry::new(seq, self.max_links)
            },
            None => RTTEntry::new(seq, self.max_links),
        };
        entry.update_value(channel, rtt);
        let done = entry.completed;
        self.queue.set(idx, Some(entry));
        proof {
            let idx = seq as int % old(self).max_length as int;
            assert(self.entries() =~= old(self).entries().update(idx, Some(entry.view())));
        }
        done
    }

    /// Takes every sample not taken before (a burst's value once it is
    /// complete, each link's value once set), marks them taken, and returns
    /// their trimmed means and counts, overall and per link.
    pub fn statistic(&mut self) -> (r: RttStatistic)
        requires
            old(self).wf(),
        ensures
            final(self).wf(),
            final(self).target_rtt == old(self).target_rtt,
            final(self).max_length == old(self).max_length,
            final(self).max_links == old(self).max_links,
            final(self).entries() == old(self).entries().map_values(|o: Option<EntryView>| visit_slot(o)),
            statistic_of(old(self).entries(), old(self).target_rtt, old(self).max_links, r),
    {
        let ghost q0 = self.entries();
        let mut rtts: Vec<u64> = Vec::new();
        let mut ch_values: Vec<Vec<u64>> = Vec::new();
        let mut i: usize = 0;
        while i < self.max_links
            invariant
                i <= self.max_links,
                ch_values@.len() == i,
                forall|j: int| 0 <= j < i ==> (#[trigger] ch_values@[j])@ == Seq::<u64>::empty(),
            decreases self.max_links - i,
        {
            ch_values.push(Vec::new());
            i = i + 1;
        }
        let mut k: usize = 0;
        while k < self.max_length
            invariant
                self.wf(),
                q0 == old(self).entries(),
                q0.len() == self.max_length,
                self.max_length == old(self).max_length,
                self.max_links == old(self).max_links,
                self.target_rtt == old(self).target_rtt,
                k <= self.max_length,
                ch_values@.len() == self.max_links,
                self.entries() == q0.subrange(0, k as int).map_values(|o: Option<EntryView>| visit_slot(o))
                    + q0.subrange(k as int, q0.len() as int),
                rtts@ == fresh_rtts(q0.subrange(0, k as int)),
                forall|j: int| 0 <= j < self.max_links ==> (#[trigger] ch_values@[j])@ == fresh_ch(q0.subrange(0, k as int), j),
            decreases self.max_length - k,
        {
            proof {
                assert(self.entries()[k as int] == q0[k as int]);
                if self.entries()[k as int] is Some {
                    assert(self.entries()[k as int].unwrap().channel_rtts.len() == self.max_links);
                }
            }
            let ghost before = self.entries();
            let mut slot: Option<RTTEntry> = None;
            self.queue.set_and_swap(k, &mut slot);
            match slot {
                Some(mut e) => {
                    assert(Some(e.view()) == q0[k as int]);
                    take_samples(&mut e, &mut rtts, &mut ch_values);
                    self.queue.set(k, Some(e));
                    assert(self.entries() =~= before.update(k as int, visit_slot(q0[k as int])));
                },
                None => {
                    self.queue.set(k, None);
                    assert(self.entries() =~= before.update(k as int, visit_slot(q0[k as int])));
                },
            }
            proof {
                let pre = q0.subrange(0, k as int);
                let post = q0.subrange(0, k + 1);
                assert(post.drop_last() =~= pre);
                assert(post.last() == q0[k as int]);
                assert(rtts@ =~= fresh_rtts(post));
                assert forall|j: int| 0 <= j < self.max_links implies (#[trigger] ch_values@[j])@ == fresh_ch(post, j) by {
                    assert(ch_values@[j]@ =~= fresh_ch(post, j));
                }
                assert(self.entries() =~= post.map_values(|o: Option<EntryView>| visit_slot(o))
                    + q0.subrange(k + 1, q0.len() as int));
            }
            k = k + 1;
        }
        proof {
            assert(q0.subrange(0, q0.len() as int) =~= q0);
            assert(self.entries() =~= q0.map_values(|o: Option<EntryView>| visit_slot(o)));
        }
        let outages = count_above_exec(&rtts, self.target_rtt);
        let samples = rtts.len() as u64;
        let ghost fresh = rtts@;
        let rtt = average_between_quantiles(&mut rtts);
        let mut channel_rtts: Vec<u64> = Vec::new();
        let mut ch_outages: Vec<u64> = Vec::new();
        let mut ch_samples: Vec<u64> = Vec::new();
        let mut i: usize = 0;
        while i < self.max_links
            invariant
                i <= self.max_links,
                self.max_links == old(self).max_links,
                self.target_rtt == old(self).target_rtt,
                q0 == old(self).entries(),
                ch_values@.len() == self.max_links,
                forall|j: int| i <= j < self.max_links ==> (#[trigger] ch_values@[j])@ == fresh_ch(q0, j),
                channel_rtts@.len() == i,
                ch_outages@.len() == i,
                ch_samples@.len() == i,
                forall|j: int| 0 <= j < i ==> is_trimmed_mean_of(fresh_ch(q0, j), #[trigger] channel_rtts@[j]),
                forall|j: int| 0 <= j < i ==> #[trigger] ch_samples@[j] == fresh_ch(q0, j).len(),
                forall|j: int| 0 <= j < i ==> #[trigger] ch_outages@[j] == count_above(fresh_ch(q0, j), self.target_rtt),
            decreases self.max_links - i,
        {
            assert(ch_values@[i as int]@ == fresh_ch(q0, i as int));
            let mut list: Vec<u64> = Vec::new();
            ch_values.set_and_swap(i, &mut list);
            let ghost prev_rtts = channel_rtts@;
            let ghost prev_out = ch_outages@;
            let ghost prev_samples = ch_samples@;
            ch_outages.push(count_above_exec(&list, self.target_rtt));
            ch_samples.push(list.len() as u64);
            let m = average_between_quantiles(&mut list);
            channel_rtts.push(m);
            proof {
                assert forall|j: int| 0 <= j < i + 1 implies {
                    &&& is_trimmed_mean_of(fresh_ch(q0, j), channel_rtts@[j])
                    &&& ch_samples@[j] == fresh_ch(q0, j).len()
                    &&& ch_outages@[j] == count_above(fresh_ch(q0, j), self.target_rtt)
                } by {
                    if j < i {
                        assert(channel_rtts@[j] == prev_rtts[j]);
                        assert(ch_samples@[j] == prev_samples[j]);
                        assert(ch_outages@[j] == prev_out[j]);
                    }
                }
            }
            i = i + 1;
        }
        RttStatistic { rtt, channel_rtts, outages, samples, ch_outages, ch_samples }
    }
}

/// Send times (ns) of the bursts still awaiting acknowledgement, by
/// sequence number.
pub struct SendTimes {
    pub sent: HashMap<u32, u64>,
}

impl SendTimes {
    pub fn new() -> (r: Self)
        ensures
            r.sent@ == Map::<u32, u64>::empty(),
    {
        SendTimes { sent: HashMap::new() }
    }

    /// Notes that burst `seq` was handed to the links at `now`.
    pub fn record(&mut self, seq: u32, now: u64)
        ensures
            final(self).sent@ == old(self).sent@.insert(seq, now),
    {
        broadcast use vstd::std_specs::hash::group_hash_axioms;
        self.sent.insert(seq, now);
    }

    /// Handles an acknowledgement tagged `tag` of burst `seq` arriving at
    /// `now`.  For a burst whose send time is unknown nothing happens and
    /// `None` comes back.  Otherwise its round-trip time (`now` minus the
    /// send time, 0 if the clock went back) is recorded in `records` (see
    /// `RttRecords::update`), and once the burst is complete its send time
    /// is forgotten; the result says whether it is.
    pub fn acknowledge(&mut self, records: &mut RttRecords, seq: u32, tag: PacketType, now: u64) -> (r: Option<bool>)
        requires
            old(records).wf(),
            is_ack_tag(tag),
            ack_channel(tag) < old(records).max_links,
        ensures
            final(records).wf(),
            final(records).target_rtt == old(records).target_rtt,
            final(records).max_length == old(records).max_length,
            final(records).max_links == old(records).max_links,
            !old(self).sent@.contains_key(seq) ==> r is None && final(self).sent@ == old(self).sent@
                && *final(records) == *old(records),
            old(self).sent@.contains_key(seq) ==> {
                let sent_at = old(self).sent@[seq];
                let rtt = if now >= sent_at {
                    (now - sent_at) as u64
                } else {
                    0u64
                };
                let e = updated_entry(*old(records), seq as usize, tag, rtt);
                &&& r == Some(e.completed)
                &&& final(records).entries() == old(records).entries().update(
                    seq as int % old(records).max_length as int,
                    Some(e),
                )
                &&& final(self).sent@ == (if e.completed {
                    old(self).sent@.remove(seq)
                } else {
                    old(self).sent@
                })
            },
    {
        broadcast use vstd::std_specs::hash::group_hash_axioms;
        let sent_at = match self.sent.get(&seq) {
            Some(t) => *t,
            None => {
                return None;
            },
        };
        let rtt = now.saturating_sub(sent_at);
        let done = records.update(seq as usize, tag, rtt);
        if done {
            self.sent.remove(&seq);
        }
        Some(done)
    }
}

} // verus!
