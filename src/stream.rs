//! One logical stream as the control plane sees it: its throttler, its
//! split controller, its round-trip-time records, and the time window in
//! which it is active.  Times are in nanoseconds.

use vstd::prelude::*;
use crate::throttle::RateThrottler;
use crate::tx_part_ctl::{TxPartCtler, parts_valid};
use crate::rtt_records::{RttRecords, RttStatistic, EntryView, statistic_of, visit_slot};

verus! {

/// What a statistics request reports of a stream.
pub struct Statistics {
    pub rtt: Option<RttStatistic>,
    /// Last computed sending rate, in bits per second.
    pub throughput: u64,
    pub tx_parts: Vec<u64>,
}

pub struct SourceManager {
    pub name: String,
    pub throttler: RateThrottler,
    pub tx_part_ctler: TxPartCtler,
    pub rtt: Option<RttRecords>,
    pub start_timestamp: u64,
    pub stop_timestamp: u64,
}

impl SourceManager {
    pub open spec fn wf(&self) -> bool {
        &&& self.throttler.wf()
        &&& self.tx_part_ctler.wf()
        &&& self.rtt matches Some(r) ==> r.wf()
    }

    /// A stream that is not active yet (its window is empty until `start`).
    pub fn new(name: String, throttler: RateThrottler, tx_part_ctler: TxPartCtler, rtt: Option<RttRecords>) -> (r: Self)
        ensures
            r.name == name,
            r.throttler == throttler,
            r.tx_part_ctler == tx_part_ctler,
            r.rtt == rtt,
            r.start_timestamp == 1 && r.stop_timestamp == 0,
    {
        SourceManager { name, throttler, tx_part_ctler, rtt, start_timestamp: 1, stop_timestamp: 0 }
    }

    /// Opens the active window `[now + start_ns, now + stop_ns]`
    /// (saturating).
    pub fn start(&mut self, now: u64, start_ns: u64, stop_ns: u64)
        ensures
            final(self).start_timestamp == (if now + start_ns > u64::MAX {
                u64::MAX as int
            } else {
                now + start_ns
            }),
            final(self).stop_timestamp == (if now + stop_ns > u64::MAX {
                u64::MAX as int
            } else {
                now + stop_ns
            }),
            final(self).name == old(self).name,
            final(self).throttler == old(self).throttler,
            final(self).tx_part_ctler == old(self).tx_part_ctler,
            final(self).rtt == old(self).rtt,
    {
        self.start_timestamp = now.saturating_add(start_ns);
        self.stop_timestamp = now.saturating_add(stop_ns);
    }

    /// Sets the rate ceiling (bits per second, 0 for none).
    pub fn throttle(&mut self, throttle: u64)
        requires
            old(self).wf(),
        ensures
            final(self).wf(),
            final(self).throttler == (RateThrottler { throttle, ..old(self).throttler }),
            final(self).tx_part_ctler == old(self).tx_part_ctler,
            final(self).rtt == old(self).rtt,
            final(self).start_timestamp == old(self).start_timestamp,
            final(self).stop_timestamp == old(self).stop_timestamp,
    {
        self.throttler.throttle = throttle;
    }

    /// Replaces the split ratios; a list of the wrong length, or with a
    /// ratio above one, is refused and the old ratios stay.
    pub fn set_tx_parts(&mut self, tx_parts: Vec<u64>) -> (accepted: bool)
        requires
            old(self).wf(),
        ensures
            final(self).wf(),
            accepted == (tx_parts@.len() == old(self).tx_part_ctler.tx_parts@.len() && parts_valid(tx_parts@)),
            final(self).tx_part_ctler.tx_parts@ == (if accepted {
                tx_parts@
            } else {
                old(self).tx_part_ctler.tx_parts@
            }),
            final(self).tx_part_ctler.addrs() == old(self).tx_part_ctler.addrs(),
            final(self).throttler == old(self).throttler,
            final(self).rtt == old(self).rtt,
    {
        self.tx_part_ctler.set_tx_parts(tx_parts)
    }

    /// The stream is active at `now`.
    pub open spec fn active(&self, now: u64) -> bool {
        self.start_timestamp <= now <= self.stop_timestamp
    }

    /// Statistics of an active stream: the cached sending rate, the ratios,
    /// and, when round-trip times are recorded, their statistics (see
    /// `RttRecords::statistic`).  `None` outside the active window.
    pub fn statistics(&mut self, now: u64) -> (r: Option<Statistics>)
        requires
            old(self).wf(),
        ensures
            final(self).wf(),
            r is Some <==> old(self).active(now),
            !old(self).active(now) ==> final(self).rtt == old(self).rtt,
            final(self).rtt is Some <==> old(self).rtt is Some,
            old(self).active(now) ==> (final(self).rtt matches Some(rec) ==> {
                let before = old(self).rtt.unwrap();
                &&& rec.entries() == before.entries().map_values(|o: Option<EntryView>| visit_slot(o))
                &&& rec.target_rtt == before.target_rtt
                &&& rec.max_length == before.max_length
                &&& rec.max_links == before.max_links
            }),
            r matches Some(s) ==> {
                &&& s.throughput == old(self).throttler.last_rate
                &&& s.tx_parts@ == old(self).tx_part_ctler.tx_parts@
                &&& s.rtt is Some <==> old(self).rtt is Some
                &&& s.rtt matches Some(st) ==> {
                    let rec = old(self).rtt.unwrap();
                    statistic_of(rec.entries(), rec.target_rtt, rec.max_links, st)
                }
            },
            final(self).throttler == old(self).throttler,
            final(self).tx_part_ctler == old(self).tx_part_ctler,
    {
        if now < self.start_timestamp || now > self.stop_timestamp {
            return None;
        }
        let throughput = self.throttler.last_rate;
        let rtt = match &mut self.rtt {
            Some(records) => Some(records.statistic()),
            None => None,
        };
        let tx_parts = self.tx_part_ctler.tx_parts.clone();
        assert(tx_parts@ =~= self.tx_part_ctler.tx_parts@);
        Some(Statistics { rtt, throughput, tx_parts })
    }
}

} // verus!
