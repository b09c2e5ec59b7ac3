//! Rate throttler: a sliding window of the last emissions estimates the
//! sending rate, and a bounded buffer holds the packets waiting to go out.
//!
//! Rates are in bits per second and times in nanoseconds; the caller
//! passes the current time to every operation that reads the clock.

use vstd::prelude::*;
use std::collections::VecDeque;
use crate::packet::{PacketStruct, PacketView, MAX_PAYLOAD_LEN, UDP_MAX_LENGTH};

verus! {

/// The buffer holds this many times the window size (finite replay).
pub const CYCLED_RATIO: usize = 50;

/// The cached rate is recomputed once this many bytes per hundred window
/// slots have been accounted for since the last computation.
pub const MAX_ERR_PER_CENT: usize = 1;

/// A FIFO of bounded size (0: unbounded).
pub struct CycledVecDequeue<T> {
    pub size: usize,
    pub fifo: VecDeque<T>,
}

impl<T> View for CycledVecDequeue<T> {
    type V = Seq<T>;

    open spec fn view(&self) -> Seq<T> {
        self.fifo@
    }
}

/// Contents after appending `item` to `s` in a FIFO of the given size:
/// when that goes past the size, the oldest item leaves, so a full FIFO
/// keeps the latest `size` items.
pub open spec fn cycled_push<T>(s: Seq<T>, size: usize, item: T) -> Seq<T> {
    let t = s.push(item);
    if size > 0 && t.len() > size {
        t.drop_first()
    } else {
        t
    }
}

/// Whether a FIFO of the given size holding `s` accepts one more item.
pub open spec fn has_room<T>(s: Seq<T>, size: usize) -> bool {
    !(size > 0 && s.len() >= size)
}

impl<T> CycledVecDequeue<T> {
    pub fn new(size: usize) -> (r: Self)
        ensures
            r@ == Seq::<T>::empty(),
            r.size == size,
    {
        CycledVecDequeue { size, fifo: VecDeque::new() }
    }

    /// Appends `item`; when that takes the FIFO past its size, the oldest
    /// item is removed and returned.
    pub fn push(&mut self, item: T) -> (r: Option<T>)
        ensures
            final(self).size == old(self).size,
            final(self)@ == cycled_push(old(self)@, old(self).size, item),
            r == (if old(self).size > 0 && old(self)@.len() + 1 > old(self).size {
                Some(old(self)@.push(item)[0])
            } else {
                None
            }),
    {
        self.fifo.push_back(item);
        if self.size > 0 && self.fifo.len() > self.size {
            let r = self.fifo.pop_front();
            proof {
                assert(self@ =~= cycled_push(old(self)@, old(self).size, item));
            }
            r
        } else {
            None
        }
    }

    /// Appends `item` unless the FIFO is full.
    pub fn try_push(&mut self, item: T) -> (r: bool)
        ensures
            final(self).size == old(self).size,
            r == has_room(old(self)@, old(self).size),
            final(self)@ == (if r {
                old(self)@.push(item)
            } else {
                old(self)@
            }),
    {
        if self.size > 0 && self.fifo.len() >= self.size {
            false
        } else {
            self.fifo.push_back(item);
            true
        }
    }

    pub fn len(&self) -> (r: usize)
        ensures
            r == self@.len(),
    {
        self.fifo.len()
    }

    pub fn front(&self) -> (r: Option<&T>)
        ensures
            r == (if self@.len() > 0 {
                Some(&self@[0])
            } else {
                None
            }),
    {
        if self.fifo.len() > 0 {
            Some(&self.fifo[0])
        } else {
            None
        }
    }

    pub fn pop_front(&mut self) -> (r: Option<T>)
        ensures
            final(self).size == old(self).size,
            old(self)@.len() > 0 ==> r == Some(old(self)@[0]) && final(self)@ == old(self)@.drop_first(),
            old(self)@.len() == 0 ==> r is None && final(self)@ == old(self)@,
    {
        let r = self.fifo.pop_front();
        proof {
            if old(self)@.len() > 0 {
                assert(self@ =~= old(self)@.drop_first());
            }
        }
        r
    }

    pub fn reset(&mut self)
        ensures
            final(self).size == old(self).size,
            final(self)@ == Seq::<T>::empty(),
    {
        self.fifo.clear();
    }
}

/// Total of the sizes recorded in a window of `(time_ns, size)` entries.
pub open spec fn sum_sizes(s: Seq<(u64, u64)>) -> int
    decreases s.len(),
{
    if s.len() == 0 {
        0
    } else {
        s[0].1 + sum_sizes(s.drop_first())
    }
}

proof fn lemma_sum_push(s: Seq<(u64, u64)>, x: (u64, u64))
    ensures
        sum_sizes(s.push(x)) == sum_sizes(s) + x.1,
    decreases s.len(),
{
    if s.len() > 0 {
        lemma_sum_push(s.drop_first(), x);
        assert(s.push(x).drop_first() =~= s.drop_first().push(x));
    } else {
        assert(s.push(x).drop_first() =~= s);
    }
}

proof fn lemma_sum_nonneg(s: Seq<(u64, u64)>)
    ensures
        sum_sizes(s) >= 0,
    decreases s.len(),
{
    if s.len() > 0 {
        lemma_sum_nonneg(s.drop_first());
    }
}

proof fn lemma_sum_bound(s: Seq<(u64, u64)>)
    requires
        forall|i: int| 0 <= i < s.len() ==> s[i].1 <= MAX_PAYLOAD_LEN,
    ensures
        0 <= sum_sizes(s) <= s.len() * MAX_PAYLOAD_LEN,
    decreases s.len(),
{
    if s.len() > 0 {
        assert forall|i: int| 0 <= i < s.drop_first().len() implies s.drop_first()[i].1 <= MAX_PAYLOAD_LEN by {
            assert(s.drop_first()[i] == s[i + 1]);
        }
        lemma_sum_bound(s.drop_first());
        let n = s.len() as int;
        assert((n - 1) * MAX_PAYLOAD_LEN + MAX_PAYLOAD_LEN == n * MAX_PAYLOAD_LEN) by (nonlinear_arith);
    }
}

/// The bytes of a window that memory can hold fit easily in 128 bits.
proof fn lemma_window_bytes(s: Seq<(u64, u64)>)
    requires
        s.len() <= 0x1_0000_0000_0000_0000,
        forall|i: int| 0 <= i < s.len() ==> s[i].1 <= MAX_PAYLOAD_LEN,
    ensures
        0 <= sum_sizes(s) <= 0x1_0000_0000_0000_0000 * 1453,
{
    lemma_sum_bound(s);
    let n = s.len() as int;
    assert(n * MAX_PAYLOAD_LEN <= 0x1_0000_0000_0000_0000 * 1453) by (nonlinear_arith)
        requires
            n <= 0x1_0000_0000_0000_0000,
            MAX_PAYLOAD_LEN == 1453,
    ;
}

/// Rate in bits per second of `bytes` sent over `ns` nanoseconds, rounded
/// down and capped at `u64::MAX`; an empty interval gives the cap.
pub open spec fn rate_bps(bytes: int, ns: int) -> u64 {
    if ns <= 0 {
        u64::MAX
    } else {
        let r = 8_000_000_000 * bytes / ns;
        if r > u64::MAX {
            u64::MAX
        } else {
            r as u64
        }
    }
}

pub struct RateThrottler {
    pub name: String,
    pub is_log: bool,
    /// `(time_ns, size)` of the latest emissions.
    pub window: CycledVecDequeue<(u64, u64)>,
    /// Packets waiting to be sent.
    pub buffer: CycledVecDequeue<PacketStruct>,
    pub sum_bytes: u128,
    pub acc_error: u64,
    pub max_error: u64,
    /// Rate ceiling in bits per second; 0 means none.
    pub throttle: u64,
    /// Last computed rate in bits per second.
    pub last_rate: u64,
}

impl RateThrottler {
    /// The window holds at most its size (any number for size 0), its
    /// sizes are packet lengths, and `sum_bytes` is their total.
    pub open spec fn wf(&self) -> bool {
        &&& self.window.size == 0 || self.window@.len() <= self.window.size
        &&& self.window@.len() <= 0x1_0000_0000_0000_0000
        &&& forall|i: int| 0 <= i < self.window@.len() ==> self.window@[i].1 <= MAX_PAYLOAD_LEN
        &&& self.sum_bytes == sum_sizes(self.window@)
        &&& forall|i: int| 0 <= i < self.buffer@.len() ==> self.buffer@[i].length <= MAX_PAYLOAD_LEN
    }

    /// The rate that `exceeds_with` compares with the ceiling: the cached
    /// one while the accounted bytes (including `size`) stay below
    /// `max_error`, else a fresh one including `size`.
    pub open spec fn predicted_rate(&self, size: u64, now: u64) -> u64 {
        let acc = if self.acc_error + size > u64::MAX {
            u64::MAX as int
        } else {
            self.acc_error + size
        };
        if acc < self.max_error {
            self.last_rate
        } else {
            self.fresh_rate(size as int, now)
        }
    }

    /// Whether `size` more bytes at `now` would break the ceiling.
    pub open spec fn exceeds_spec(&self, size: u64, now: u64) -> bool {
        &&& self.throttle != 0
        &&& self.window@.len() > 0
        &&& self.predicted_rate(size, now) > self.throttle
    }

    /// Rate over the window with `extra` more bytes, measured from its
    /// oldest entry to `now`.
    pub open spec fn fresh_rate(&self, extra: int, now: u64) -> u64 {
        rate_bps(self.sum_bytes + extra, now - self.window@[0].0)
    }

    /// The window after an emission of `size` bytes at `now`.
    pub open spec fn window_after(&self, size: u64, now: u64) -> Seq<(u64, u64)> {
        cycled_push(self.window@, self.window.size, (now, size))
    }

    /// A throttler whose window keeps the last `window_size` emissions
    /// (all of them for 0) and whose buffer holds `CYCLED_RATIO` times as
    /// many packets (capped at `usize::MAX`), or any number with
    /// `infinite_buffer`.
    pub fn new(name: String, throttle: u64, window_size: usize, no_logging: bool, infinite_buffer: bool) -> (r: Self)
        ensures
            r.wf(),
            r.name@ == name@,
            r.is_log == !no_logging,
            r.throttle == throttle,
            r.window.size == window_size,
            r.window@.len() == 0,
            r.buffer@.len() == 0,
            r.buffer.size == (if infinite_buffer {
                0
            } else if CYCLED_RATIO * window_size > usize::MAX {
                usize::MAX as int
            } else {
                CYCLED_RATIO * window_size
            }),
            r.max_error == (if window_size / 100 * MAX_ERR_PER_CENT * UDP_MAX_LENGTH > u64::MAX {
                u64::MAX as int
            } else {
                window_size / 100 * MAX_ERR_PER_CENT * UDP_MAX_LENGTH
            }),
            r.sum_bytes == 0 && r.acc_error == 0 && r.last_rate == 0,
    {
        let buffer = if infinite_buffer {
            CycledVecDequeue::new(0)
        } else if window_size <= usize::MAX / CYCLED_RATIO {
            CycledVecDequeue::new(CYCLED_RATIO * window_size)
        } else {
            CycledVecDequeue::new(usize::MAX)
        };
        let window = CycledVecDequeue::new(window_size);
        let slots: u128 = (window_size / 100) as u128;
        assert(slots * MAX_ERR_PER_CENT * UDP_MAX_LENGTH <= 0x1_0000_0000_0000_0000 * 1472) by (nonlinear_arith)
            requires
                slots <= 0x1_0000_0000_0000_0000,
                MAX_ERR_PER_CENT == 1,
                UDP_MAX_LENGTH == 1472,
        ;
        let bytes: u128 = slots * MAX_ERR_PER_CENT as u128 * UDP_MAX_LENGTH as u128;
        let max_error: u64 = if bytes > u64::MAX as u128 {
            u64::MAX
        } else {
            bytes as u64
        };
        RateThrottler {
            name,
            is_log: !no_logging,
            window,
            buffer,
            sum_bytes: 0,
            acc_error: 0,
            max_error,
            throttle,
            last_rate: 0,
        }
    }

    /// Empties window and buffer and forgets the cached rate.
    pub fn reset(&mut self)
        requires
            old(self).wf(),
        ensures
            final(self).wf(),
            final(self).name == old(self).name,
            final(self).window@.len() == 0,
            final(self).buffer@.len() == 0,
            final(self).last_rate == 0 && final(self).acc_error == 0 && final(self).sum_bytes == 0,
            final(self).max_error == old(self).max_error,
            final(self).throttle == old(self).throttle,
            final(self).is_log == old(self).is_log,
            final(self).window.size == old(self).window.size,
            final(self).buffer.size == old(self).buffer.size,
    {
        self.last_rate = 0;
        self.sum_bytes = 0;
        self.acc_error = 0;
        self.window.reset();
        self.buffer.reset();
    }

    /// The sending rate with `extra_bytes` added.  While fewer bytes than
    /// `max_error` have been accounted for since the last computation the
    /// cached rate is returned; otherwise the rate is computed afresh over
    /// the window (none for an empty window) and cached.
    pub fn current_rate_bps(&mut self, extra_bytes: u64, now: u64) -> (r: Option<u64>)
        requires
            old(self).wf(),
            extra_bytes <= MAX_PAYLOAD_LEN,
        ensures
            final(self).wf(),
            final(self).name == old(self).name,
            final(self).is_log == old(self).is_log,
            final(self).window == old(self).window,
            final(self).buffer == old(self).buffer,
            final(self).sum_bytes == old(self).sum_bytes,
            final(self).throttle == old(self).throttle,
            final(self).max_error == old(self).max_error,
            rate_query(*old(self), extra_bytes as int, now, r, final(self).acc_error, final(self).last_rate),
    {
        if self.acc_error < self.max_error {
            return Some(self.last_rate);
        } else {
            self.acc_error = 0;
        }
        proof {
            lemma_window_bytes(self.window@);
        }
        let acc_size: u128 = self.sum_bytes + extra_bytes as u128;
        let oldest = match self.window.front() {
            Some(e) => e.0,
            None => {
                return None;
            },
        };
        let acc_time: u64 = now.saturating_sub(oldest);
        let rate: u64 = if acc_time == 0 {
            u64::MAX
        } else {
            let r: u128 = 8_000_000_000u128 * acc_size / acc_time as u128;
            if r > u64::MAX as u128 {
                u64::MAX
            } else {
                r as u64
            }
        };
        self.last_rate = rate;
        Some(rate)
    }

    /// Records an emission of `size_bytes` at `now` in the window.
    fn record(&mut self, size_bytes: u64, now: u64)
        requires
            old(self).wf(),
            size_bytes <= MAX_PAYLOAD_LEN,
        ensures
            final(self).wf(),
            final(self).window@ == old(self).window_after(size_bytes, now),
            final(self).window.size == old(self).window.size,
            final(self).acc_error >= old(self).acc_error,
            final(self).buffer == old(self).buffer,
            final(self).throttle == old(self).throttle,
            final(self).last_rate == old(self).last_rate,
            final(self).max_error == old(self).max_error,
            final(self).name == old(self).name,
            final(self).is_log == old(self).is_log,
    {
        let held = self.window.len();
        proof {
            lemma_window_bytes(self.window@);
            lemma_sum_push(self.window@, (now, size_bytes));
            lemma_window_bytes(self.window@.push((now, size_bytes)));
            assert(held + 1 <= 0x1_0000_0000_0000_0000);
        }
        self.sum_bytes = self.sum_bytes + size_bytes as u128;
        let ghost pushed = self.window@.push((now, size_bytes));
        if let Some(item) = self.window.push((now, size_bytes)) {
            proof {
                assert(pushed.drop_first() == self.window@);
                assert(sum_sizes(pushed) == item.1 + sum_sizes(self.window@));
                lemma_sum_nonneg(self.window@);
            }
            self.sum_bytes = self.sum_bytes - item.1 as u128;
            self.acc_error = self.acc_error.saturating_add(item.1);
        }
    }

    /// Whether sending `size_bytes` more at `now` would exceed the ceiling.
    /// Without a ceiling, or with an empty window, the emission is recorded
    /// and the answer is no.  Otherwise the rate including the new bytes is
    /// predicted (see `current_rate_bps`); below the ceiling the emission
    /// is recorded and the answer is no, else nothing is recorded.
    pub fn exceeds_with(&mut self, size_bytes: u64, now: u64) -> (r: bool)
        requires
            old(self).wf(),
            size_bytes <= MAX_PAYLOAD_LEN,
        ensures
            final(self).wf(),
            final(self).name == old(self).name,
            final(self).window.size == old(self).window.size,
            final(self).buffer == old(self).buffer,
            final(self).throttle == old(self).throttle,
            final(self).max_error == old(self).max_error,
            final(self).name == old(self).name,
            final(self).is_log == old(self).is_log,
            r == old(self).exceeds_spec(size_bytes, now),
            r ==> final(self).window@ == old(self).window@,
            !r ==> final(self).window@ == old(self).window_after(size_bytes, now),
    {
        if self.throttle == 0 || self.window.len() == 0 {
            self.record(size_bytes, now);
            return false;
        }
        self.acc_error = self.acc_error.saturating_add(size_bytes);
        let rate = match self.current_rate_bps(size_bytes, now) {
            Some(rate) => rate,
            None => 0,
        };
        if rate <= self.throttle {
            self.record(size_bytes, now);
            false
        } else {
            true
        }
    }

    /// Queues a burst's packets, dropping those that find the buffer full.
    /// Returns the current rate (as `current_rate_bps` with no extra bytes)
    /// for the caller to log.
    pub fn prepare(&mut self, packets: Vec<PacketStruct>, now: u64) -> (rate: Option<u64>)
        requires
            old(self).wf(),
            forall|i: int| 0 <= i < packets@.len() ==> packets@[i].length <= MAX_PAYLOAD_LEN,
        ensures
            final(self).wf(),
            final(self).name == old(self).name,
            final(self).window == old(self).window,
            final(self).buffer.size == old(self).buffer.size,
            views(final(self).buffer@) == fill_buffer(
                views(old(self).buffer@),
                old(self).buffer.size,
                views(packets@),
            ),
            final(self).sum_bytes == old(self).sum_bytes,
            rate_query(*old(self), 0, now, rate, final(self).acc_error, final(self).last_rate),
            final(self).throttle == old(self).throttle,
            final(self).max_error == old(self).max_error,
    {
        let rate = self.current_rate_bps(0, now);
        let mut i: usize = 0;
        let ghost start = views(self.buffer@);
        while i < packets.len()
            invariant
                self.wf(),
                rate_query(*old(self), 0, now, rate, self.acc_error, self.last_rate),
                self.sum_bytes == old(self).sum_bytes,
                forall|j: int| 0 <= j < packets@.len() ==> packets@[j].length <= MAX_PAYLOAD_LEN,
                i <= packets@.len(),
                self.window == old(self).window,
                self.throttle == old(self).throttle,
                self.max_error == old(self).max_error,
                self.name == old(self).name,
                self.buffer.size == old(self).buffer.size,
                views(self.buffer@) == fill_buffer(
                    start,
                    self.buffer.size,
                    views(packets@.subrange(0, i as int)),
                ),
            decreases packets@.len() - i,
        {
            let p = packets[i].duplicate();
            let ghost before = self.buffer@;
            self.buffer.try_push(p);
            proof {
                assert(views(packets@.subrange(0, i + 1)).drop_last() =~= views(packets@.subrange(0, i as int)));
                assert(views(before.push(p)) =~= views(before).push(p@));
            }
            i = i + 1;
        }
        proof {
            assert(packets@.subrange(0, packets@.len() as int) =~= packets@);
        }
        rate
    }

    /// Takes the oldest buffered packet out.  The current rate is computed
    /// first (as `current_rate_bps` with no extra bytes) and returned with
    /// it, for the caller to log.
    pub fn consume(&mut self, now: u64) -> (r: (Option<PacketStruct>, Option<u64>))
        requires
            old(self).wf(),
        ensures
            final(self).wf(),
            final(self).name == old(self).name,
            final(self).window == old(self).window,
            final(self).throttle == old(self).throttle,
            final(self).max_error == old(self).max_error,
            final(self).buffer.size == old(self).buffer.size,
            old(self).buffer@.len() > 0 ==> r.0 == Some(old(self).buffer@[0])
                && final(self).buffer@ == old(self).buffer@.drop_first(),
            final(self).sum_bytes == old(self).sum_bytes,
            rate_query(*old(self), 0, now, r.1, final(self).acc_error, final(self).last_rate),
            old(self).buffer@.len() == 0 ==> r.0 is None && final(self).buffer@ == old(self).buffer@,
    {
        let rate = self.current_rate_bps(0, now);
        let p = self.buffer.pop_front();
        (p, rate)
    }

    /// One step of draining the buffer at `now`: `None` when it is empty;
    /// `Some(None)` when its oldest packet would break the ceiling (the
    /// caller backs off before trying again); otherwise that packet,
    /// removed from the buffer and recorded as sent.
    pub fn try_consume(&mut self, now: u64) -> (r: Option<Option<PacketStruct>>)
        requires
            old(self).wf(),
        ensures
            final(self).wf(),
            final(self).name == old(self).name,
            final(self).throttle == old(self).throttle,
            final(self).max_error == old(self).max_error,
            final(self).window.size == old(self).window.size,
            final(self).buffer.size == old(self).buffer.size,
            old(self).buffer@.len() == 0 ==> r is None && final(self).buffer@ == old(self).buffer@
                && final(self).window@ == old(self).window@,
            old(self).buffer@.len() > 0 ==> {
                let p = old(self).buffer@[0];
                if old(self).exceeds_spec(p.length as u64, now) {
                    &&& r == Some(None::<PacketStruct>)
                    &&& final(self).buffer@ == old(self).buffer@
                    &&& final(self).window@ == old(self).window@
                } else {
                    &&& r == Some(Some(p))
                    &&& final(self).buffer@ == old(self).buffer@.drop_first()
                    &&& final(self).window@ == old(self).window_after(p.length as u64, now)
                }
            },
    {
        let length: u64 = match self.buffer.front() {
            None => {
                return None;
            },
            Some(p) => p.length as u64,
        };
        if self.exceeds_with(length, now) {
            return Some(None);
        }
        let (p, _rate) = self.consume(now);
        Some(p)
    }
}

/// At every observation point the sizes recorded in the window add up to
/// `sum_bytes`: every operation on a throttler preserves `wf`, which holds
/// this equation.
pub proof fn lemma_window_sum(t: &RateThrottler)
    requires
        t.wf(),
    ensures
        t.sum_bytes == sum_sizes(t.window@),
{
}

/// What a rate query with `extra` bytes at `now` on throttler `t` gives
/// (`r`) and leaves as accounted bytes and cached rate: the cached rate
/// while fewer than `max_error` bytes are accounted; else the count
/// restarts and a fresh rate over the window is computed and cached (none
/// for an empty window).
pub open spec fn rate_query(t: RateThrottler, extra: int, now: u64, r: Option<u64>, acc_error: u64, last_rate: u64) -> bool {
    &&& t.acc_error < t.max_error ==> {
        &&& r == Some(t.last_rate)
        &&& acc_error == t.acc_error
        &&& last_rate == t.last_rate
    }
    &&& t.acc_error >= t.max_error ==> {
        &&& acc_error == 0
        &&& t.window@.len() == 0 ==> r is None && last_rate == t.last_rate
        &&& t.window@.len() > 0 ==> r == Some(t.fresh_rate(extra, now)) && last_rate == t.fresh_rate(extra, now)
    }
}

/// The models of a sequence of packets.
pub open spec fn views(s: Seq<PacketStruct>) -> Seq<PacketView> {
    s.map_values(|p: PacketStruct| p@)
}

/// Buffer contents after offering each of `ps` in turn, dropping those
/// that find it full.
pub open spec fn fill_buffer<T>(s: Seq<T>, size: usize, ps: Seq<T>) -> Seq<T>
    decreases ps.len(),
{
    if ps.len() == 0 {
        s
    } else {
        let before = fill_buffer(s, size, ps.drop_last());
        if has_room(before, size) {
            before.push(ps.last())
        } else {
            before
        }
    }
}

} // verus!
