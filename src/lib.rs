//! Multi-link replay of a recorded traffic trace: packet codec, split
//! controller, rate throttler, burst source, receiver reassembly and
//! round-trip-time bookkeeping, all with verified contracts.

pub mod packet;
pub mod link;
pub mod tx_part_ctl;
pub mod throttle;
pub mod source;
pub mod record;
pub mod stutter;
pub mod rtt_records;
pub mod stream;
pub mod broker;
