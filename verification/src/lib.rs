//! Preprocessing of ActivityWatch heartbeat events.
//!
//! The pipeline has two steps:
//! 1. *flood*: close the micro-gaps between heartbeat events of one stream;
//! 2. *filter by periods*: cut window events down to the not-AFK periods.
//!
//! Instants are integer nanoseconds since the Unix epoch and durations are
//! integer nanoseconds; a difference of two instants is measured in whole
//! milliseconds, rounded toward zero. `spans` holds the mathematical model
//! that the contracts speak of, `laws` the properties proved of the whole
//! pipeline.
pub mod models;
pub mod spans;
pub mod transform;
pub mod laws;
