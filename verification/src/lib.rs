//! Storage and lifecycle layer for time-stamped sensor readings.
//!
//! The library keeps sensors, readings and logging sessions in a small
//! relational store with verified invariants: unique immutable ids,
//! foreign-key integrity, at most one active logging session per sensor,
//! and a monotone schema version.

#![verifier::loop_isolation(false)]

use vstd::prelude::*;

pub mod csv;
pub mod error;
pub mod migrations;
pub mod order;
pub mod pool;
pub mod reading;
pub mod schema;
pub mod sensor;
pub mod session;
pub mod store;
pub mod system;
pub mod text;
pub mod time;

verus! {

/// Truncating division of a timestamp by the length of an hour, used to
/// assign readings to hour-aligned buckets.
pub open spec fn hour_bucket_of(ts: int) -> int {
    if ts >= 0 {
        ts / 3600
    } else {
        -((-ts) / 3600)
    }
}

/// Hour-aligned bucket of a reading timestamp, truncated toward zero.
pub fn hour_bucket(ts: i64) -> (b: i64)
    ensures
        b == hour_bucket_of(ts as int),
{
    if ts >= 0 {
        ((ts as u64) / 3600) as i64
    } else {
        let mag: u128 = (-(ts as i128)) as u128;
        let q: u128 = mag / 3600;
        -(q as i64)
    }
}

} // verus!
