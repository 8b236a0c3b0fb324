//! The computations behind the periodic tick driver: composing an MVCC
//! timestamp from a physical clock reading, deriving the GC safe point, and
//! bounding the wait for a timestamp.

use vstd::prelude::*;

verus! {

/// The upper bound on waiting for a timestamp, in milliseconds.
pub const TIMEOUT_FOR_TSO_MS: u64 = 5000;

/// The number of logical bits in a composed MVCC timestamp.
pub const TS_LOGICAL_UNITS: u64 = 262144;

/// The largest physical clock value a timestamp can carry.
pub const TS_PHYSICAL_LIMIT: u64 = 0x0000_4000_0000_0000;

/// An MVCC timestamp: the physical milliseconds shifted past the logical
/// counter's bits.
pub open spec fn spec_compose_ts(physical: u64, logical: u64) -> u64
    recommends
        physical < TS_PHYSICAL_LIMIT,
        logical < TS_LOGICAL_UNITS,
{
    (physical * TS_LOGICAL_UNITS + logical) as u64
}

pub fn compose_ts(physical: u64, logical: u64) -> (ts: u64)
    requires
        physical < TS_PHYSICAL_LIMIT,
        logical < TS_LOGICAL_UNITS,
    ensures
        ts == spec_compose_ts(physical, logical),
{
    proof {
        assert(physical * TS_LOGICAL_UNITS + logical <= u64::MAX) by (nonlinear_arith)
            requires
                physical < TS_PHYSICAL_LIMIT,
                logical < TS_LOGICAL_UNITS,
        ;
    }
    physical * TS_LOGICAL_UNITS + logical
}

/// The safe point a GC tick derives from the current timestamp: one GC
/// interval behind the clock, with an empty logical part. A clock reading
/// below the interval gives the zero safe point.
pub open spec fn spec_gc_tick_safe_point(now_physical: u64, gc_interval_ms: u64) -> u64
    recommends
        now_physical < TS_PHYSICAL_LIMIT,
{
    if now_physical >= gc_interval_ms {
        spec_compose_ts((now_physical - gc_interval_ms) as u64, 0)
    } else {
        0
    }
}

pub fn gc_tick_safe_point(now_physical: u64, gc_interval_ms: u64) -> (sp: u64)
    requires
        now_physical < TS_PHYSICAL_LIMIT,
    ensures
        sp == spec_gc_tick_safe_point(now_physical, gc_interval_ms),
{
    if now_physical >= gc_interval_ms {
        compose_ts(now_physical - gc_interval_ms, 0)
    } else {
        0
    }
}

/// The wait allowed for one timestamp fetch: the GC interval, capped at
/// five seconds.
pub fn tso_timeout_ms(gc_interval_ms: u64) -> (t: u64)
    ensures
        t == if gc_interval_ms <= TIMEOUT_FOR_TSO_MS {
            gc_interval_ms
        } else {
            TIMEOUT_FOR_TSO_MS
        },
{
    if gc_interval_ms <= TIMEOUT_FOR_TSO_MS {
        gc_interval_ms
    } else {
        TIMEOUT_FOR_TSO_MS
    }
}

} // verus!
