//! The range of latencies the metrics record.
use vstd::prelude::*;

verus! {

/// The shortest latency recorded, in microseconds.
pub const LATENCY_MIN_MICROS: u64 = 1;

/// The longest latency recorded, in microseconds (one minute).
pub const LATENCY_MAX_MICROS: u64 = 60_000_000;

/// A latency measurement brought into the recorded range: shorter ones count
/// as the shortest, longer ones as the longest.
pub fn clamp_latency_micros(micros: u64) -> (m: u64)
    ensures
        LATENCY_MIN_MICROS <= m <= LATENCY_MAX_MICROS,
        LATENCY_MIN_MICROS <= micros <= LATENCY_MAX_MICROS ==> m == micros,
        micros < LATENCY_MIN_MICROS ==> m == LATENCY_MIN_MICROS,
        micros > LATENCY_MAX_MICROS ==> m == LATENCY_MAX_MICROS,
{
    if micros < LATENCY_MIN_MICROS {
        LATENCY_MIN_MICROS
    } else if micros > LATENCY_MAX_MICROS {
        LATENCY_MAX_MICROS
    } else {
        micros
    }
}

} // verus!
