//! A single sensor reading: a timestamp and a temperature.
//!
//! The temperature is carried in tenths of a degree Celsius, exactly as the
//! sensors report it and as the durable store records it (a raw reading of
//! 215 stands for 21.5 degrees). Keeping the fixed-point integer avoids any
//! rounding concern and gives measurements a decidable equality.

use vstd::prelude::*;

verus! {

/// An immutable sensor reading.
///
/// `timestamp` is in milliseconds since the epoch; `deci_deg_c` is the
/// temperature in tenths of a degree Celsius. Two measurements may share a
/// timestamp yet differ in value; they are then unequal, though either may
/// stand for the other wherever only timestamp order matters.
#[derive(Clone, Copy, Debug, PartialEq, Eq, Structural)]
pub struct Measurement {
    pub timestamp: u64,
    pub deci_deg_c: u16,
}

impl Measurement {
    /// Builds a reading from a raw sensor value (tenths of a degree) and the
    /// wall-clock time at which it arrived. The clock is supplied by the
    /// caller so that construction itself is pure.
    pub fn new(deci_deg_c: u16, timestamp: u64) -> (m: Measurement)
        ensures
            m.deci_deg_c == deci_deg_c,
            m.timestamp == timestamp,
    {
        Measurement { timestamp, deci_deg_c }
    }

    /// True when `self` is no later than `other` in the canonical
    /// timestamp order.
    pub fn at_or_before(&self, other: &Measurement) -> (r: bool)
        ensures
            r == (self.timestamp <= other.timestamp),
    {
        self.timestamp <= other.timestamp
    }
}

} // verus!
