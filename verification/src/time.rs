//! Exact integer-time arithmetic for constant-rate links.

use vstd::prelude::*;

verus! {

/// Nanoseconds per second, the scale of every rate in bits per second.
pub const NANOS_PER_SECOND: u64 = 1_000_000_000;

/// Failure to derive an exact integer link time.
#[derive(Clone, Copy, Debug, PartialEq, Eq, Structural)]
pub enum TimeError {
    /// A link with a zero rate never serializes a packet.
    ZeroRate,
    /// The exact time does not fit in a `u64` nanosecond count.
    Overflow,
}

/// Exact serialization time of `bytes` at `rate_bps`, rounded up to a whole nanosecond.
pub open spec fn spec_serialization_ns(bytes: u64, rate_bps: u64) -> int
    recommends
        rate_bps > 0,
{
    (bytes * 8 * NANOS_PER_SECOND + rate_bps - 1) / (rate_bps as int)
}

pub open spec fn spec_serialization_time_ns(bytes: u64, rate_bps: u64) -> Result<u64, TimeError> {
    if rate_bps == 0 {
        Err(TimeError::ZeroRate)
    } else if spec_serialization_ns(bytes, rate_bps) > u64::MAX {
        Err(TimeError::Overflow)
    } else {
        Ok(spec_serialization_ns(bytes, rate_bps) as u64)
    }
}

/// Computes the exact serialization delay of `bytes` on a link of `rate_bps` bits per second.
pub fn serialization_time_ns(bytes: u64, rate_bps: u64) -> (time: Result<u64, TimeError>)
    ensures
        time == spec_serialization_time_ns(bytes, rate_bps),
{
    if rate_bps == 0 {
        return Err(TimeError::ZeroRate);
    }
    let bits: u128 = (bytes as u128) * 8;
    assert(bits * (NANOS_PER_SECOND as u128) <= 0x10_0000_0000_0000_0000_0000_0000u128)
        by (nonlinear_arith)
        requires
            bits <= 8 * 0xffff_ffff_ffff_ffffu128,
    ;
    let scaled: u128 = bits * (NANOS_PER_SECOND as u128);
    let numerator: u128 = scaled + (rate_bps as u128) - 1;
    let quotient: u128 = numerator / (rate_bps as u128);
    if quotient > u64::MAX as u128 {
        Err(TimeError::Overflow)
    } else {
        Ok(quotient as u64)
    }
}

pub open spec fn spec_link_arrival_time_ns(
    start_time_ns: u64,
    bytes: u64,
    rate_bps: u64,
    propagation_ns: u64,
) -> Result<u64, TimeError> {
    match spec_serialization_time_ns(bytes, rate_bps) {
        Err(error) => Err(error),
        Ok(serialization) => if start_time_ns + serialization + propagation_ns > u64::MAX {
            Err(TimeError::Overflow)
        } else {
            Ok((start_time_ns + serialization + propagation_ns) as u64)
        },
    }
}

/// Computes the arrival time of a packet that starts transmission at `start_time_ns`.
pub fn link_arrival_time_ns(start_time_ns: u64, bytes: u64, rate_bps: u64, propagation_ns: u64) -> (time:
    Result<u64, TimeError>)
    ensures
        time == spec_link_arrival_time_ns(start_time_ns, bytes, rate_bps, propagation_ns),
{
    let serialization = match serialization_time_ns(bytes, rate_bps) {
        Err(error) => return Err(error),
        Ok(value) => value,
    };
    match start_time_ns.checked_add(serialization) {
        None => Err(TimeError::Overflow),
        Some(sent) => match sent.checked_add(propagation_ns) {
            None => Err(TimeError::Overflow),
            Some(arrival) => Ok(arrival),
        },
    }
}


/// Arrival is start plus delay: a transmission starting at `start_time_ns` arrives exactly the
/// link's start-free delay (serialization plus propagation) later, is refused with the delay's
/// own error, and overflows exactly when that sum does not fit `u64`. Two starts on the same
/// link therefore arrive exactly as far apart as they started.
pub proof fn law_arrival_is_start_plus_delay(
    start_time_ns: u64,
    other_start_ns: u64,
    bytes: u64,
    rate_bps: u64,
    propagation_ns: u64,
)
    ensures
        ({
            let delay = spec_link_arrival_time_ns(0, bytes, rate_bps, propagation_ns);
            let arrival = spec_link_arrival_time_ns(start_time_ns, bytes, rate_bps, propagation_ns);
            &&& (delay is Err ==> arrival == delay)
            &&& (delay is Ok && start_time_ns + delay->Ok_0 <= u64::MAX ==> arrival == Ok::<
                u64,
                TimeError,
            >((start_time_ns + delay->Ok_0) as u64))
            &&& (delay is Ok && start_time_ns + delay->Ok_0 > u64::MAX ==> arrival == Err::<
                u64,
                TimeError,
            >(TimeError::Overflow))
            &&& (arrival is Ok ==> delay is Ok && arrival->Ok_0 == start_time_ns + delay->Ok_0)
            &&& (delay is Ok ==> spec_serialization_time_ns(bytes, rate_bps) is Ok && delay->Ok_0
                == spec_serialization_time_ns(bytes, rate_bps)->Ok_0 + propagation_ns)
            &&& (spec_serialization_time_ns(bytes, rate_bps) is Ok
                && spec_serialization_time_ns(bytes, rate_bps)->Ok_0 + propagation_ns <= u64::MAX
                ==> delay is Ok)
        }),
        ({
            let first = spec_link_arrival_time_ns(start_time_ns, bytes, rate_bps, propagation_ns);
            let second = spec_link_arrival_time_ns(other_start_ns, bytes, rate_bps, propagation_ns);
            first is Ok && second is Ok ==> second->Ok_0 - first->Ok_0 == other_start_ns
                - start_time_ns
        }),
{
}

/// A packet's serialization delay is the least whole number of nanoseconds in which the link
/// carries all its bits: at `rate_bps` bits per second it carries every bit in that time and
/// not all of them in one nanosecond less.
pub proof fn law_serialization_is_ceiling(bytes: u64, rate_bps: u64)
    ensures
        spec_serialization_time_ns(bytes, rate_bps) is Ok ==> rate_bps > 0
            && spec_serialization_time_ns(bytes, rate_bps)->Ok_0 * rate_bps >= bytes * 8
            * NANOS_PER_SECOND && (spec_serialization_time_ns(bytes, rate_bps)->Ok_0 - 1) * rate_bps
            < bytes * 8 * NANOS_PER_SECOND,
        spec_serialization_time_ns(bytes, rate_bps) == Err::<u64, TimeError>(TimeError::ZeroRate)
            <==> rate_bps == 0,
{
    if rate_bps > 0 {
        let n = bytes * 8 * NANOS_PER_SECOND;
        let r = rate_bps as int;
        let q = (n + r - 1) / r;
        assert(q * r >= n && (q - 1) * r < n) by (nonlinear_arith)
            requires
                r > 0,
                n >= 0,
                q == (n + r - 1) / r,
        ;
    }
}

} // verus!
