//! Exact device work of one rational-rate generator, in arbitrary-precision arithmetic.
//!
//! A rate generator accumulates `rate_numerator * pacing_interval` credit quanta per pacing tick
//! and spends `packet_bits * rate_denominator * 1e9` quanta per packet. Products of these
//! quantities exceed every fixed-width integer, so the bound is computed on `BigUint` values.

use num_bigint::BigUint;
use vstd::prelude::*;

use crate::image::{FlowGeneratorState, GeneratorStatus, RateGenerator, SimulationImage};

verus! {

/// Declares `num_bigint::BigUint`, an arbitrary-precision unsigned integer, as an opaque type.
#[verifier::external_type_specification]
#[verifier::external_body]
pub struct ExBigUint(BigUint);

/// The natural number held by an arbitrary-precision unsigned integer.
pub uninterp spec fn big_value(value: BigUint) -> nat;

/// `BigUint::from(u64)`: the big integer holding exactly `value`.
#[verifier::external_body]
fn big_from_u64(value: u64) -> (big: BigUint)
    ensures
        big_value(big) == value,
{
    BigUint::from(value)
}

/// `BigUint::from(u128)`: the big integer holding exactly `value`.
#[verifier::external_body]
fn big_from_u128(value: u128) -> (big: BigUint)
    ensures
        big_value(big) == value,
{
    BigUint::from(value)
}

/// `&BigUint + &BigUint`: the exact sum; big integers never wrap.
#[verifier::external_body]
fn big_add(left: &BigUint, right: &BigUint) -> (sum: BigUint)
    ensures
        big_value(sum) == big_value(*left) + big_value(*right),
{
    left + right
}

/// `&BigUint * &BigUint`: the exact product.
#[verifier::external_body]
fn big_mul(left: &BigUint, right: &BigUint) -> (product: BigUint)
    ensures
        big_value(product) == big_value(*left) * big_value(*right),
{
    left * right
}

/// `&BigUint - &BigUint`: the exact difference; the crate panics when `right` exceeds `left`.
#[verifier::external_body]
fn big_sub(left: &BigUint, right: &BigUint) -> (difference: BigUint)
    requires
        big_value(*right) <= big_value(*left),
    ensures
        big_value(difference) == big_value(*left) - big_value(*right),
{
    left - right
}

/// `&BigUint / &BigUint`: the floor quotient; the crate panics on a zero divisor.
#[verifier::external_body]
fn big_div(left: &BigUint, right: &BigUint) -> (quotient: BigUint)
    requires
        big_value(*right) > 0,
    ensures
        big_value(quotient) == big_value(*left) / big_value(*right),
{
    left / right
}

/// `BigUint <= BigUint`: the numeric order.
#[verifier::external_body]
fn big_le(left: &BigUint, right: &BigUint) -> (le: bool)
    ensures
        le == (big_value(*left) <= big_value(*right)),
{
    left <= right
}

/// `BigUint::clone`: a second big integer holding the same number.
#[verifier::external_body]
fn big_clone(value: &BigUint) -> (copy: BigUint)
    ensures
        big_value(copy) == big_value(*value),
{
    value.clone()
}

/// `usize::try_from(&BigUint)`: the number when it fits in `usize`, nothing otherwise.
#[verifier::external_body]
fn big_to_usize(value: &BigUint) -> (small: Option<usize>)
    ensures
        match small {
            Some(small) => small == big_value(*value),
            None => big_value(*value) > usize::MAX,
        },
{
    usize::try_from(value).ok()
}

/// Upcoming device work of one rate generator: pacing ticks, packets and payload allocations.
#[derive(Clone, Copy, Debug, Default, PartialEq, Eq, Structural)]
pub struct RateDeviceWork {
    pub pacing_ticks: usize,
    pub packets: usize,
    pub payload_allocations: usize,
}

pub open spec fn nat_min(a: nat, b: nat) -> nat {
    if a <= b { a } else { b }
}

pub open spec fn nat_max(a: nat, b: nat) -> nat {
    if a >= b { a } else { b }
}

/// `max(0, left - right)`.
pub open spec fn sub_floor(left: nat, right: nat) -> nat {
    if left > right { (left - right) as nat } else { 0 }
}

/// Ticks needed to accumulate `deficit` quanta at `tick` quanta per tick.
pub open spec fn ceil_deficit(deficit: nat, tick: nat) -> nat {
    if deficit == 0 { 0 } else { ((deficit + tick - 1) as nat) / tick }
}

/// Whether the generator still owes packets within the scenario horizon.
pub open spec fn rate_is_active(
    stop_time_ns: u64,
    generator: FlowGeneratorState,
    rate: RateGenerator,
) -> bool {
    &&& (generator.next_emission.status is Scheduled || generator.next_emission.status is Blocked)
    &&& generator.bytes_emitted < rate.total_bytes
    &&& generator.next_emission.departure_time_ns <= stop_time_ns
}

/// Pacing ticks from the next emission through the stop time, inclusive.
pub open spec fn rate_available_ticks(
    stop_time_ns: u64,
    generator: FlowGeneratorState,
    rate: RateGenerator,
) -> nat {
    (1 + (stop_time_ns - generator.next_emission.departure_time_ns) as nat
        / rate.pacing_interval_ns as nat) as nat
}

pub open spec fn rate_tick_quanta(rate: RateGenerator) -> nat {
    rate.rate_numerator_bits_per_second as nat * rate.pacing_interval_ns as nat
}

pub open spec fn rate_scale(rate: RateGenerator) -> nat {
    rate.rate_denominator as nat * 1_000_000_000
}

pub open spec fn rate_remaining(generator: FlowGeneratorState, rate: RateGenerator) -> nat {
    (rate.total_bytes - generator.bytes_emitted) as nat
}

/// Full-size packets before the final (possibly short) packet.
pub open spec fn rate_full_packets(generator: FlowGeneratorState, rate: RateGenerator) -> nat {
    ((rate_remaining(generator, rate) - 1) as nat) / rate.packet_size_bytes as nat
}

pub open spec fn rate_full_cost(rate: RateGenerator) -> nat {
    rate.packet_size_bytes as nat * 8 * rate_scale(rate)
}

pub open spec fn rate_last_cost(generator: FlowGeneratorState, rate: RateGenerator) -> nat {
    let last_size = (rate_remaining(generator, rate) - rate_full_packets(generator, rate)
        * rate.packet_size_bytes) as nat;
    last_size * 8 * rate_scale(rate)
}

/// Full packets affordable within `ticks` ticks.
pub open spec fn full_by_ticks(ticks: nat, full_packets: nat, credit: nat, tick: nat, cost: nat) -> nat {
    nat_min(nat_min((credit + ticks * tick) / cost, ticks), full_packets)
}

/// Ticks by which every full packet is paid for.
pub open spec fn ticks_for_full(full_packets: nat, credit: nat, tick: nat, full_cost: nat) -> nat {
    nat_max(full_packets, ceil_deficit(sub_floor(full_packets * full_cost, credit), tick))
}

/// Further ticks by which the final packet is paid for.
pub open spec fn last_packet_ticks(
    full_packets: nat,
    credit: nat,
    tick: nat,
    full_cost: nat,
    last_cost: nat,
) -> nat {
    let credit_after_full = (credit + ticks_for_full(full_packets, credit, tick, full_cost) * tick
        - full_packets * full_cost) as nat;
    nat_max(1, ceil_deficit(sub_floor(last_cost, credit_after_full), tick))
}

/// Packets emitted within `ticks` pacing ticks.
pub open spec fn packet_count(
    ticks: nat,
    full_packets: nat,
    credit: nat,
    tick: nat,
    full_cost: nat,
    last_cost: nat,
) -> nat {
    let full = full_by_ticks(ticks, full_packets, credit, tick, full_cost);
    if full < full_packets {
        full
    } else {
        let done = ticks_for_full(full_packets, credit, tick, full_cost) + last_packet_ticks(
            full_packets,
            credit,
            tick,
            full_cost,
            last_cost,
        );
        full_packets + if done <= ticks { 1nat } else { 0nat }
    }
}

/// A count saturated into `usize`.
pub open spec fn usize_sat(value: nat) -> usize {
    if value > usize::MAX { usize::MAX } else { value as usize }
}

/// The packets one rate generator emits before the stop time, the pacing ticks those take
/// (every available tick when the budget outlasts the horizon) and the payloads allocated
/// before the last tick.
pub open spec fn spec_rate_device_work(
    stop_time_ns: u64,
    generator: FlowGeneratorState,
    rate: RateGenerator,
) -> RateDeviceWork {
    if !rate_is_active(stop_time_ns, generator, rate) {
        RateDeviceWork { pacing_ticks: 0, packets: 0, payload_allocations: 0 }
    } else {
        let available = rate_available_ticks(stop_time_ns, generator, rate);
        let credit = rate.credit_quanta as nat;
        let tick = rate_tick_quanta(rate);
        let full_packets = rate_full_packets(generator, rate);
        let full_cost = rate_full_cost(rate);
        let last_cost = rate_last_cost(generator, rate);
        let packets = packet_count(available, full_packets, credit, tick, full_cost, last_cost);
        let payloads = nat_min(
            packet_count(
                sub_floor(available, 1),
                full_packets,
                credit,
                tick,
                full_cost,
                last_cost,
            ),
            full_packets,
        );
        let pacing = if packets == full_packets + 1 {
            ticks_for_full(full_packets, credit, tick, full_cost) + last_packet_ticks(
                full_packets,
                credit,
                tick,
                full_cost,
                last_cost,
            )
        } else {
            available
        };
        RateDeviceWork {
            pacing_ticks: usize_sat(pacing),
            packets: usize_sat(packets),
            payload_allocations: usize_sat(payloads),
        }
    }
}

/// The inputs on which the computation is defined: a positive pacing interval, packet size and
/// rate denominator for an active generator, a tick count that fits in `u64`, and a positive
/// per-tick credit whenever the final packet has to wait for credit.
pub open spec fn rate_work_defined(
    stop_time_ns: u64,
    generator: FlowGeneratorState,
    rate: RateGenerator,
) -> bool {
    rate_is_active(stop_time_ns, generator, rate) ==> {
        &&& rate.pacing_interval_ns > 0
        &&& rate.packet_size_bytes > 0
        &&& rate.rate_denominator > 0
        &&& (stop_time_ns - generator.next_emission.departure_time_ns) / (
        rate.pacing_interval_ns as int) < u64::MAX
        &&& (rate.rate_numerator_bits_per_second > 0 || !({
            let full_packets = rate_full_packets(generator, rate);
            let full_total = full_packets * rate_full_cost(rate);
            &&& rate_available_ticks(stop_time_ns, generator, rate) >= full_packets
            &&& full_total <= rate.credit_quanta
            &&& rate.credit_quanta < full_total + rate_last_cost(generator, rate)
        }))
    }
}

proof fn lemma_ceil_covers(deficit: nat, tick: nat)
    requires
        tick > 0,
    ensures
        ceil_deficit(deficit, tick) * tick >= deficit,
{
    if deficit > 0 {
        let q = ((deficit + tick - 1) as nat) / tick;
        assert(q * tick >= deficit) by (nonlinear_arith)
            requires
                tick > 0,
                deficit > 0,
                q == ((deficit + tick - 1) as nat) / tick,
        ;
    }
}

proof fn lemma_mul_mono(a: nat, b: nat, c: nat)
    requires
        a <= b,
    ensures
        a * c <= b * c,
{
    assert(a * c <= b * c) by (nonlinear_arith)
        requires
            a <= b,
    ;
}

/// `ceil_deficit` on big integers.
fn big_ceil_deficit(deficit: BigUint, tick: &BigUint) -> (ticks: BigUint)
    requires
        big_value(deficit) > 0 ==> big_value(*tick) > 0,
    ensures
        big_value(ticks) == ceil_deficit(big_value(deficit), big_value(*tick)),
{
    let zero = big_from_u64(0);
    if big_le(&deficit, &zero) {
        zero
    } else {
        let one = big_from_u64(1);
        let raised = big_add(&deficit, tick);
        let numerator = big_sub(&raised, &one);
        big_div(&numerator, tick)
    }
}

/// `sub_floor` on big integers.
fn big_sub_floor(left: BigUint, right: &BigUint) -> (difference: BigUint)
    ensures
        big_value(difference) == sub_floor(big_value(left), big_value(*right)),
{
    if big_le(&left, right) {
        big_from_u64(0)
    } else {
        big_sub(&left, right)
    }
}

fn big_min(left: BigUint, right: BigUint) -> (minimum: BigUint)
    ensures
        big_value(minimum) == nat_min(big_value(left), big_value(right)),
{
    if big_le(&left, &right) {
        left
    } else {
        right
    }
}

fn big_max(left: BigUint, right: BigUint) -> (maximum: BigUint)
    ensures
        big_value(maximum) == nat_max(big_value(left), big_value(right)),
{
    if big_le(&right, &left) {
        left
    } else {
        right
    }
}

fn big_full_by_ticks(
    ticks: &BigUint,
    full_packets: u64,
    credit: &BigUint,
    tick: &BigUint,
    cost: &BigUint,
) -> (full: BigUint)
    requires
        big_value(*cost) > 0,
    ensures
        big_value(full) == full_by_ticks(
            big_value(*ticks),
            full_packets as nat,
            big_value(*credit),
            big_value(*tick),
            big_value(*cost),
        ),
{
    let earned = big_mul(ticks, tick);
    let budget = big_add(credit, &earned);
    let by_credit = big_div(&budget, cost);
    let limited = big_min(by_credit, big_clone(ticks));
    big_min(limited, big_from_u64(full_packets))
}

/// Ticks by which every full packet is paid for, on big integers.
fn big_ticks_for_full(full_count: &BigUint, credit: &BigUint, tick: &BigUint, full_cost: &BigUint) -> (ticks: BigUint)
    requires
        big_value(*full_count) * big_value(*full_cost) > big_value(*credit) ==> big_value(*tick)
            > 0,
    ensures
        big_value(ticks) == ticks_for_full(
            big_value(*full_count),
            big_value(*credit),
            big_value(*tick),
            big_value(*full_cost),
        ),
        big_value(*credit) + big_value(ticks) * big_value(*tick) >= big_value(*full_count)
            * big_value(*full_cost),
{
    let owed = big_mul(full_count, full_cost);
    let full_deficit = big_sub_floor(owed, credit);
    let ticks = big_max(big_clone(full_count), big_ceil_deficit(full_deficit, tick));
    proof {
        let fp = big_value(*full_count);
        let fc = big_value(*full_cost);
        let c = big_value(*credit);
        let t = big_value(*tick);
        let d = sub_floor(fp * fc, c);
        if d > 0 {
            lemma_ceil_covers(d, t);
            lemma_mul_mono(ceil_deficit(d, t), big_value(ticks), t);
        }
    }
    ticks
}

/// Further ticks by which the final packet is paid for, on big integers.
fn big_last_packet_ticks(
    full_count: &BigUint,
    credit: &BigUint,
    tick: &BigUint,
    full_cost: &BigUint,
    last_cost: &BigUint,
    ticks_full: &BigUint,
) -> (ticks: BigUint)
    requires
        big_value(*ticks_full) == ticks_for_full(
            big_value(*full_count),
            big_value(*credit),
            big_value(*tick),
            big_value(*full_cost),
        ),
        big_value(*credit) + big_value(*ticks_full) * big_value(*tick) >= big_value(*full_count)
            * big_value(*full_cost),
        big_value(*last_cost) + big_value(*full_count) * big_value(*full_cost) > big_value(
            *credit,
        ) + big_value(*ticks_full) * big_value(*tick) ==> big_value(*tick) > 0,
    ensures
        big_value(ticks) == last_packet_ticks(
            big_value(*full_count),
            big_value(*credit),
            big_value(*tick),
            big_value(*full_cost),
            big_value(*last_cost),
        ),
{
    let earned = big_mul(ticks_full, tick);
    let budget = big_add(credit, &earned);
    let spent = big_mul(full_count, full_cost);
    let credit_after_full = big_sub(&budget, &spent);
    let last_deficit = big_sub_floor(big_clone(last_cost), &credit_after_full);
    big_max(big_from_u64(1), big_ceil_deficit(last_deficit, tick))
}

/// The packet count on big integers.
fn big_packet_count(
    ticks: &BigUint,
    full_packets: u64,
    credit: &BigUint,
    tick: &BigUint,
    full_cost: &BigUint,
    last_cost: &BigUint,
) -> (count: BigUint)
    requires
        big_value(*full_cost) > 0,
        big_value(*tick) > 0 || !({
            let total = full_packets * big_value(*full_cost);
            &&& big_value(*ticks) >= full_packets
            &&& total <= big_value(*credit)
            &&& big_value(*credit) < total + big_value(*last_cost)
        }),
    ensures
        big_value(count) == packet_count(
            big_value(*ticks),
            full_packets as nat,
            big_value(*credit),
            big_value(*tick),
            big_value(*full_cost),
            big_value(*last_cost),
        ),
{
    let full = big_full_by_ticks(ticks, full_packets, credit, tick, full_cost);
    let full_count = big_from_u64(full_packets);
    if !big_le(&full_count, &full) {
        return full;
    }
    proof {
        let fp = full_packets as nat;
        let c = big_value(*credit);
        let t = big_value(*tick);
        let fc = big_value(*full_cost);
        if t == 0 {
            // With no per-tick credit the whole budget is the initial credit.
            assert(big_value(*ticks) * t == 0) by (nonlinear_arith)
                requires
                    t == 0,
            ;
            assert(c / fc >= fp);
            assert(fp * fc <= c) by (nonlinear_arith)
                requires
                    c / fc >= fp,
                    fc > 0,
            ;
        }
    }
    let ticks_full = big_ticks_for_full(&full_count, credit, tick, full_cost);
    proof {
        let fp = full_packets as nat;
        let c = big_value(*credit);
        let t = big_value(*tick);
        let fc = big_value(*full_cost);
        if t == 0 {
            assert(big_value(ticks_full) * t == 0) by (nonlinear_arith)
                requires
                    t == 0,
            ;
        }
    }
    let extra = big_last_packet_ticks(&full_count, credit, tick, full_cost, last_cost, &ticks_full);
    let done = big_add(&ticks_full, &extra);
    if big_le(&done, ticks) {
        big_add(&full_count, &big_from_u64(1))
    } else {
        full_count
    }
}

/// Upcoming pacing ticks, packets and payload allocations of one rate generator.
///
/// An inactive generator (finished, stopped, exhausted or past the stop time) owes nothing.
/// Counts beyond `usize` saturate.
pub fn rate_device_work(
    image: &SimulationImage,
    generator: &FlowGeneratorState,
    rate: RateGenerator,
) -> (work: RateDeviceWork)
    requires
        rate_work_defined(image.stop_time_ns, *generator, rate),
    ensures
        work == spec_rate_device_work(image.stop_time_ns, *generator, rate),
{
    let active = match generator.next_emission.status {
        GeneratorStatus::Scheduled | GeneratorStatus::Blocked => true,
        _ => false,
    };
    if !active || generator.bytes_emitted >= rate.total_bytes
        || generator.next_emission.departure_time_ns > image.stop_time_ns {
        return RateDeviceWork { pacing_ticks: 0, packets: 0, payload_allocations: 0 };
    }
    let available_ticks = big_from_u64(
        1 + (image.stop_time_ns - generator.next_emission.departure_time_ns)
            / rate.pacing_interval_ns,
    );
    let credit = big_from_u128(rate.credit_quanta);
    let tick = big_mul(
        &big_from_u64(rate.rate_numerator_bits_per_second),
        &big_from_u64(rate.pacing_interval_ns),
    );
    let scale = big_mul(&big_from_u64(rate.rate_denominator), &big_from_u64(1_000_000_000u64));
    let remaining = rate.total_bytes - generator.bytes_emitted;
    let full_packets = (remaining - 1) / rate.packet_size_bytes;
    proof {
        let ps = rate.packet_size_bytes as nat;
        let fp = full_packets as nat;
        assert(fp * ps <= (remaining - 1) as nat) by (nonlinear_arith)
            requires
                fp == ((remaining - 1) as nat) / ps,
                ps > 0,
        ;
    }
    let last_size = remaining - full_packets * rate.packet_size_bytes;
    let eight = big_from_u64(8);
    let full_cost = big_mul(&big_mul(&big_from_u64(rate.packet_size_bytes), &eight), &scale);
    let last_cost = big_mul(&big_mul(&big_from_u64(last_size), &eight), &scale);
    proof {
        let ps = rate.packet_size_bytes as nat;
        let s = big_value(scale);
        assert(s > 0) by (nonlinear_arith)
            requires
                s == rate.rate_denominator as nat * 1_000_000_000,
                rate.rate_denominator > 0,
        ;
        assert(ps * 8 * s > 0) by (nonlinear_arith)
            requires
                ps > 0,
                s > 0,
        ;
        assert(big_value(full_cost) == rate_full_cost(rate));
        assert(big_value(last_cost) == rate_last_cost(*generator, rate));
        assert(big_value(tick) == rate_tick_quanta(rate));
        assert(big_value(available_ticks) == rate_available_ticks(
            image.stop_time_ns,
            *generator,
            rate,
        ));
        assert(full_packets as nat == rate_full_packets(*generator, rate));
        assert(rate_is_active(image.stop_time_ns, *generator, rate));
        let n = rate.rate_numerator_bits_per_second as nat;
        let p = rate.pacing_interval_ns as nat;
        assert(n > 0 ==> n * p > 0) by (nonlinear_arith)
            requires
                p > 0,
        ;
    }
    let packets = big_packet_count(
        &available_ticks,
        full_packets,
        &credit,
        &tick,
        &full_cost,
        &last_cost,
    );
    let prior_ticks = big_sub_floor(big_clone(&available_ticks), &big_from_u64(1));
    let prior_packets = big_packet_count(
        &prior_ticks,
        full_packets,
        &credit,
        &tick,
        &full_cost,
        &last_cost,
    );
    let payload_allocations = big_min(prior_packets, big_from_u64(full_packets));
    let all_packets = big_from_u64(full_packets + 1);
    let all_emitted = big_le(&packets, &all_packets) && big_le(&all_packets, &packets);
    let pacing_ticks = if all_emitted {
        let full_count = big_from_u64(full_packets);
        proof {
            let fp = full_packets as nat;
            let c = big_value(credit);
            let t = big_value(tick);
            let fc = big_value(full_cost);
            if t == 0 {
                assert(big_value(available_ticks) * t == 0) by (nonlinear_arith)
                    requires
                        t == 0,
                ;
                assert(c / fc >= fp);
                assert(fp * fc <= c) by (nonlinear_arith)
                    requires
                        c / fc >= fp,
                        fc > 0,
                ;
            }
        }
        let ticks_full = big_ticks_for_full(&full_count, &credit, &tick, &full_cost);
        proof {
            let t = big_value(tick);
            if t == 0 {
                assert(big_value(ticks_full) * t == 0) by (nonlinear_arith)
                    requires
                        t == 0,
                ;
            }
        }
        let extra = big_last_packet_ticks(
            &full_count,
            &credit,
            &tick,
            &full_cost,
            &last_cost,
            &ticks_full,
        );
        big_add(&ticks_full, &extra)
    } else {
        available_ticks
    };
    let pacing_ticks = match big_to_usize(&pacing_ticks) {
        Some(value) => value,
        None => usize::MAX,
    };
    let packets = match big_to_usize(&packets) {
        Some(value) => value,
        None => usize::MAX,
    };
    let payload_allocations = match big_to_usize(&payload_allocations) {
        Some(value) => value,
        None => usize::MAX,
    };
    RateDeviceWork { pacing_ticks, packets, payload_allocations }
}

} // verus!
