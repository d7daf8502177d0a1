//! Durations of the on/off keyed waveform, in microseconds and in samples.
//!
//! A duration is converted to a sample count in single precision: the duration
//! is multiplied by one millionth and by the sample rate, each product rounded
//! to a 24-bit significand, and the outcome is rounded to the nearest integer.
//! All of this is carried out on integers. A single-precision number that is a
//! multiple of 2^-43 is represented by that multiple, so that one millionth,
//! the only operand that is not an integer, is [`MICRO`].

use vstd::arithmetic::power2::pow2;
use vstd::prelude::*;

verus! {

/// Sample rate used where none is asked for.
pub const DEFAULT_SAMPLE_RATE: u32 = 500_000;

/// Carrier frequency used where none is asked for.
pub const DEFAULT_CENTER_FREQ_HZ: u64 = 433_920_000;

/// Carrier burst that opens a packet.
pub const PREAMBLE_ON_US: u32 = 8_320;

/// Silence between the preamble and the first data bit.
pub const SYNC_OFF_US: u32 = 4_200;

/// Carrier burst that opens each data bit.
pub const DATA_ON_US: u32 = 488;

/// Silence that closes a 0 bit.
pub const SHORT_OFF_US: u32 = 540;

/// Silence that closes a 1 bit.
pub const LONG_OFF_US: u32 = 1_580;

/// Carrier burst that closes a packet.
pub const STOP_ON_US: u32 = 488;

/// Silence between two repetitions of a packet.
pub const INTER_PACKET_GAP_US: u32 = 10_700;

/// A carrier burst has to be longer than this to be taken for a preamble.
pub const PREAMBLE_MIN_US: u32 = 4_000;

/// A silence longer than this closes a 1 bit, any other a 0 bit.
pub const BIT_SPLIT_US: u32 = 1_000;

/// The single-precision number nearest to one millionth, in units of 2^-43.
pub const MICRO: u32 = 8_796_093;

/// Half of 2^43.
pub const MICRO_HALF: u64 = 0x400_0000_0000;

/// 2^43: the integer 1 in the units of [`MICRO`].
pub const MICRO_ONE: u64 = 0x800_0000_0000;

/// One more than the largest 24-bit significand.
pub const SIGNIFICAND_LIMIT: u32 = 0x100_0000;

/// How many low bits of `x` a 24-bit significand has no room for.
pub open spec fn excess_bits(x: nat) -> nat
    decreases x,
{
    if x < SIGNIFICAND_LIMIT {
        0
    } else {
        1 + excess_bits(x / 2)
    }
}

/// `x` rounded to a multiple of `unit`: to the nearest, and to the even one of two.
pub open spec fn round_to_even_multiple(x: nat, unit: nat) -> nat {
    let below = x / unit;
    let rest = x % unit;
    if 2 * rest > unit || (2 * rest == unit && below % 2 == 1) {
        (below + 1) * unit
    } else {
        below * unit
    }
}

/// The single-precision number nearest to the integer `x`, ties to even.
pub open spec fn single_precision(x: nat) -> nat {
    round_to_even_multiple(x, pow2(excess_bits(x)))
}

/// `us` microseconds at `sample_rate` samples per second, in samples, as
/// single-precision arithmetic gives it.
#[verifier::opaque]
pub open spec fn ideal_samples(us: nat, sample_rate: nat) -> nat {
    let seconds = single_precision(single_precision(us) * MICRO as nat);
    let samples = single_precision(seconds * single_precision(sample_rate));
    (samples + MICRO_HALF as nat) / (MICRO_ONE as nat)
}

/// [`ideal_samples`] as a machine integer: the largest one where it does not fit.
pub open spec fn samples_in(us: u32, sample_rate: u32) -> usize {
    let n = ideal_samples(us as nat, sample_rate as nat);
    if n <= usize::MAX {
        n as usize
    } else {
        usize::MAX
    }
}

/// The executable side of [`single_precision`].
fn round_single(x: u128) -> (r: u128)
    requires
        x < 0x1_0000_0000_0000_0000_0000_0000_0000,
    ensures
        r == single_precision(x as nat),
        r <= 2 * x,
{
    let mut below: u128 = x;
    let mut unit: u128 = 1;
    let ghost mut k: nat = 0;
    proof {
        vstd::arithmetic::power2::lemma2_to64();
    }
    while below >= SIGNIFICAND_LIMIT as u128
        invariant
            0 < unit,
            unit == pow2(k),
            below == x / unit,
            excess_bits(x as nat) == k + excess_bits(below as nat),
            below * unit <= x,
            unit == 1 || below >= 1,
        decreases below,
    {
        proof {
            vstd::arithmetic::power2::lemma_pow2_unfold(k + 1);
            vstd::arithmetic::div_mod::lemma_div_denominator(x as int, unit as int, 2);
            assert(below * unit <= x);
            assert(unit * 2 <= x) by (nonlinear_arith)
                requires
                    below * unit <= x,
                    below >= 2,
                    unit > 0,
            ;
            assert((below / 2) * (unit * 2) <= below * unit) by (nonlinear_arith)
                requires
                    below >= 0,
                    unit > 0,
            ;
            k = k + 1;
        }
        below = below / 2;
        unit = unit * 2;
    }
    let rest: u128 = x % unit;
    proof {
        assert(below * unit + rest == x) by (nonlinear_arith)
            requires
                below == x / unit,
                rest == x % unit,
                unit > 0,
        ;
        assert(rest < unit);
        assert((below + 1) * unit == below * unit + unit) by (nonlinear_arith);
        assert(unit <= x || x == 0) by (nonlinear_arith)
            requires
                below * unit <= x,
                unit > 0,
                below >= 1 || x == 0 || unit == 1,
        ;
    }
    if rest > unit - rest || (rest == unit - rest && below % 2 == 1) {
        (below + 1) * unit
    } else {
        below * unit
    }
}

/// Converts a duration in microseconds to a number of samples.
pub fn us_to_samples(us: u32, sample_rate: u32) -> (n: usize)
    ensures
        n == samples_in(us, sample_rate),
{
    proof {
        reveal(ideal_samples);
    }
    let us_single: u128 = round_single(us as u128);
    let rate_single: u128 = round_single(sample_rate as u128);
    assert(us_single * MICRO <= 0x2_0000_0000 * 8_796_093) by (nonlinear_arith)
        requires
            us_single <= 0x2_0000_0000,
            MICRO == 8_796_093,
    ;
    let seconds: u128 = round_single(us_single * (MICRO as u128));
    assert(seconds * rate_single <= 0x4_0000_0000 * 8_796_093 * 0x2_0000_0000) by (nonlinear_arith)
        requires
            seconds <= 0x4_0000_0000 * 8_796_093,
            rate_single <= 0x2_0000_0000,
    ;
    let samples: u128 = round_single(seconds * rate_single);
    let n: u128 = (samples + MICRO_HALF as u128) / (MICRO_ONE as u128);
    if n <= usize::MAX as u128 {
        n as usize
    } else {
        usize::MAX
    }
}

/// The significand of a number that does not fit has its top bit set.
proof fn lemma_excess_range(x: nat)
    ensures
        pow2(excess_bits(x)) >= 1,
        x < SIGNIFICAND_LIMIT * pow2(excess_bits(x)),
        excess_bits(x) > 0 ==> SIGNIFICAND_LIMIT * pow2(excess_bits(x)) <= 2 * x,
    decreases x,
{
    vstd::arithmetic::power2::lemma2_to64();
    if x >= SIGNIFICAND_LIMIT {
        lemma_excess_range(x / 2);
        vstd::arithmetic::power2::lemma_pow2_unfold(excess_bits(x));
    }
}

/// The range that a number lies in tells how many bits are in excess.
proof fn lemma_excess_exact(x: nat, k: nat)
    requires
        x < SIGNIFICAND_LIMIT * pow2(k),
        k > 0 ==> SIGNIFICAND_LIMIT * pow2(k) <= 2 * x,
    ensures
        excess_bits(x) == k,
    decreases k,
{
    vstd::arithmetic::power2::lemma2_to64();
    if k > 0 {
        vstd::arithmetic::power2::lemma_pow2_unfold(k);
        if k == 1 {
            assert(x / 2 < SIGNIFICAND_LIMIT);
        }
        lemma_excess_exact(x / 2, (k - 1) as nat);
    }
}

proof fn lemma_excess_monotone(x: nat, y: nat)
    requires
        x <= y,
    ensures
        excess_bits(x) <= excess_bits(y),
    decreases y,
{
    if x >= SIGNIFICAND_LIMIT {
        lemma_excess_monotone(x / 2, y / 2);
    }
}

/// Rounding moves a number by half a unit at most.
proof fn lemma_rounding_error(x: nat, unit: nat)
    requires
        unit >= 1,
    ensures
        2 * x - unit <= 2 * round_to_even_multiple(x, unit) <= 2 * x + unit,
        x / unit * unit <= round_to_even_multiple(x, unit) <= (x / unit + 1) * unit,
{
    vstd::arithmetic::div_mod::lemma_fundamental_div_mod(x as int, unit as int);
    assert(unit * (x / unit) == x / unit * unit) by (nonlinear_arith);
    assert((x / unit + 1) * unit == x / unit * unit + unit) by (nonlinear_arith);
}

proof fn lemma_rounding_monotone(x: nat, y: nat, unit: nat)
    requires
        unit >= 1,
        x <= y,
    ensures
        round_to_even_multiple(x, unit) <= round_to_even_multiple(y, unit),
{
    vstd::arithmetic::div_mod::lemma_fundamental_div_mod(x as int, unit as int);
    vstd::arithmetic::div_mod::lemma_fundamental_div_mod(y as int, unit as int);
    vstd::arithmetic::div_mod::lemma_div_is_ordered(x as int, y as int, unit as int);
    lemma_rounding_error(x, unit);
    lemma_rounding_error(y, unit);
    let low = x / unit;
    let high = y / unit;
    assert(unit * low == low * unit) by (nonlinear_arith);
    assert(unit * high == high * unit) by (nonlinear_arith);
    if low < high {
        assert((low + 1) * unit <= high * unit) by (nonlinear_arith)
            requires
                low + 1 <= high,
        ;
    }
}

/// Rounding to single precision keeps the order of two numbers.
pub proof fn single_precision_is_monotone(x: nat, y: nat)
    requires
        x <= y,
    ensures
        single_precision(x) <= single_precision(y),
{
    lemma_excess_range(x);
    lemma_excess_range(y);
    lemma_excess_monotone(x, y);
    let fine = pow2(excess_bits(x));
    let coarse = pow2(excess_bits(y));
    if excess_bits(x) == excess_bits(y) {
        lemma_rounding_monotone(x, y, fine);
    } else {
        vstd::arithmetic::power2::lemma_pow2_strictly_increases(excess_bits(x), excess_bits(y));
        if excess_bits(x) + 1 < excess_bits(y) {
            vstd::arithmetic::power2::lemma_pow2_strictly_increases(
                excess_bits(x) + 1,
                excess_bits(y),
            );
        }
        vstd::arithmetic::power2::lemma_pow2_unfold(excess_bits(x) + 1);
        // `x` stays below 2^24 fine units, which is 2^23 coarse units at most.
        lemma_rounding_error(x, fine);
        assert((x / fine + 1) * fine <= SIGNIFICAND_LIMIT * fine) by {
            vstd::arithmetic::div_mod::lemma_multiply_divide_lt(
                x as int,
                fine as int,
                SIGNIFICAND_LIMIT as int,
            );
            assert((x / fine + 1) * fine <= SIGNIFICAND_LIMIT * fine) by (nonlinear_arith)
                requires
                    x / fine + 1 <= SIGNIFICAND_LIMIT,
            ;
        }
        lemma_rounding_error(y, coarse);
        assert(y / coarse * coarse >= 0x80_0000 * coarse) by {
            vstd::arithmetic::div_mod::lemma_div_is_ordered(
                0x80_0000 * coarse as int,
                y as int,
                coarse as int,
            );
            vstd::arithmetic::div_mod::lemma_div_by_multiple(0x80_0000, coarse as int);
            assert(y / coarse * coarse >= 0x80_0000 * coarse) by (nonlinear_arith)
                requires
                    y / coarse >= 0x80_0000,
            ;
        }
    }
}

/// Rounding to single precision errs by one part in 2^24 at most.
pub proof fn single_precision_error(x: nat)
    ensures
        0xFF_FFFF * x <= 0x100_0000 * single_precision(x) <= 0x100_0001 * x,
        x < SIGNIFICAND_LIMIT ==> single_precision(x) == x,
{
    vstd::arithmetic::power2::lemma2_to64();
    lemma_excess_range(x);
    lemma_rounding_error(x, pow2(excess_bits(x)));
}

/// A longer duration or a higher sample rate never gives fewer samples.
pub proof fn samples_are_monotone(us: u32, longer_us: u32, sample_rate: u32, higher_rate: u32)
    requires
        us <= longer_us,
        sample_rate <= higher_rate,
    ensures
        samples_in(us, sample_rate) <= samples_in(longer_us, higher_rate),
{
    reveal(ideal_samples);
    let a = single_precision(us as nat);
    let b = single_precision(longer_us as nat);
    let r = single_precision(sample_rate as nat);
    let s = single_precision(higher_rate as nat);
    single_precision_is_monotone(us as nat, longer_us as nat);
    single_precision_is_monotone(sample_rate as nat, higher_rate as nat);
    assert(a * MICRO as nat <= b * MICRO as nat) by (nonlinear_arith)
        requires
            a <= b,
    ;
    single_precision_is_monotone(a * MICRO as nat, b * MICRO as nat);
    let c = single_precision(a * MICRO as nat);
    let d = single_precision(b * MICRO as nat);
    assert(c * r <= d * s) by (nonlinear_arith)
        requires
            0 <= c <= d,
            0 <= r <= s,
    ;
    single_precision_is_monotone(c * r, d * s);
}

/// The samples of a duration below 2^24 microseconds, from two roundings whose
/// excess is known.
proof fn lemma_samples_value(us: u32, sample_rate: u32, seconds: nat, k: nat, product: nat)
    requires
        us < SIGNIFICAND_LIMIT,
        sample_rate < SIGNIFICAND_LIMIT,
        seconds == single_precision(us as nat * MICRO as nat),
        product == seconds * sample_rate,
        product < SIGNIFICAND_LIMIT * pow2(k),
        k > 0 ==> SIGNIFICAND_LIMIT * pow2(k) <= 2 * product,
    ensures
        ideal_samples(us as nat, sample_rate as nat) == (round_to_even_multiple(product, pow2(k))
            + MICRO_HALF as nat) / (MICRO_ONE as nat),
{
    reveal(ideal_samples);
    single_precision_error(us as nat);
    single_precision_error(sample_rate as nat);
    lemma_excess_exact(product, k);
}

/// The durations that decide whether a sample rate will do, in seconds.
proof fn lemma_seconds()
    ensures
        single_precision(DATA_ON_US as nat * MICRO as nat) == 4_292_493_312,
        single_precision(BIT_SPLIT_US as nat * MICRO as nat) == 8_796_093_440,
        single_precision(LONG_OFF_US as nat * MICRO as nat) == 13_897_827_328,
        single_precision(PREAMBLE_ON_US as nat * MICRO as nat) == 73_183_494_144,
        single_precision(PREAMBLE_MIN_US as nat * MICRO as nat) == 35_184_373_760,
{
    vstd::arithmetic::power2::lemma2_to64();
    lemma_excess_exact(DATA_ON_US as nat * MICRO as nat, 8);
    lemma_excess_exact(BIT_SPLIT_US as nat * MICRO as nat, 10);
    lemma_excess_exact(LONG_OFF_US as nat * MICRO as nat, 10);
    lemma_excess_exact(PREAMBLE_ON_US as nat * MICRO as nat, 13);
    lemma_excess_exact(PREAMBLE_MIN_US as nat * MICRO as nat, 12);
}

/// The durations of the protocol never exhaust a machine integer.
proof fn lemma_samples_fit(us: u32, sample_rate: u32)
    requires
        us <= INTER_PACKET_GAP_US,
    ensures
        ideal_samples(us as nat, sample_rate as nat) <= u32::MAX,
        samples_in(us, sample_rate) == ideal_samples(us as nat, sample_rate as nat),
{
    reveal(ideal_samples);
    let rate = single_precision(sample_rate as nat);
    let seconds = single_precision(us as nat * MICRO as nat);
    single_precision_error(us as nat);
    single_precision_error(sample_rate as nat);
    assert(us * MICRO <= 10_700 * 8_796_093) by (nonlinear_arith)
        requires
            us <= 10_700,
            MICRO == 8_796_093,
    ;
    single_precision_error(us as nat * MICRO as nat);
    single_precision_error(seconds * rate);
    assert(seconds * rate <= 94_200_000_000 * 0x1_0000_0200) by (nonlinear_arith)
        requires
            0 <= seconds <= 94_200_000_000,
            0 <= rate <= 0x1_0000_0200,
    ;
}

/// Two durations that lie far enough apart at some sample rate to be told
/// apart in samples.
proof fn lemma_separated(
    us: u32,
    shorter_us: u32,
    seconds: nat,
    shorter_seconds: nat,
    sample_rate: u32,
)
    requires
        shorter_us <= us <= INTER_PACKET_GAP_US,
        seconds == single_precision(us as nat * MICRO as nat),
        shorter_seconds == single_precision(shorter_us as nat * MICRO as nat),
        (0xFF_FFFF * seconds - 0x100_0001 * shorter_seconds) * single_precision(
            sample_rate as nat,
        ) >= 0x100_0000 * 0x800_0000_0000,
    ensures
        samples_in(shorter_us, sample_rate) < samples_in(us, sample_rate),
{
    reveal(ideal_samples);
    let rate = single_precision(sample_rate as nat);
    single_precision_error(us as nat);
    single_precision_error(shorter_us as nat);
    single_precision_error(seconds * rate);
    single_precision_error(shorter_seconds * rate);
    lemma_samples_fit(us, sample_rate);
    lemma_samples_fit(shorter_us, sample_rate);
    let longer = single_precision(seconds * rate);
    let shorter = single_precision(shorter_seconds * rate);
    assert((0xFF_FFFF * seconds - 0x100_0001 * shorter_seconds) * rate == 0xFF_FFFF * (seconds
        * rate) - 0x100_0001 * (shorter_seconds * rate)) by (nonlinear_arith);
}

/// A sample count is off by half a sample at most, and by what three roundings to
/// single precision add: less than one part in 2^22.
pub(crate) proof fn lemma_samples_bounds(us: u32, sample_rate: u32)
    requires
        us <= INTER_PACKET_GAP_US,
    ensures
        ({
            let exact = us * (8_796_093 * single_precision(sample_rate as nat));
            let given = 0x800_0000_0000 * samples_in(us, sample_rate);
            0x3F_FFFF * exact - 0x1_0000_0000_0000_0000 <= 0x40_0000 * given <= 0x40_0001 * exact
                + 0x1_0000_0000_0000_0000
        }),
{
    reveal(ideal_samples);
    let rate = single_precision(sample_rate as nat);
    let seconds = single_precision(us as nat * MICRO as nat);
    single_precision_error(us as nat);
    single_precision_error(us as nat * MICRO as nat);
    single_precision_error(seconds * rate);
    lemma_samples_fit(us, sample_rate);
    let exact = us * (8_796_093 * rate);
    assert(exact == (us * MICRO) * rate) by (nonlinear_arith)
        requires
            exact == us * (8_796_093 * rate),
            MICRO == 8_796_093,
    ;
    assert(0xFF_FFFF * exact <= 0x100_0000 * (seconds * rate) <= 0x100_0001 * exact)
        by (nonlinear_arith)
        requires
            exact == (us * MICRO) * rate,
            0 <= rate,
            0xFF_FFFF * (us * MICRO) <= 0x100_0000 * seconds <= 0x100_0001 * (us * MICRO),
    ;
}

/// A sample rate at which the bits of a packet can be told apart: a burst is at
/// least one sample long, and the silence of a 1 bit longer than the bound
/// between the two.
pub open spec fn resolvable(sample_rate: u32) -> bool {
    &&& samples_in(DATA_ON_US, sample_rate) > 0
    &&& samples_in(LONG_OFF_US, sample_rate) > samples_in(BIT_SPLIT_US, sample_rate)
}

/// The sample counts around which [`resolvable`] changes.
proof fn lemma_turning_points()
    ensures
        samples_in(DATA_ON_US, 1_024) == 0,
        samples_in(DATA_ON_US, 1_025) == 1,
        samples_in(BIT_SPLIT_US, 1_499) == 1,
        samples_in(BIT_SPLIT_US, 1_500) == 2,
        samples_in(BIT_SPLIT_US, 2_499) == 2,
        samples_in(LONG_OFF_US, 1_025) == 2,
        samples_in(LONG_OFF_US, 1_582) == 2,
        samples_in(LONG_OFF_US, 1_583) == 3,
{
    lemma_seconds();
    vstd::arithmetic::power2::lemma2_to64();
    lemma_samples_value(DATA_ON_US, 1_024, 4_292_493_312, 18, 4_292_493_312 * 1_024);
    lemma_samples_value(DATA_ON_US, 1_025, 4_292_493_312, 19, 4_292_493_312 * 1_025);
    lemma_samples_value(BIT_SPLIT_US, 1_499, 8_796_093_440, 20, 8_796_093_440 * 1_499);
    lemma_samples_value(BIT_SPLIT_US, 1_500, 8_796_093_440, 20, 8_796_093_440 * 1_500);
    lemma_samples_value(BIT_SPLIT_US, 2_499, 8_796_093_440, 21, 8_796_093_440 * 2_499);
    lemma_samples_value(LONG_OFF_US, 1_025, 13_897_827_328, 20, 13_897_827_328 * 1_025);
    lemma_samples_value(LONG_OFF_US, 1_582, 13_897_827_328, 21, 13_897_827_328 * 1_582);
    lemma_samples_value(LONG_OFF_US, 1_583, 13_897_827_328, 21, 13_897_827_328 * 1_583);
}

/// The sample rates that will do are those from 1025 Hz on, but for a band in
/// which the two silences come out equally long.
pub proof fn resolvable_rates(sample_rate: u32)
    ensures
        resolvable(sample_rate) <==> 1_025 <= sample_rate <= 1_499 || 1_583 <= sample_rate,
{
    lemma_turning_points();
    if sample_rate <= 1_024 {
        samples_are_monotone(DATA_ON_US, DATA_ON_US, sample_rate, 1_024);
    } else {
        samples_are_monotone(DATA_ON_US, DATA_ON_US, 1_025, sample_rate);
        if sample_rate <= 1_499 {
            samples_are_monotone(BIT_SPLIT_US, BIT_SPLIT_US, sample_rate, 1_499);
            samples_are_monotone(LONG_OFF_US, LONG_OFF_US, 1_025, sample_rate);
        } else if sample_rate <= 1_582 {
            samples_are_monotone(BIT_SPLIT_US, BIT_SPLIT_US, 1_500, sample_rate);
            samples_are_monotone(LONG_OFF_US, LONG_OFF_US, sample_rate, 1_582);
        } else if sample_rate <= 2_499 {
            samples_are_monotone(BIT_SPLIT_US, BIT_SPLIT_US, sample_rate, 2_499);
            samples_are_monotone(LONG_OFF_US, LONG_OFF_US, 1_583, sample_rate);
        } else {
            lemma_seconds();
            single_precision_error(2_500);
            single_precision_is_monotone(2_500, sample_rate as nat);
            let rate = single_precision(sample_rate as nat);
            assert((0xFF_FFFF * 13_897_827_328 - 0x100_0001 * 8_796_093_440) * rate >= 0x100_0000
                * 0x800_0000_0000) by (nonlinear_arith)
                requires
                    rate >= 2_500,
            ;
            lemma_separated(
                LONG_OFF_US,
                BIT_SPLIT_US,
                13_897_827_328,
                8_796_093_440,
                sample_rate,
            );
        }
    }
}

/// Where a burst has samples, so has every other run of a packet, a preamble is
/// recognised, and the silence of a 0 bit stays within the bound.
pub(crate) proof fn lemma_runs_have_samples(sample_rate: u32)
    requires
        samples_in(DATA_ON_US, sample_rate) > 0,
    ensures
        samples_in(PREAMBLE_ON_US, sample_rate) > samples_in(PREAMBLE_MIN_US, sample_rate),
        samples_in(SYNC_OFF_US, sample_rate) > 0,
        samples_in(STOP_ON_US, sample_rate) > 0,
        0 < samples_in(SHORT_OFF_US, sample_rate) <= samples_in(BIT_SPLIT_US, sample_rate),
        samples_in(LONG_OFF_US, sample_rate) > 0,
        samples_in(INTER_PACKET_GAP_US, sample_rate) > 0,
{
    lemma_turning_points();
    if sample_rate <= 1_024 {
        samples_are_monotone(DATA_ON_US, DATA_ON_US, sample_rate, 1_024);
    }
    lemma_seconds();
    single_precision_error(1_025);
    single_precision_is_monotone(1_025, sample_rate as nat);
    let rate = single_precision(sample_rate as nat);
    assert((0xFF_FFFF * 73_183_494_144 - 0x100_0001 * 35_184_373_760) * rate >= 0x100_0000
        * 0x800_0000_0000) by (nonlinear_arith)
        requires
            rate >= 1_025,
    ;
    lemma_separated(PREAMBLE_ON_US, PREAMBLE_MIN_US, 73_183_494_144, 35_184_373_760, sample_rate);
    samples_are_monotone(DATA_ON_US, SYNC_OFF_US, sample_rate, sample_rate);
    samples_are_monotone(DATA_ON_US, SHORT_OFF_US, sample_rate, sample_rate);
    samples_are_monotone(DATA_ON_US, LONG_OFF_US, sample_rate, sample_rate);
    samples_are_monotone(DATA_ON_US, INTER_PACKET_GAP_US, sample_rate, sample_rate);
    samples_are_monotone(SHORT_OFF_US, BIT_SPLIT_US, sample_rate, sample_rate);
}

/// At a resolvable rate every run of a packet has samples, a preamble is
/// recognised, and the two silences fall on different sides of the bound.
pub proof fn resolvable_separates(sample_rate: u32)
    requires
        resolvable(sample_rate),
    ensures
        samples_in(PREAMBLE_ON_US, sample_rate) > samples_in(PREAMBLE_MIN_US, sample_rate),
        samples_in(SYNC_OFF_US, sample_rate) > 0,
        samples_in(STOP_ON_US, sample_rate) > 0,
        0 < samples_in(SHORT_OFF_US, sample_rate) <= samples_in(BIT_SPLIT_US, sample_rate)
            < samples_in(LONG_OFF_US, sample_rate),
        samples_in(INTER_PACKET_GAP_US, sample_rate) > 0,
{
    lemma_runs_have_samples(sample_rate);
}

/// The number of samples of a duration is the duration in seconds times the sample rate,
/// rounded to the nearest integer. It is off by half a sample at most, and by what single
/// precision adds: one part in 2^20 at most. Where that does not fit in a machine integer,
/// it is the largest that there is.
pub proof fn samples_are_nearest(us: u32, sample_rate: u32)
    ensures
        0x10_0000 * (1_000_000 * samples_in(us, sample_rate)) <= 0x10_0001 * (us * sample_rate)
            + 0x10_0000 * 500_000,
        samples_in(us, sample_rate) < usize::MAX ==> 0xF_FFFF * (us * sample_rate) - 0x10_0000
            * 500_000 <= 0x10_0000 * (1_000_000 * samples_in(us, sample_rate)),
{
    reveal(ideal_samples);
    let exact = us * sample_rate;
    let duration = single_precision(us as nat);
    let rate = single_precision(sample_rate as nat);
    let seconds = single_precision(duration * MICRO as nat);
    let product = seconds * rate;
    let samples = single_precision(product);
    single_precision_error(us as nat);
    single_precision_error(sample_rate as nat);
    single_precision_error(duration * MICRO as nat);
    single_precision_error(product);
    assert(duration * MICRO == 8_796_093 * duration);
    assert(0x3F_FFFF * (8_796_093 * us) <= 0x40_0000 * seconds <= 0x40_0001 * (8_796_093 * us));
    let low = 0x3F_FFFF * (8_796_093 * us);
    let high = 0x40_0001 * (8_796_093 * us);
    assert(low * (0xFF_FFFF * sample_rate) <= (0x40_0000 * seconds) * (0x100_0000 * rate) <= high
        * (0x100_0001 * sample_rate)) by (nonlinear_arith)
        requires
            0 <= low <= 0x40_0000 * seconds <= high,
            0 <= 0xFF_FFFF * sample_rate <= 0x100_0000 * rate <= 0x100_0001 * sample_rate,
    ;
    assert((0x40_0000 * seconds) * (0x100_0000 * rate) == 0x4000_0000_0000 * product)
        by (nonlinear_arith)
        requires
            product == seconds * rate,
    ;
    assert(low * (0xFF_FFFF * sample_rate) == 0x3F_FFFF * 8_796_093 * 0xFF_FFFF * exact)
        by (nonlinear_arith)
        requires
            low == 0x3F_FFFF * (8_796_093 * us),
            exact == us * sample_rate,
    ;
    assert(high * (0x100_0001 * sample_rate) == 0x40_0001 * 8_796_093 * 0x100_0001 * exact)
        by (nonlinear_arith)
        requires
            high == 0x40_0001 * (8_796_093 * us),
            exact == us * sample_rate,
    ;
    assert(0 <= exact) by (nonlinear_arith)
        requires
            exact == us * sample_rate,
            us >= 0,
            sample_rate >= 0,
    ;
    assert(618969833612509591485 * exact <= 0x4000_0000_0000 * product <= 618970202547390134205 * exact);
    let n = ideal_samples(us as nat, sample_rate as nat) as int;
    assert(samples_in(us, sample_rate) <= n);
    assert(n == (samples + 0x400_0000_0000) / 0x800_0000_0000);
    assert(samples - 0x400_0000_0000 <= 0x800_0000_0000 * n <= samples + 0x400_0000_0000);
    assert(0xFF_FFFB * (8_796_093 * exact) <= 0x100_0000 * product <= 0x100_0006 * (8_796_093
        * exact));
    assert(0xFF_FFFA * (8_796_093 * exact) <= 0x100_0000 * samples <= 0x100_0008 * (8_796_093
        * exact));
    assert(0x10_0000 * (1_000_000 * n) <= 0x10_0001 * exact + 0x10_0000 * 500_000);
    assert(0xF_FFFF * exact - 0x10_0000 * 500_000 <= 0x10_0000 * (1_000_000 * n));
}

/// No multiple of the unit is nearer than the one that a number is rounded to.
proof fn lemma_nearest_multiple(x: nat, unit: nat, q: nat)
    requires
        unit >= 1,
    ensures
        ({
            let chosen = round_to_even_multiple(x, unit) - x;
            let other = q * unit - x;
            &&& chosen <= other || chosen <= -other
            &&& -chosen <= other || -chosen <= -other
        }),
{
    vstd::arithmetic::div_mod::lemma_fundamental_div_mod(x as int, unit as int);
    let below = x / unit;
    let rest = x % unit;
    assert(unit * below == below * unit) by (nonlinear_arith);
    assert((below + 1) * unit == below * unit + unit) by (nonlinear_arith);
    if q <= below {
        assert(q * unit <= below * unit) by (nonlinear_arith)
            requires
                q <= below,
        ;
    } else {
        assert((below + 1) * unit <= q * unit) by (nonlinear_arith)
            requires
                below + 1 <= q,
        ;
    }
}

/// Rounding to single precision gives a number with a significand of 24 bits, and none
/// of those is nearer: neither `significand` times a power of two, nor any other. Of two
/// that are equally near, it is the one with an even significand.
pub proof fn single_precision_is_nearest(x: nat, significand: nat, exponent: nat)
    requires
        significand < 0x100_0000,
    ensures
        ({
            let unit = pow2(excess_bits(x));
            let chosen = single_precision(x) - x;
            let other = significand * pow2(exponent) - x;
            &&& chosen <= other || chosen <= -other
            &&& -chosen <= other || -chosen <= -other
            &&& exists|m: nat|
                {
                    &&& m <= 0x100_0000
                    &&& single_precision(x) == #[trigger] (m * unit)
                    &&& 2 * chosen == unit || -2 * chosen == unit ==> m % 2 == 0
                }
        }),
{
    let e = excess_bits(x);
    let unit = pow2(e);
    let y = significand * pow2(exponent);
    lemma_excess_range(x);
    vstd::arithmetic::power2::lemma_pow2_pos(exponent);
    if exponent >= e {
        let more = (exponent - e) as nat;
        vstd::arithmetic::power2::lemma_pow2_adds(more, e);
        let q = significand * pow2(more);
        assert(y == q * unit) by (nonlinear_arith)
            requires
                y == significand * pow2(exponent),
                pow2(exponent) == pow2(more) * unit,
                q == significand * pow2(more),
        ;
        lemma_nearest_multiple(x, unit, q);
    } else {
        lemma_nearest_multiple(x, unit, 0x80_0000);
        vstd::arithmetic::power2::lemma_pow2_unfold(e);
        let half = pow2((e - 1) as nat);
        if exponent < e - 1 {
            vstd::arithmetic::power2::lemma_pow2_strictly_increases(exponent, (e - 1) as nat);
        }
        assert(y <= 0x100_0000 * half) by (nonlinear_arith)
            requires
                y == significand * pow2(exponent),
                significand < 0x100_0000,
                pow2(exponent) <= half,
        ;
    }
    let below = x / unit;
    assert(below < 0x100_0000) by {
        vstd::arithmetic::div_mod::lemma_multiply_divide_lt(
            x as int,
            unit as int,
            0x100_0000,
        );
    }
    let m = if single_precision(x) == below * unit {
        below
    } else {
        below + 1
    };
    assert(single_precision(x) == m * unit);
    vstd::arithmetic::div_mod::lemma_fundamental_div_mod(x as int, unit as int);
    assert(unit * below == below * unit) by (nonlinear_arith);
    assert((below + 1) * unit == below * unit + unit) by (nonlinear_arith);
}

/// A sample count is the integer nearest to what single precision gives, with halves
/// rounded up: the duration times one millionth, rounded, times the sample rate, rounded.
/// One millionth is 8796093 in units of 2^-43.
pub proof fn samples_follow_single_precision(us: u32, sample_rate: u32)
    ensures
        ({
            let seconds = single_precision(single_precision(us as nat) * 8_796_093);
            let samples = single_precision(seconds * single_precision(sample_rate as nat));
            let n = samples_in(us, sample_rate);
            &&& 0x800_0000_0000 * n <= samples + 0x400_0000_0000
            &&& n < usize::MAX ==> samples - 0x400_0000_0000 < 0x800_0000_0000 * n
        }),
{
    reveal(ideal_samples);
}

} // verus!
