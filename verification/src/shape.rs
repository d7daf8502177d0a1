//! The signal, sample by sample: where each burst and each silence begins, and how
//! long it lasts.

use crate::signal;
use crate::smoothing;
use crate::timing;
use vstd::arithmetic::power2::pow2;
use vstd::prelude::*;

verus! {

/// The samples before data bit `k`: preamble, sync, and for each bit before it a burst
/// and the silence that tells the bit.
proof fn lemma_bit_start(packet_bits: u64, sample_rate: u32, k: nat)
    requires
        k <= 40,
    ensures
        ({
            let ones = Seq::new(
                k,
                |j: int| packet_bits as nat / pow2((39 - j) as nat) % 2 == 1,
            ).filter(|bit: bool| bit).len();
            let runs = signal::packet_runs(packet_bits, sample_rate);
            &&& ones <= k
            &&& signal::waveform(runs.take(2 + 2 * k as int)).len() == timing::samples_in(
                8_320,
                sample_rate,
            ) + timing::samples_in(4_200, sample_rate) + k * timing::samples_in(488, sample_rate)
                + ones * timing::samples_in(1_580, sample_rate) + (k - ones) * timing::samples_in(
                540,
                sample_rate,
            )
        }),
    decreases k,
{
    let runs = signal::packet_runs(packet_bits, sample_rate);
    let bits = Seq::new(k, |j: int| packet_bits as nat / pow2((39 - j) as nat) % 2 == 1);
    let ones = bits.filter(|bit: bool| bit).len();
    reveal(Seq::filter);
    if k == 0 {
        assert(runs.take(0) =~= Seq::empty());
        signal::lemma_waveform_step(runs, 0);
        signal::lemma_waveform_step(runs, 1);
    } else {
        let n = (k - 1) as nat;
        lemma_bit_start(packet_bits, sample_rate, n);
        let before = Seq::new(n, |j: int| packet_bits as nat / pow2((39 - j) as nat) % 2 == 1);
        assert(bits.drop_last() =~= before);
        let fewer = before.filter(|bit: bool| bit).len();
        signal::lemma_waveform_step(runs, 2 + 2 * n as int);
        signal::lemma_waveform_step(runs, 3 + 2 * n as int);
        assert(((3 + 2 * n) - 3) / 2 == n as int);
        assert(signal::transmitted_bit(packet_bits, n as int) == bits.last());
        let on = timing::samples_in(488, sample_rate) as int;
        let long = timing::samples_in(1_580, sample_rate) as int;
        let short = timing::samples_in(540, sample_rate) as int;
        assert(k * on == n * on + on) by (nonlinear_arith)
            requires
                k == n + 1,
        ;
        if bits.last() {
            assert(ones == fewer + 1);
            assert(ones * long == fewer * long + long) by (nonlinear_arith)
                requires
                    ones == fewer + 1,
            ;
        } else {
            assert(ones == fewer);
            assert((k - ones) * short == (n - fewer) * short + short) by (nonlinear_arith)
                requires
                    ones == fewer,
                    k == n + 1,
            ;
        }
    }
}

/// A packet opens with the preamble, 8320 microseconds of carrier, and the sync, 4200
/// microseconds of silence.
pub proof fn packet_opens(packet_bits: u64, sample_rate: u32, i: int)
    ensures
        ({
            let samples = signal::packet_signal(packet_bits, sample_rate);
            let on = timing::samples_in(8_320, sample_rate);
            let off = timing::samples_in(4_200, sample_rate);
            &&& on + off <= samples.len()
            &&& 0 <= i < on ==> samples[i]
            &&& on <= i < on + off ==> !samples[i]
        }),
{
    let runs = signal::packet_runs(packet_bits, sample_rate);
    assert(runs.take(0) =~= Seq::empty());
    signal::lemma_waveform_step(runs, 0);
    signal::lemma_waveform_step(runs, 1);
    let on = timing::samples_in(8_320, sample_rate);
    let off = timing::samples_in(4_200, sample_rate);
    if 0 <= i < on {
        smoothing::lemma_waveform_at(runs, 0, i);
    } else if on <= i < on + off {
        smoothing::lemma_waveform_at(runs, 1, i);
    }
}

/// Data bit `k`, the top one first, is a burst of 488 microseconds and a silence of
/// 1580 microseconds if it is 1, of 540 microseconds if it is 0. It begins behind the
/// preamble, the sync, and the bits before it, of which each 1 takes a long silence
/// and each 0 a short one.
pub proof fn data_bit_is_sent(packet_bits: u64, sample_rate: u32, k: nat, i: int)
    requires
        k < 40,
    ensures
        ({
            let samples = signal::packet_signal(packet_bits, sample_rate);
            let ones = Seq::new(
                k,
                |j: int| packet_bits as nat / pow2((39 - j) as nat) % 2 == 1,
            ).filter(|bit: bool| bit).len();
            let start = timing::samples_in(8_320, sample_rate) + timing::samples_in(
                4_200,
                sample_rate,
            ) + k * timing::samples_in(488, sample_rate) + ones * timing::samples_in(
                1_580,
                sample_rate,
            ) + (k - ones) * timing::samples_in(540, sample_rate);
            let on = timing::samples_in(488, sample_rate);
            let off = if packet_bits as nat / pow2((39 - k) as nat) % 2 == 1 {
                timing::samples_in(1_580, sample_rate)
            } else {
                timing::samples_in(540, sample_rate)
            };
            &&& ones <= k
            &&& 0 <= start && start + on + off <= samples.len()
            &&& start <= i < start + on ==> samples[i]
            &&& start + on <= i < start + on + off ==> !samples[i]
        }),
{
    let runs = signal::packet_runs(packet_bits, sample_rate);
    lemma_bit_start(packet_bits, sample_rate, k);
    signal::lemma_waveform_step(runs, 2 + 2 * k as int);
    signal::lemma_waveform_step(runs, 3 + 2 * k as int);
    assert(((3 + 2 * k) - 3) / 2 == k as int);
    let start = signal::waveform(runs.take(2 + 2 * k as int)).len();
    let on = runs[2 + 2 * k as int];
    let off = runs[3 + 2 * k as int];
    if start <= i < start + on {
        smoothing::lemma_waveform_at(runs, 2 + 2 * k as int, i);
    } else if start + on <= i < start + on + off {
        smoothing::lemma_waveform_at(runs, 3 + 2 * k as int, i);
    }
}

/// A packet closes with a burst of 488 microseconds, and its length depends on the
/// number of its 1 bits alone.
pub proof fn packet_closes(packet_bits: u64, sample_rate: u32, i: int)
    ensures
        ({
            let samples = signal::packet_signal(packet_bits, sample_rate);
            let ones = Seq::new(
                40,
                |j: int| packet_bits as nat / pow2((39 - j) as nat) % 2 == 1,
            ).filter(|bit: bool| bit).len();
            let stop = timing::samples_in(488, sample_rate);
            &&& ones <= 40
            &&& samples.len() == timing::samples_in(8_320, sample_rate) + timing::samples_in(
                4_200,
                sample_rate,
            ) + 40 * timing::samples_in(488, sample_rate) + ones * timing::samples_in(
                1_580,
                sample_rate,
            ) + (40 - ones) * timing::samples_in(540, sample_rate) + stop
            &&& samples.len() - stop <= i < samples.len() ==> samples[i]
        }),
{
    let runs = signal::packet_runs(packet_bits, sample_rate);
    lemma_bit_start(packet_bits, sample_rate, 40);
    signal::lemma_waveform_step(runs, 82);
    assert(runs.take(83) =~= runs);
    let samples = signal::packet_signal(packet_bits, sample_rate);
    let stop = timing::samples_in(488, sample_rate);
    if samples.len() - stop <= i < samples.len() {
        smoothing::lemma_waveform_at(runs, 82, i);
    }
}

/// Repetition `j` of a press is its packet, sample by sample, with 10700 microseconds
/// of silence between each two repetitions and none behind the last.
pub proof fn press_repeats_its_packet(
    cmd: u8,
    counter: u8,
    repeats: nat,
    sample_rate: u32,
    j: nat,
    i: int,
)
    ensures
        ({
            let samples = signal::press_signal(cmd, counter, repeats, sample_rate);
            let one = signal::packet_signal(
                crate::packet::packet_word(cmd, counter),
                sample_rate,
            );
            let gap = timing::samples_in(10_700, sample_rate);
            let start = j * (one.len() + gap);
            &&& samples.len() == if repeats == 0 {
                0
            } else {
                repeats * (one.len() + gap) - gap
            }
            &&& j < repeats ==> start + one.len() <= samples.len()
            &&& j < repeats && 0 <= i < one.len() ==> samples[start + i] == one[i]
            &&& j + 1 < repeats ==> start + one.len() + gap <= samples.len()
            &&& j + 1 < repeats && one.len() <= i < one.len() + gap ==> !samples[start + i]
        }),
    decreases repeats,
{
    let bits = crate::packet::packet_word(cmd, counter);
    let runs = signal::packet_runs(bits, sample_rate);
    let one = signal::packet_signal(bits, sample_rate);
    let gap = timing::samples_in(10_700, sample_rate);
    let step = one.len() + gap;
    let samples = signal::press_signal(cmd, counter, repeats, sample_rate);
    if repeats == 1 {
        assert(repeats * step - gap == one.len()) by (nonlinear_arith)
            requires
                repeats == 1,
                step == one.len() + gap,
        ;
        if j == 0 {
            assert(j * step == 0) by (nonlinear_arith)
                requires
                    j == 0,
            ;
        }
    } else if repeats > 1 {
        let fewer = (repeats - 1) as nat;
        let before = signal::press_runs(bits, fewer, sample_rate);
        let earlier = signal::press_signal(cmd, counter, fewer, sample_rate);
        press_repeats_its_packet(cmd, counter, fewer, sample_rate, j, i);
        signal::lemma_press_runs_len(bits, fewer, sample_rate);
        assert(before.push(gap).drop_last() =~= before);
        signal::lemma_waveform_concat(before.push(gap), runs);
        assert(samples == earlier + signal::steady(false, gap as nat) + one);
        assert(repeats * step == fewer * step + step) by (nonlinear_arith)
            requires
                repeats == fewer + 1,
        ;
        if j + 1 < fewer {
        } else if j + 1 == fewer {
            assert(j * step + step == fewer * step) by (nonlinear_arith)
                requires
                    j + 1 == fewer,
            ;
            assert(j * step + one.len() == earlier.len());
            if one.len() <= i < one.len() + gap {
                assert(!signal::steady(false, gap as nat)[i - one.len()]);
            }
        } else if j == fewer {
            assert(j * step == earlier.len() + gap);
        }
    }
}

} // verus!
