//! Sample rates at which a press cannot be read back.
//!
//! Where a burst has no samples, the silences around it run together; where the
//! two silences come out equally long, every bit is read as 0.

use crate::decode;
use crate::packet;
use crate::round_trip;
use crate::signal;
use crate::timing;
use crate::transmit;
use vstd::arithmetic::power2::pow2;
use vstd::prelude::*;

verus! {

/// How often the carrier goes on.
spec fn rises(levels: Seq<bool>) -> nat
    decreases levels.len(),
{
    if levels.len() == 0 {
        0
    } else {
        let before = levels.drop_last();
        rises(before) + if levels.last() && (before.len() == 0 || !before.last()) {
            1nat
        } else {
            0nat
        }
    }
}

proof fn lemma_rises_concat(a: Seq<bool>, b: Seq<bool>)
    ensures
        rises(a + b) <= rises(a) + rises(b),
    decreases b.len(),
{
    if b.len() == 0 {
        assert(a + b =~= a);
    } else {
        let fewer = b.drop_last();
        lemma_rises_concat(a, fewer);
        assert((a + b).drop_last() =~= a + fewer);
        if fewer.len() > 0 {
            assert((a + fewer).last() == fewer.last());
        }
    }
}

proof fn lemma_rises_steady(level: bool, count: nat)
    ensures
        rises(signal::steady(level, count)) == if level && count > 0 {
            1nat
        } else {
            0nat
        },
    decreases count,
{
    if count > 0 {
        lemma_rises_steady(level, (count - 1) as nat);
        assert(signal::steady(level, count).drop_last() =~= signal::steady(
            level,
            (count - 1) as nat,
        ));
    }
}

/// One more run that is not empty.
proof fn lemma_rises_run(a: Seq<bool>, level: bool, count: nat)
    requires
        count > 0,
    ensures
        rises(a + signal::steady(level, count)) == rises(a) + if level && (a.len() == 0
            || !a.last()) {
            1nat
        } else {
            0nat
        },
    decreases count,
{
    let run = signal::steady(level, count);
    let fewer = signal::steady(level, (count - 1) as nat);
    assert((a + run).drop_last() =~= a + fewer);
    assert((a + run).last() == level);
    if count == 1 {
        assert(a + fewer =~= a);
    } else {
        lemma_rises_run(a, level, (count - 1) as nat);
        assert((a + fewer).last() == level);
    }
}

/// Without empty runs, the carrier goes on with every other run.
proof fn lemma_rises_of_runs(runs: Seq<usize>)
    requires
        forall|i: int| 0 <= i < runs.len() ==> #[trigger] runs[i] > 0,
    ensures
        rises(signal::waveform(runs)) == (runs.len() + 1) / 2,
        runs.len() > 0 ==> signal::waveform(runs).len() > 0 && signal::waveform(runs).last() == (
        runs.len() % 2 == 1),
    decreases runs.len(),
{
    if runs.len() > 0 {
        let before = runs.drop_last();
        assert forall|i: int| 0 <= i < before.len() implies #[trigger] before[i] > 0 by {
            assert(runs[i] > 0);
        }
        assert(runs[runs.len() - 1] > 0);
        lemma_rises_of_runs(before);
        lemma_rises_run(
            signal::waveform(before),
            runs.len() % 2 == 1,
            runs.last() as nat,
        );
    }
}

/// Silence before a signal does not matter.
proof fn lemma_rises_behind_silence(count: nat, levels: Seq<bool>)
    ensures
        rises(signal::steady(false, count) + levels) == rises(levels),
    decreases levels.len(),
{
    let silence = signal::steady(false, count);
    if levels.len() == 0 {
        assert(silence + levels =~= silence);
        lemma_rises_steady(false, count);
    } else {
        let before = levels.drop_last();
        lemma_rises_behind_silence(count, before);
        assert((silence + levels).drop_last() =~= silence + before);
        if before.len() > 0 {
            assert((silence + before).last() == before.last());
        } else {
            assert(silence + before =~= silence);
        }
    }
}

/// A decoded packet takes up 84 runs, or 83 at the end.
proof fn lemma_packets_take_runs(
    runs: Seq<usize>,
    from: int,
    preamble_min: usize,
    bit_split: usize,
)
    requires
        0 <= from <= runs.len() + 1,
    ensures
        84 * decode::packets_from(runs, from, preamble_min, bit_split).len() <= runs.len() + 1
            - from,
    decreases runs.len() + 1 - from,
{
    if from < runs.len() {
        if decode::packet_at(runs, from, preamble_min) {
            lemma_packets_take_runs(runs, from + 84, preamble_min, bit_split);
        } else {
            lemma_packets_take_runs(runs, from + 1, preamble_min, bit_split);
        }
    }
}

/// Where the bursts of the data bits have no samples, the carrier goes on once
/// in a packet at most.
proof fn lemma_rises_of_packet(packet_bits: u64, sample_rate: u32, n: int)
    requires
        0 <= n <= 83,
        timing::samples_in(timing::DATA_ON_US, sample_rate) == 0,
    ensures
        rises(signal::waveform(signal::packet_runs(packet_bits, sample_rate).take(n))) <= 1,
        n == 0 ==> rises(signal::waveform(signal::packet_runs(packet_bits, sample_rate).take(n)))
            == 0,
    decreases n,
{
    let runs = signal::packet_runs(packet_bits, sample_rate);
    if n > 0 {
        lemma_rises_of_packet(packet_bits, sample_rate, n - 1);
        let before = runs.take(n - 1);
        assert(runs.take(n).drop_last() =~= before);
        assert(runs.take(n).last() == runs[n - 1]);
        lemma_rises_concat(
            signal::waveform(before),
            signal::steady(n % 2 == 1, runs[n - 1] as nat),
        );
        lemma_rises_steady(n % 2 == 1, runs[n - 1] as nat);
    }
}

/// Where the bursts of the data bits have no samples, the carrier goes on once
/// for each packet at most.
proof fn lemma_rises_of_press(packet_bits: u64, repeats: nat, sample_rate: u32)
    requires
        timing::samples_in(timing::DATA_ON_US, sample_rate) == 0,
    ensures
        rises(signal::waveform(signal::press_runs(packet_bits, repeats, sample_rate))) <= repeats,
    decreases repeats,
{
    let one = signal::packet_runs(packet_bits, sample_rate);
    lemma_rises_of_packet(packet_bits, sample_rate, 83);
    assert(one.take(83) =~= one);
    if repeats > 1 {
        let fewer = (repeats - 1) as nat;
        let before = signal::press_runs(packet_bits, fewer, sample_rate);
        let gap = timing::samples_in(timing::INTER_PACKET_GAP_US, sample_rate);
        lemma_rises_of_press(packet_bits, fewer, sample_rate);
        signal::lemma_press_runs_len(packet_bits, fewer, sample_rate);
        assert(before.push(gap).drop_last() =~= before);
        lemma_rises_concat(signal::waveform(before), signal::steady(false, gap as nat));
        lemma_rises_steady(false, gap as nat);
        signal::lemma_waveform_concat(before.push(gap), one);
        lemma_rises_concat(signal::waveform(before.push(gap)), signal::waveform(one));
    }
}

/// A packet whose first silence is not a long one begins with a 0.
proof fn lemma_first_bit_lost(runs: Seq<usize>, i: int, n: nat, bit_split: usize)
    requires
        n >= 1,
        runs[i + 3] <= bit_split,
    ensures
        decode::packet_prefix(runs, i, n, bit_split) < pow2((n - 1) as nat),
    decreases n,
{
    if n == 1 {
        assert(decode::packet_prefix(runs, i, 0, bit_split) == 0);
        vstd::arithmetic::power2::lemma2_to64();
    } else {
        lemma_first_bit_lost(runs, i, (n - 1) as nat, bit_split);
        vstd::arithmetic::power2::lemma_pow2_unfold((n - 1) as nat);
    }
}

/// At a rate that is not resolvable, a press does not decode to its packets.
pub proof fn press_is_lost(
    cmd: u8,
    counter: u8,
    repeats: nat,
    sample_rate: u32,
    lead: nat,
    trail: usize,
    runs: Seq<usize>,
)
    requires
        repeats > 0,
        !timing::resolvable(sample_rate),
        decode::are_run_lengths(
            transmit::padded_signal(cmd, counter, repeats, sample_rate, lead, trail as nat),
            runs,
        ),
    ensures
        decode::packets_in(runs, sample_rate) != Seq::new(
            repeats,
            |i: int| packet::packet_word(cmd, counter),
        ),
{
    let bits = packet::packet_word(cmd, counter);
    let preamble_min = timing::samples_in(timing::PREAMBLE_MIN_US, sample_rate);
    let bit_split = timing::samples_in(timing::BIT_SPLIT_US, sample_rate);
    let sent = signal::press_runs(bits, repeats, sample_rate);
    if timing::samples_in(timing::DATA_ON_US, sample_rate) == 0 {
        let levels = transmit::padded_signal(
            cmd,
            counter,
            repeats,
            sample_rate,
            lead,
            trail as nat,
        );
        let silence = signal::steady(false, lead);
        let after = signal::steady(false, trail as nat);
        lemma_rises_of_press(bits, repeats, sample_rate);
        lemma_rises_steady(false, lead);
        lemma_rises_steady(false, trail as nat);
        lemma_rises_concat(silence, signal::waveform(sent));
        lemma_rises_concat(silence + signal::waveform(sent), after);
        assert(rises(levels) <= repeats);
        let sounding = signal::waveform(runs);
        let quiet = (levels.len() - sounding.len()) as nat;
        lemma_rises_of_runs(runs);
        lemma_rises_behind_silence(quiet, sounding);
        lemma_packets_take_runs(runs, 0, preamble_min, bit_split);
    } else {
        assert(packet::packet_word(cmd, counter) >= 0x80_0000_0000);
        vstd::arithmetic::power2::lemma2_to64_rest();
        round_trip::lemma_runs_of_press(
            cmd,
            counter,
            repeats,
            sample_rate,
            lead,
            trail,
            runs,
        );
        timing::lemma_runs_have_samples(sample_rate);
        signal::lemma_press_runs_len(bits, repeats, sample_rate);
        round_trip::lemma_packets_of_press(bits, repeats, sample_rate, 0);
        assert(runs[0] == sent.subrange(0, 83)[0]);
        assert(runs[3] == sent.subrange(0, 83)[3]);
        lemma_first_bit_lost(runs, 0, 40, bit_split);
        assert(decode::packets_in(runs, sample_rate)[0] < 0x80_0000_0000);
    }
}

} // verus!
