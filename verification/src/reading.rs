//! What is read from a signal: which runs it consists of, and which of them are
//! packets.

use crate::decode;
use crate::round_trip;
use crate::signal;
use crate::smoothing;
use crate::timing;
use vstd::arithmetic::power2::pow2;
use vstd::prelude::*;

verus! {

/// The length of a waveform is the sum of its runs.
proof fn lemma_waveform_sum(runs: Seq<usize>)
    ensures
        signal::waveform(runs).len() == runs.fold_left(0int, |sum: int, run: usize| sum + run),
    decreases runs.len(),
{
    if runs.len() > 0 {
        lemma_waveform_sum(runs.drop_last());
    }
}

/// The run lengths of a signal tell every sample of it: their sum is the length of the
/// signal from its first burst on, before which there is silence, and sample for sample
/// the runs are carrier and silence in turn, none of them empty.
pub proof fn run_lengths_tell_levels(levels: Seq<bool>, runs: Seq<usize>, k: int, i: int)
    requires
        decode::are_run_lengths(levels, runs),
    ensures
        ({
            let total = runs.fold_left(0int, |sum: int, run: usize| sum + run);
            let lead = levels.len() - total;
            let start = lead + runs.take(k).fold_left(0int, |sum: int, run: usize| sum + run);
            &&& 0 <= lead
            &&& 0 <= i < lead ==> !levels[i]
            &&& 0 <= k < runs.len() ==> runs[k] > 0
            &&& 0 <= k < runs.len() && start <= i < start + runs[k] ==> levels[i] == (k % 2 == 0)
        }),
{
    lemma_waveform_sum(runs);
    let sounding = signal::waveform(runs);
    let lead = levels.len() - sounding.len();
    if 0 <= i < lead {
        assert(!signal::steady(false, lead as nat)[i]);
    }
    if 0 <= k < runs.len() {
        lemma_waveform_sum(runs.take(k));
        signal::lemma_waveform_step(runs, k);
        let start = lead + signal::waveform(runs.take(k)).len();
        if start <= i < start + runs[k] {
            smoothing::lemma_waveform_at(runs, k, i - lead);
            assert(levels[i] == sounding[i - lead]);
        }
    }
}

/// Decoding goes past runs that begin no packet.
proof fn lemma_pass_over(
    runs: Seq<usize>,
    from: int,
    to: int,
    preamble_min: usize,
    bit_split: usize,
)
    requires
        0 <= from <= to <= runs.len(),
        forall|i: int| from <= i < to && i % 2 == 0 ==> #[trigger] runs[i] <= preamble_min,
    ensures
        decode::packets_from(runs, from, preamble_min, bit_split) == decode::packets_from(
            runs,
            to,
            preamble_min,
            bit_split,
        ),
    decreases to - from,
{
    if from < to {
        assert(!decode::packet_at(runs, from, preamble_min));
        lemma_pass_over(runs, from + 1, to, preamble_min, bit_split);
    }
}

/// Runs that begin no packet are passed over: an even number of runs in front of others,
/// of which no burst is longer than 4000 microseconds, changes nothing.
pub proof fn noise_is_passed_over(head: Seq<usize>, tail: Seq<usize>, sample_rate: u32)
    requires
        head.len() % 2 == 0,
        forall|i: int|
            0 <= i < head.len() && i % 2 == 0 ==> #[trigger] head[i] <= timing::samples_in(
                4_000,
                sample_rate,
            ),
    ensures
        decode::packets_in(head + tail, sample_rate) == decode::packets_in(tail, sample_rate),
{
    let preamble_min = timing::samples_in(timing::PREAMBLE_MIN_US, sample_rate);
    let bit_split = timing::samples_in(timing::BIT_SPLIT_US, sample_rate);
    let runs = head + tail;
    assert forall|i: int| 0 <= i < head.len() && i % 2 == 0 implies #[trigger] runs[i]
        <= preamble_min by {
        assert(runs[i] == head[i]);
    }
    lemma_pass_over(runs, 0, head.len() as int, preamble_min, bit_split);
    round_trip::lemma_packets_behind(head, tail, 0, preamble_min, bit_split);
}

/// There is no packet in fewer than 83 runs.
pub proof fn too_few_runs_hold_no_packet(runs: Seq<usize>, sample_rate: u32)
    requires
        runs.len() < 83,
    ensures
        decode::packets_in(runs, sample_rate) == Seq::<u64>::empty(),
{
    lemma_too_few(
        runs,
        0,
        timing::samples_in(timing::PREAMBLE_MIN_US, sample_rate),
        timing::samples_in(timing::BIT_SPLIT_US, sample_rate),
    );
}

proof fn lemma_too_few(runs: Seq<usize>, from: int, preamble_min: usize, bit_split: usize)
    requires
        0 <= from,
        runs.len() < from + 83,
    ensures
        decode::packets_from(runs, from, preamble_min, bit_split) == Seq::<u64>::empty(),
    decreases runs.len() + 1 - from,
{
    if from < runs.len() {
        lemma_too_few(runs, from + 1, preamble_min, bit_split);
    }
}

/// Bit `k` of the first `n` that are read, the top one first.
proof fn lemma_prefix_bit(runs: Seq<usize>, i: int, n: nat, bit_split: usize, k: nat)
    requires
        k < n,
    ensures
        decode::packet_prefix(runs, i, n, bit_split) / pow2((n - 1 - k) as nat) % 2 == 1 <==> runs[i
            + 3 + 2 * k] > bit_split,
    decreases n,
{
    let fewer = decode::packet_prefix(runs, i, (n - 1) as nat, bit_split);
    let all = decode::packet_prefix(runs, i, n, bit_split);
    let bit = if runs[i + 1 + 2 * n] > bit_split {
        1nat
    } else {
        0nat
    };
    assert(all == 2 * fewer + bit);
    if k == n - 1 {
        vstd::arithmetic::power2::lemma2_to64();
        assert(all / 1 == all);
        assert(i + 3 + 2 * k == i + 1 + 2 * n);
    } else {
        let rest = (n - 2 - k) as nat;
        lemma_prefix_bit(runs, i, (n - 1) as nat, bit_split, k);
        vstd::arithmetic::power2::lemma_pow2_pos(rest);
        vstd::arithmetic::power2::lemma_pow2_unfold(rest + 1);
        vstd::arithmetic::div_mod::lemma_div_denominator(all as int, 2, pow2(rest) as int);
        assert(all / 2 == fewer);
        assert((n - 1 - k) as nat == rest + 1);
    }
}

/// 83 runs whose first is longer than 4000 microseconds are one packet of 40 bits. Its
/// bit `k`, the top one first, is 1 exactly when the silence behind burst `k` is longer
/// than 1000 microseconds.
pub proof fn packet_is_read(runs: Seq<usize>, sample_rate: u32, k: nat)
    requires
        runs.len() == 83,
        runs[0] > timing::samples_in(4_000, sample_rate),
        k < 40,
    ensures
        decode::packets_in(runs, sample_rate).len() == 1,
        decode::packets_in(runs, sample_rate)[0] < 0x100_0000_0000,
        decode::packets_in(runs, sample_rate)[0] as nat / pow2((39 - k) as nat) % 2 == 1 <==> runs[3
            + 2 * k as int] > timing::samples_in(1_000, sample_rate),
{
    let preamble_min = timing::samples_in(timing::PREAMBLE_MIN_US, sample_rate);
    let bit_split = timing::samples_in(timing::BIT_SPLIT_US, sample_rate);
    let bits = decode::packet_prefix(runs, 0, 40, bit_split);
    assert(decode::packets_from(runs, 84, preamble_min, bit_split) =~= Seq::empty());
    assert(decode::packets_in(runs, sample_rate) =~= seq![bits as u64]);
    round_trip::decoded_packets_fit(runs, sample_rate, 0);
    round_trip::lemma_prefix_fits(runs, 0, 40, bit_split);
    vstd::arithmetic::power2::lemma2_to64_rest();
    lemma_prefix_bit(runs, 0, 40, bit_split, k);
}

/// A packet is found wherever it stands behind runs that begin none, and whatever
/// follows it is decoded on its own.
pub proof fn packet_is_found(
    head: Seq<usize>,
    packet: Seq<usize>,
    gap: usize,
    rest: Seq<usize>,
    sample_rate: u32,
)
    requires
        head.len() % 2 == 0,
        forall|i: int|
            0 <= i < head.len() && i % 2 == 0 ==> #[trigger] head[i] <= timing::samples_in(
                4_000,
                sample_rate,
            ),
        packet.len() == 83,
        packet[0] > timing::samples_in(4_000, sample_rate),
    ensures
        decode::packets_in(head + (packet + seq![gap] + rest), sample_rate) == decode::packets_in(
            packet,
            sample_rate,
        ) + decode::packets_in(rest, sample_rate),
{
    noise_is_passed_over(head, packet + seq![gap] + rest, sample_rate);
    round_trip::packets_decode_one_by_one(packet, gap, rest, sample_rate);
}

} // verus!
