//! From a sliced signal back to packets.

use crate::signal;
use crate::timing;
use vstd::prelude::*;

verus! {

/// `runs` are the lengths of the runs in `levels`, from its first burst on: no
/// run is empty, and behind some silence `levels` is the waveform of `runs`.
pub open spec fn are_run_lengths(levels: Seq<bool>, runs: Seq<usize>) -> bool {
    let sounding = signal::waveform(runs);
    &&& forall|i: int| 0 <= i < runs.len() ==> #[trigger] runs[i] > 0
    &&& sounding.len() <= levels.len()
    &&& levels == signal::steady(false, (levels.len() - sounding.len()) as nat) + sounding
}

/// A packet may begin at run `i`: a burst longer than `preamble_min`, with
/// enough runs behind it.
pub open spec fn packet_at(runs: Seq<usize>, i: int, preamble_min: usize) -> bool {
    i % 2 == 0 && runs[i] > preamble_min && i + 83 <= runs.len()
}

/// The first `n` bits of the packet that begins at run `i`, as a number.
pub open spec fn packet_prefix(runs: Seq<usize>, i: int, n: nat, bit_split: usize) -> nat
    decreases n,
{
    if n == 0 {
        0
    } else {
        2 * packet_prefix(runs, i, (n - 1) as nat, bit_split) + if runs[i + 1 + 2 * n] > bit_split {
            1nat
        } else {
            0nat
        }
    }
}

/// The packets in `runs`, from run `i` on.
pub open spec fn packets_from(
    runs: Seq<usize>,
    i: int,
    preamble_min: usize,
    bit_split: usize,
) -> Seq<u64>
    decreases runs.len() + 1 - i,
{
    if i >= runs.len() {
        Seq::empty()
    } else if packet_at(runs, i, preamble_min) {
        seq![packet_prefix(runs, i, 40, bit_split) as u64] + packets_from(
            runs,
            i + 84,
            preamble_min,
            bit_split,
        )
    } else {
        packets_from(runs, i + 1, preamble_min, bit_split)
    }
}

/// The packets in `runs`.
pub open spec fn packets_in(runs: Seq<usize>, sample_rate: u32) -> Seq<u64> {
    packets_from(
        runs,
        0,
        timing::samples_in(timing::PREAMBLE_MIN_US, sample_rate),
        timing::samples_in(timing::BIT_SPLIT_US, sample_rate),
    )
}

/// The lengths of the runs of equal samples, from the first burst on: carrier
/// and silence in turn.
pub fn run_lengths(binary: &[bool]) -> (runs: Vec<usize>)
    ensures
        are_run_lengths(binary@, runs@),
{
    let mut runs: Vec<usize> = Vec::new();
    let mut i: usize = 0;
    while i < binary.len() && !binary[i]
        invariant
            i <= binary@.len(),
            forall|j: int| 0 <= j < i ==> !#[trigger] binary@[j],
        decreases binary@.len() - i,
    {
        i += 1;
    }
    let ghost lead = i as nat;
    assert(binary@.take(i as int) =~= signal::steady(false, lead) + signal::waveform(runs@));
    while i < binary.len()
        invariant
            lead <= i <= binary@.len(),
            i < binary@.len() ==> (binary@[i as int] == (runs@.len() % 2 == 0)),
            forall|j: int| 0 <= j < runs@.len() ==> #[trigger] runs@[j] > 0,
            binary@.take(i as int) == signal::steady(false, lead) + signal::waveform(runs@),
        decreases binary@.len() - i,
    {
        let start: usize = i;
        let level: bool = binary[i];
        while i < binary.len() && binary[i] == level
            invariant
                start <= i <= binary@.len(),
                start < binary@.len(),
                level == binary@[start as int],
                forall|j: int| start <= j < i ==> #[trigger] binary@[j] == level,
            decreases binary@.len() - i,
        {
            i += 1;
        }
        assert(i > start);
        let ghost before = runs@;
        runs.push(i - start);
        proof {
            assert(runs@.drop_last() =~= before);
            assert(binary@.take(i as int) =~= binary@.take(start as int) + signal::steady(
                level,
                (i - start) as nat,
            ));
            assert(binary@.take(i as int) =~= signal::steady(false, lead) + signal::waveform(
                runs@,
            ));
        }
    }
    assert(binary@.take(i as int) =~= binary@);
    runs
}

/// Decodes the packets in a run-length sequence that begins with a burst.
pub fn decode_packets(runs: &[usize], sample_rate: u32) -> (packets: Vec<u64>)
    ensures
        packets@ == packets_in(runs@, sample_rate),
{
    let preamble_min: usize = timing::us_to_samples(timing::PREAMBLE_MIN_US, sample_rate);
    let bit_split: usize = timing::us_to_samples(timing::BIT_SPLIT_US, sample_rate);
    let packet_runs: usize = 83;
    let mut packets: Vec<u64> = Vec::new();
    let mut i: usize = 0;
    while i < runs.len()
        invariant
            packet_runs == 83,
            i <= runs@.len() + 1,
            packets@ + packets_from(runs@, i as int, preamble_min, bit_split) == packets_from(
                runs@,
                0,
                preamble_min,
                bit_split,
            ),
        decreases runs@.len() + 1 - i,
    {
        if i % 2 == 0 && runs[i] > preamble_min && packet_runs <= runs.len() - i {
            let bits: u64 = read_packet(runs, i, bit_split);
            let ghost before = packets@;
            packets.push(bits);
            proof {
                let rest = packets_from(runs@, i + 84, preamble_min, bit_split);
                assert(before + (seq![bits] + rest) =~= packets@ + rest);
                if i + 83 == runs@.len() {
                    assert(rest =~= packets_from(runs@, i + 83, preamble_min, bit_split));
                }
            }
            i += packet_runs;
            if i < runs.len() {
                i += 1;
            }
        } else {
            i += 1;
        }
    }
    packets
}

/// Reads the bits of the packet that begins at run `i`.
fn read_packet(runs: &[usize], i: usize, bit_split: usize) -> (bits: u64)
    requires
        i + 83 <= runs@.len(),
    ensures
        bits == packet_prefix(runs@, i as int, 40, bit_split),
{
    let run_count: usize = runs.len();
    let mut bits: u64 = 0;
    let mut k: usize = 0;
    assert(0 < 1u64 << 0u64) by (bit_vector);
    while k < 40
        invariant
            k <= 40,
            i + 83 <= run_count == runs@.len(),
            bits == packet_prefix(runs@, i as int, k as nat, bit_split),
            bits < 1u64 << (k as u64),
        decreases 40 - k,
    {
        let off: usize = runs[i + 3 + 2 * k];
        let b: u64 = if off > bit_split {
            1
        } else {
            0
        };
        proof {
            let n = k as u64;
            let m = (n + 1) as u64;
            assert((bits << 1) | b == 2 * bits + b && (bits << 1) | b < 1u64 << m) by (bit_vector)
                requires
                    n < 40,
                    m == n + 1,
                    bits < 1u64 << n,
                    b <= 1,
            ;
        }
        bits = (bits << 1) | b;
        k += 1;
    }
    bits
}

} // verus!
