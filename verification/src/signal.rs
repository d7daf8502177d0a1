//! From packets to the on/off keyed signal.
//!
//! A sample is the level of the carrier, on or off. The signal of a press is
//! made of runs of equal samples: carrier and silence in turn.

use crate::button::Button;
use crate::packet;
use crate::timing;
use vstd::arithmetic::power2::pow2;
use vstd::prelude::*;

verus! {

/// `count` samples of the same level.
pub open spec fn steady(level: bool, count: nat) -> Seq<bool> {
    Seq::new(count, |i: int| level)
}

/// The samples of a list of run lengths. The carrier is on during the first
/// run, off during the second, and so on in turn.
pub open spec fn waveform(runs: Seq<usize>) -> Seq<bool>
    decreases runs.len(),
{
    if runs.len() == 0 {
        Seq::empty()
    } else {
        waveform(runs.drop_last()) + steady(runs.len() % 2 == 1, runs.last() as nat)
    }
}

/// The `k`-th bit of a packet in the order of transmission: bit 39 is the first.
pub open spec fn transmitted_bit(packet_bits: u64, k: int) -> bool {
    packet_bits as nat / pow2((39 - k) as nat) % 2 == 1
}

/// The run lengths of one packet: preamble, sync, forty times a burst and the
/// silence that tells the bit, and the closing burst.
pub open spec fn packet_runs(packet_bits: u64, sample_rate: u32) -> Seq<usize> {
    Seq::new(
        83,
        |i: int|
            if i == 0 {
                timing::samples_in(timing::PREAMBLE_ON_US, sample_rate)
            } else if i == 1 {
                timing::samples_in(timing::SYNC_OFF_US, sample_rate)
            } else if i == 82 {
                timing::samples_in(timing::STOP_ON_US, sample_rate)
            } else if i % 2 == 0 {
                timing::samples_in(timing::DATA_ON_US, sample_rate)
            } else if transmitted_bit(packet_bits, (i - 3) / 2) {
                timing::samples_in(timing::LONG_OFF_US, sample_rate)
            } else {
                timing::samples_in(timing::SHORT_OFF_US, sample_rate)
            },
    )
}

/// The run lengths of a press: the packet `repeats` times, with a gap between
/// each two.
pub open spec fn press_runs(packet_bits: u64, repeats: nat, sample_rate: u32) -> Seq<usize>
    decreases repeats,
{
    if repeats == 0 {
        Seq::empty()
    } else if repeats == 1 {
        packet_runs(packet_bits, sample_rate)
    } else {
        press_runs(packet_bits, (repeats - 1) as nat, sample_rate).push(
            timing::samples_in(timing::INTER_PACKET_GAP_US, sample_rate),
        ) + packet_runs(packet_bits, sample_rate)
    }
}

/// The samples of one packet, without the gap that may follow it.
pub open spec fn packet_signal(packet_bits: u64, sample_rate: u32) -> Seq<bool> {
    waveform(packet_runs(packet_bits, sample_rate))
}

/// The samples of a press.
pub open spec fn press_signal(cmd: u8, counter: u8, repeats: nat, sample_rate: u32) -> Seq<bool> {
    waveform(press_runs(packet::packet_word(cmd, counter), repeats, sample_rate))
}

/// A waveform goes on after an even number of runs as it would begin.
pub(crate) proof fn lemma_waveform_concat(head: Seq<usize>, tail: Seq<usize>)
    requires
        head.len() % 2 == 0,
    ensures
        waveform(head + tail) == waveform(head) + waveform(tail),
    decreases tail.len(),
{
    if tail.len() == 0 {
        assert(head + tail =~= head);
        assert(waveform(head) + waveform(tail) =~= waveform(head));
    } else {
        lemma_waveform_concat(head, tail.drop_last());
        assert((head + tail).drop_last() =~= head + tail.drop_last());
        assert(waveform(head + tail) =~= waveform(head) + waveform(tail));
    }
}

/// A waveform is at least as long as that of the first runs.
proof fn lemma_waveform_prefix_len(runs: Seq<usize>, n: int)
    requires
        0 <= n <= runs.len(),
    ensures
        waveform(runs.take(n)).len() <= waveform(runs).len(),
    decreases runs.len(),
{
    if n == runs.len() {
        assert(runs.take(n) =~= runs);
    } else {
        lemma_waveform_prefix_len(runs.drop_last(), n);
        assert(runs.drop_last().take(n) =~= runs.take(n));
    }
}

/// One more run of a waveform.
pub(crate) proof fn lemma_waveform_step(runs: Seq<usize>, n: int)
    requires
        0 <= n < runs.len(),
    ensures
        waveform(runs.take(n + 1)) == waveform(runs.take(n)) + steady(n % 2 == 0, runs[n] as nat),
        waveform(runs.take(n)).len() + runs[n] <= waveform(runs).len(),
{
    assert(runs.take(n + 1).drop_last() =~= runs.take(n));
    lemma_waveform_prefix_len(runs, n + 1);
}

/// The number of runs in a press.
pub(crate) proof fn lemma_press_runs_len(packet_bits: u64, repeats: nat, sample_rate: u32)
    ensures
        press_runs(packet_bits, repeats, sample_rate).len() == if repeats == 0 {
            0
        } else {
            84 * repeats - 1
        },
    decreases repeats,
{
    if repeats > 1 {
        lemma_press_runs_len(packet_bits, (repeats - 1) as nat, sample_rate);
    }
}

/// Appends `count` samples of the same level to `buf`.
fn append_const(buf: &mut Vec<bool>, level: bool, count: usize)
    requires
        old(buf)@.len() + count <= usize::MAX,
    ensures
        final(buf)@ == old(buf)@ + steady(level, count as nat),
{
    let ghost start = buf@;
    buf.resize(buf.len() + count, level);
    assert(buf@ =~= start + steady(level, count as nat));
}

/// Appends the samples of one packet to `buf`: preamble, sync, the 40 data bits
/// and the closing burst. The gap between packets is not appended.
pub fn encode_packet(buf: &mut Vec<bool>, packet_bits: u64, sample_rate: u32)
    requires
        old(buf)@.len() + packet_signal(packet_bits, sample_rate).len() <= usize::MAX,
    ensures
        final(buf)@ == old(buf)@ + packet_signal(packet_bits, sample_rate),
{
    let ghost start = buf@;
    let ghost runs = packet_runs(packet_bits, sample_rate);
    proof {
        assert(runs.take(0) =~= Seq::empty());
        lemma_waveform_step(runs, 0);
        lemma_waveform_step(runs, 1);
    }
    append_const(buf, true, timing::us_to_samples(timing::PREAMBLE_ON_US, sample_rate));
    append_const(buf, false, timing::us_to_samples(timing::SYNC_OFF_US, sample_rate));
    assert(buf@ =~= start + waveform(runs.take(2)));
    let mut k: u64 = 0;
    while k < 40
        invariant
            k <= 40,
            runs == packet_runs(packet_bits, sample_rate),
            start.len() + waveform(runs).len() <= usize::MAX,
            buf@ == start + waveform(runs.take(2 + 2 * k)),
        decreases 40 - k,
    {
        proof {
            lemma_waveform_step(runs, 2 + 2 * k);
            lemma_waveform_step(runs, 3 + 2 * k);
            lemma_shifted_bit(packet_bits, (39 - k) as u64);
            assert(((3 + 2 * k) - 3) / 2 == k as int);
        }
        let bit: u64 = (packet_bits >> (39 - k)) & 1;
        append_const(buf, true, timing::us_to_samples(timing::DATA_ON_US, sample_rate));
        let off_us: u32 = if bit == 1 {
            timing::LONG_OFF_US
        } else {
            timing::SHORT_OFF_US
        };
        append_const(buf, false, timing::us_to_samples(off_us, sample_rate));
        assert(buf@ =~= start + waveform(runs.take(2 + 2 * (k + 1))));
        k += 1;
    }
    proof {
        lemma_waveform_step(runs, 82);
        assert(runs.take(83) =~= runs);
    }
    append_const(buf, true, timing::us_to_samples(timing::STOP_ON_US, sample_rate));
    assert(buf@ =~= start + waveform(runs));
}

/// Shifting and masking reads one bit of a packet.
proof fn lemma_shifted_bit(packet_bits: u64, i: u64)
    requires
        i < 40,
    ensures
        ((packet_bits >> i) & 1 == 1) == transmitted_bit(packet_bits, 39 - i),
{
    vstd::bits::lemma_u64_shr_is_div(packet_bits, i);
    let shifted: u64 = packet_bits >> i;
    assert((shifted & 1 == 1) == (shifted % 2 == 1)) by (bit_vector);
}

/// The samples of a press up to the point where the next packet begins.
spec fn press_so_far(packet_bits: u64, done: nat, repeats: nat, sample_rate: u32) -> Seq<usize> {
    if 0 < done < repeats {
        press_runs(packet_bits, done, sample_rate).push(
            timing::samples_in(timing::INTER_PACKET_GAP_US, sample_rate),
        )
    } else {
        press_runs(packet_bits, done, sample_rate)
    }
}

/// The signal of a press holds that of its first packets, and of one packet more.
proof fn lemma_press_grows(packet_bits: u64, done: nat, repeats: nat, sample_rate: u32)
    requires
        done < repeats,
    ensures
        press_so_far(packet_bits, done, repeats, sample_rate).len() % 2 == 0,
        press_so_far(packet_bits, done, repeats, sample_rate) + packet_runs(
            packet_bits,
            sample_rate,
        ) == press_runs(packet_bits, done + 1, sample_rate),
        waveform(press_runs(packet_bits, done + 1, sample_rate)).len() <= waveform(
            press_runs(packet_bits, repeats, sample_rate),
        ).len(),
        done + 1 < repeats ==> waveform(
            press_so_far(packet_bits, done + 1, repeats, sample_rate),
        ).len() <= waveform(press_runs(packet_bits, repeats, sample_rate)).len(),
    decreases repeats - done,
{
    lemma_press_runs_len(packet_bits, done, sample_rate);
    let before = press_so_far(packet_bits, done, repeats, sample_rate);
    assert(before + packet_runs(packet_bits, sample_rate) =~= press_runs(
        packet_bits,
        done + 1,
        sample_rate,
    ));
    if done + 1 < repeats {
        lemma_press_grows(packet_bits, done + 1, repeats, sample_rate);
        let after = press_so_far(packet_bits, done + 1, repeats, sample_rate);
        lemma_waveform_concat(after, packet_runs(packet_bits, sample_rate));
        assert(after.drop_last() =~= press_runs(packet_bits, done + 1, sample_rate));
    }
}

/// The number of samples of one packet.
fn packet_len(packet_bits: u64, sample_rate: u32) -> (len: u128)
    ensures
        len == packet_signal(packet_bits, sample_rate).len(),
        len <= 83 * usize::MAX,
{
    let ghost runs = packet_runs(packet_bits, sample_rate);
    let preamble: usize = timing::us_to_samples(timing::PREAMBLE_ON_US, sample_rate);
    let sync: usize = timing::us_to_samples(timing::SYNC_OFF_US, sample_rate);
    let data: usize = timing::us_to_samples(timing::DATA_ON_US, sample_rate);
    let short: usize = timing::us_to_samples(timing::SHORT_OFF_US, sample_rate);
    let long: usize = timing::us_to_samples(timing::LONG_OFF_US, sample_rate);
    let stop: usize = timing::us_to_samples(timing::STOP_ON_US, sample_rate);
    proof {
        assert(runs.take(0) =~= Seq::empty());
        lemma_waveform_step(runs, 0);
        lemma_waveform_step(runs, 1);
    }
    let mut len: u128 = preamble as u128 + sync as u128;
    let mut k: u64 = 0;
    while k < 40
        invariant
            k <= 40,
            runs == packet_runs(packet_bits, sample_rate),
            data == timing::samples_in(timing::DATA_ON_US, sample_rate),
            short == timing::samples_in(timing::SHORT_OFF_US, sample_rate),
            long == timing::samples_in(timing::LONG_OFF_US, sample_rate),
            len == waveform(runs.take(2 + 2 * k)).len(),
            len <= (2 + 2 * k) * usize::MAX,
        decreases 40 - k,
    {
        proof {
            lemma_waveform_step(runs, 2 + 2 * k);
            lemma_waveform_step(runs, 3 + 2 * k);
            lemma_shifted_bit(packet_bits, (39 - k) as u64);
            assert(((3 + 2 * k) - 3) / 2 == k as int);
            assert((2 + 2 * (k + 1)) * usize::MAX == (2 + 2 * k) * usize::MAX + 2 * usize::MAX)
                by (nonlinear_arith);
        }
        let bit: u64 = (packet_bits >> (39 - k)) & 1;
        let off: usize = if bit == 1 {
            long
        } else {
            short
        };
        assert((2 + 2 * k) * usize::MAX <= 82 * usize::MAX) by (nonlinear_arith)
            requires
                k <= 40,
        ;
        len = len + data as u128 + off as u128;
        k += 1;
    }
    proof {
        lemma_waveform_step(runs, 82);
        assert(runs.take(83) =~= runs);
        assert((2 + 2 * k) * usize::MAX == 82 * usize::MAX) by (nonlinear_arith)
            requires
                k == 40,
        ;
    }
    len + stop as u128
}

/// The number of samples in a press.
pub(crate) proof fn lemma_press_len(packet_bits: u64, repeats: nat, sample_rate: u32)
    ensures
        waveform(press_runs(packet_bits, repeats, sample_rate)).len() == if repeats == 0 {
            0
        } else {
            repeats * packet_signal(packet_bits, sample_rate).len() + (repeats - 1)
                * timing::samples_in(timing::INTER_PACKET_GAP_US, sample_rate)
        },
    decreases repeats,
{
    let gap = timing::samples_in(timing::INTER_PACKET_GAP_US, sample_rate);
    let len = packet_signal(packet_bits, sample_rate).len();
    if repeats == 1 {
        assert(repeats * len == len && (repeats - 1) * gap == 0) by (nonlinear_arith)
            requires
                repeats == 1,
        ;
    } else if repeats > 1 {
        let before = (repeats - 1) as nat;
        let runs = press_runs(packet_bits, before, sample_rate);
        lemma_press_len(packet_bits, before, sample_rate);
        lemma_press_runs_len(packet_bits, before, sample_rate);
        lemma_waveform_concat(runs.push(gap), packet_runs(packet_bits, sample_rate));
        assert(runs.push(gap).drop_last() =~= runs);
        assert(repeats * len == before * len + len) by (nonlinear_arith)
            requires
                repeats == before + 1,
        ;
        assert((repeats - 1) * gap == (before - 1) * gap + gap) by (nonlinear_arith)
            requires
                repeats == before + 1,
        ;
    }
}

/// The number of samples of a press, in an integer that always has room for it.
pub fn press_len(cmd: u8, counter: u8, repeats: u32, sample_rate: u32) -> (len: u128)
    ensures
        len == press_signal(cmd, counter, repeats as nat, sample_rate).len(),
{
    if repeats == 0 {
        return 0;
    }
    let gap: usize = timing::us_to_samples(timing::INTER_PACKET_GAP_US, sample_rate);
    let bits: u64 = packet::build_packet_raw(cmd, counter);
    let packet: u128 = packet_len(bits, sample_rate);
    proof {
        lemma_press_len(bits, repeats as nat, sample_rate);
        assert(repeats * packet <= 0x1_0000_0000 * (83 * 0x1_0000_0000_0000_0000)) by (
            nonlinear_arith)
            requires
                repeats <= 0x1_0000_0000,
                packet <= 83 * 0x1_0000_0000_0000_0000,
        ;
        assert((repeats - 1) * gap <= 0x1_0000_0000 * 0x1_0000_0000_0000_0000) by (nonlinear_arith)
            requires
                1 <= repeats <= 0x1_0000_0000,
                0 <= gap <= 0x1_0000_0000_0000_0000,
        ;
    }
    repeats as u128 * packet + (repeats - 1) as u128 * gap as u128
}

/// The signal of a press of a raw command byte: `repeats` copies of its packet,
/// with a gap between each two, all with the same counter.
pub fn encode_press_raw(cmd: u8, counter: u8, repeats: u32, sample_rate: u32) -> (buf: Vec<bool>)
    requires
        press_signal(cmd, counter, repeats as nat, sample_rate).len() <= usize::MAX,
    ensures
        buf@ == press_signal(cmd, counter, repeats as nat, sample_rate),
{
    let mut buf: Vec<bool> = Vec::new();
    let gap: usize = timing::us_to_samples(timing::INTER_PACKET_GAP_US, sample_rate);
    let bits: u64 = packet::build_packet_raw(cmd, counter);
    let mut i: u32 = 0;
    while i < repeats
        invariant
            i <= repeats,
            gap == timing::samples_in(timing::INTER_PACKET_GAP_US, sample_rate),
            waveform(press_runs(bits, repeats as nat, sample_rate)).len() <= usize::MAX,
            buf@ == waveform(press_so_far(bits, i as nat, repeats as nat, sample_rate)),
        decreases repeats - i,
    {
        let ghost before = press_so_far(bits, i as nat, repeats as nat, sample_rate);
        proof {
            lemma_press_grows(bits, i as nat, repeats as nat, sample_rate);
            lemma_waveform_concat(before, packet_runs(bits, sample_rate));
        }
        encode_packet(&mut buf, bits, sample_rate);
        if i + 1 < repeats {
            proof {
                let runs = press_runs(bits, (i + 1) as nat, sample_rate);
                lemma_press_runs_len(bits, (i + 1) as nat, sample_rate);
                assert(runs.push(gap).drop_last() =~= runs);
            }
            append_const(&mut buf, false, gap);
        }
        i += 1;
    }
    buf
}

/// The signal of a button press.
pub fn encode_button_press(
    button: Button,
    counter: u8,
    repeats: u32,
    sample_rate: u32,
) -> (buf: Vec<bool>)
    requires
        press_signal(button.command_spec(), counter, repeats as nat, sample_rate).len()
            <= usize::MAX,
    ensures
        buf@ == press_signal(button.command_spec(), counter, repeats as nat, sample_rate),
{
    encode_press_raw(button.command(), counter, repeats, sample_rate)
}

} // verus!
