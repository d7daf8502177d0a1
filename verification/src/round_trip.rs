//! What the receiving side makes of a transmitted press.

use crate::decode;
use crate::packet;
use crate::signal;
use crate::timing;
use crate::transmit;
use vstd::arithmetic::power2::pow2;
use vstd::prelude::*;

verus! {

/// No run is empty.
spec fn no_empty_run(runs: Seq<usize>) -> bool {
    forall|i: int| 0 <= i < runs.len() ==> #[trigger] runs[i] > 0
}

/// A waveform without empty runs begins with the carrier on, and ends with it
/// on exactly when the number of runs is odd.
proof fn lemma_waveform_ends(runs: Seq<usize>)
    requires
        runs.len() > 0,
        no_empty_run(runs),
    ensures
        signal::waveform(runs).len() > 0,
        signal::waveform(runs)[0],
        signal::waveform(runs).last() == (runs.len() % 2 == 1),
    decreases runs.len(),
{
    let before = runs.drop_last();
    assert(runs[runs.len() - 1] > 0);
    if before.len() > 0 {
        assert forall|i: int| 0 <= i < before.len() implies #[trigger] before[i] > 0 by {
            assert(runs[i] > 0);
        }
        lemma_waveform_ends(before);
        assert(signal::waveform(runs)[0] == signal::waveform(before)[0]);
    } else {
        assert(signal::waveform(before) =~= Seq::empty());
        assert(signal::waveform(runs) =~= signal::steady(true, runs.last() as nat));
    }
}

/// The last runs of two equal waveforms: neither is the shorter.
proof fn lemma_last_run_not_shorter(a: Seq<usize>, b: Seq<usize>)
    requires
        a.len() > 0,
        b.len() > 0,
        no_empty_run(a),
        no_empty_run(b),
        signal::waveform(a) == signal::waveform(b),
    ensures
        a.last() >= b.last(),
        a.len() % 2 == b.len() % 2,
{
    lemma_waveform_ends(a);
    lemma_waveform_ends(b);
    if a.last() < b.last() {
        let samples = signal::waveform(a);
        let before = a.drop_last();
        assert(samples.len() == signal::waveform(before).len() + a.last());
        if before.len() > 0 {
            assert forall|i: int| 0 <= i < before.len() implies #[trigger] before[i] > 0 by {
                assert(a[i] > 0);
            }
            lemma_waveform_ends(before);
            let turn = samples.len() - a.last() - 1;
            assert(samples[turn] == signal::waveform(before).last());
            assert(signal::waveform(b)[turn] == (b.len() % 2 == 1));
        } else {
            assert(signal::waveform(b).len() >= b.last());
        }
    }
}

proof fn lemma_equal_waveforms(a: Seq<usize>, b: Seq<usize>)
    requires
        no_empty_run(a),
        no_empty_run(b),
        signal::waveform(a) == signal::waveform(b),
    ensures
        a == b,
    decreases a.len(),
{
    if a.len() == 0 {
        if b.len() > 0 {
            lemma_waveform_ends(b);
        }
        assert(a =~= b);
    } else {
        lemma_waveform_ends(a);
        assert(b.len() > 0);
        lemma_last_run_not_shorter(a, b);
        lemma_last_run_not_shorter(b, a);
        let fewer_a = a.drop_last();
        let fewer_b = b.drop_last();
        assert forall|i: int| 0 <= i < fewer_a.len() implies #[trigger] fewer_a[i] > 0 by {
            assert(a[i] > 0);
        }
        assert forall|i: int| 0 <= i < fewer_b.len() implies #[trigger] fewer_b[i] > 0 by {
            assert(b[i] > 0);
        }
        let rest = signal::waveform(a).len() - a.last();
        assert(signal::waveform(fewer_a) =~= signal::waveform(a).take(rest));
        assert(signal::waveform(fewer_b) =~= signal::waveform(b).take(rest));
        lemma_equal_waveforms(fewer_a, fewer_b);
        assert(a =~= fewer_a.push(a.last()));
        assert(b =~= fewer_b.push(b.last()));
    }
}

/// A signal has only one list of run lengths.
pub proof fn run_lengths_are_unique(levels: Seq<bool>, a: Seq<usize>, b: Seq<usize>)
    requires
        decode::are_run_lengths(levels, a),
        decode::are_run_lengths(levels, b),
    ensures
        a == b,
{
    let wave_a = signal::waveform(a);
    let wave_b = signal::waveform(b);
    let lead_a = levels.len() - wave_a.len();
    let lead_b = levels.len() - wave_b.len();
    assert(no_empty_run(a));
    assert(no_empty_run(b));
    if a.len() > 0 {
        lemma_waveform_ends(a);
        assert(levels[lead_a]);
    }
    if b.len() > 0 {
        lemma_waveform_ends(b);
        assert(levels[lead_b]);
    }
    if a.len() > 0 || b.len() > 0 {
        if lead_a < lead_b {
            assert(!levels[lead_a]);
        }
        if lead_b < lead_a {
            assert(!levels[lead_b]);
        }
    }
    assert(lead_a == lead_b);
    assert(wave_a =~= levels.skip(lead_a));
    assert(wave_b =~= levels.skip(lead_b));
    lemma_equal_waveforms(a, b);
}

/// Halving the quotient by a power of two.
proof fn lemma_next_quotient(x: nat, k: nat)
    ensures
        x / pow2(k) == 2 * (x / pow2(k + 1)) + x / pow2(k) % 2,
{
    vstd::arithmetic::power2::lemma_pow2_pos(k);
    vstd::arithmetic::power2::lemma_pow2_unfold(k + 1);
    vstd::arithmetic::div_mod::lemma_div_denominator(x as int, pow2(k) as int, 2);
    assert(pow2(k) * 2 == 2 * pow2(k));
}

/// The packet that begins at run `i` can be read as `packet_bits`: its preamble is
/// long enough, and each of its silences is on the side of the bound where its bit
/// belongs. How long the runs are otherwise does not matter.
pub open spec fn legible(runs: Seq<usize>, i: int, packet_bits: u64, sample_rate: u32) -> bool {
    &&& runs[i] > timing::samples_in(timing::PREAMBLE_MIN_US, sample_rate)
    &&& forall|k: int|
        0 <= k < 40 ==> (runs[i + 3 + 2 * k] > timing::samples_in(timing::BIT_SPLIT_US, sample_rate)
            <==> #[trigger] signal::transmitted_bit(packet_bits, k))
}

/// The bits of a packet are read off its runs, the first at the top.
proof fn lemma_packet_prefix(
    runs: Seq<usize>,
    i: int,
    n: nat,
    packet_bits: u64,
    sample_rate: u32,
)
    requires
        n <= 40,
        packet_bits < 0x100_0000_0000,
        legible(runs, i, packet_bits, sample_rate),
    ensures
        decode::packet_prefix(
            runs,
            i,
            n,
            timing::samples_in(timing::BIT_SPLIT_US, sample_rate),
        ) == packet_bits as nat / pow2((40 - n) as nat),
    decreases n,
{
    if n == 0 {
        vstd::arithmetic::power2::lemma2_to64_rest();
    } else {
        lemma_packet_prefix(runs, i, (n - 1) as nat, packet_bits, sample_rate);
        lemma_next_quotient(packet_bits as nat, (40 - n) as nat);
        let bit = signal::transmitted_bit(packet_bits, n - 1);
        assert(i + 3 + 2 * (n - 1) == i + 1 + 2 * n);
        assert(bit <==> packet_bits as nat / pow2((40 - n) as nat) % 2 == 1);
    }
}

/// Where the packets of a press stand in its runs.
pub(crate) proof fn lemma_packets_of_press(packet_bits: u64, repeats: nat, sample_rate: u32, j: nat)
    requires
        j < repeats,
    ensures
        signal::press_runs(packet_bits, repeats, sample_rate).len() == 84 * repeats - 1,
        signal::press_runs(packet_bits, repeats, sample_rate).subrange(
            84 * j as int,
            84 * j as int + 83,
        ) == signal::packet_runs(packet_bits, sample_rate),
    decreases repeats,
{
    let runs = signal::press_runs(packet_bits, repeats, sample_rate);
    let one = signal::packet_runs(packet_bits, sample_rate);
    if repeats == 1 {
        assert(runs.subrange(0, 83) =~= one);
    } else {
        let fewer = (repeats - 1) as nat;
        let before = signal::press_runs(packet_bits, fewer, sample_rate);
        if j < fewer {
            lemma_packets_of_press(packet_bits, fewer, sample_rate, j);
            assert(runs.subrange(84 * j as int, 84 * j as int + 83) =~= before.subrange(
                84 * j as int,
                84 * j as int + 83,
            ));
        } else {
            lemma_packets_of_press(packet_bits, fewer, sample_rate, 0);
            assert(runs.subrange(84 * j as int, 84 * j as int + 83) =~= one);
        }
    }
}

proof fn lemma_no_empty_press_run(packet_bits: u64, repeats: nat, sample_rate: u32)
    requires
        timing::samples_in(timing::DATA_ON_US, sample_rate) > 0,
    ensures
        no_empty_run(signal::press_runs(packet_bits, repeats, sample_rate)),
    decreases repeats,
{
    timing::lemma_runs_have_samples(sample_rate);
    if repeats > 1 {
        lemma_no_empty_press_run(packet_bits, (repeats - 1) as nat, sample_rate);
    }
}

/// A packet can be read where its runs stand as they were sent.
proof fn lemma_sent_is_legible(runs: Seq<usize>, at: int, packet_bits: u64, sample_rate: u32)
    requires
        0 <= at,
        at + 83 <= runs.len(),
        timing::resolvable(sample_rate),
        runs.subrange(at, at + 83) == signal::packet_runs(packet_bits, sample_rate),
    ensures
        legible(runs, at, packet_bits, sample_rate),
{
    timing::resolvable_separates(sample_rate);
    let one = runs.subrange(at, at + 83);
    assert(runs[at] == one[0]);
    assert forall|k: int| 0 <= k < 40 implies (runs[at + 3 + 2 * k] > timing::samples_in(
        timing::BIT_SPLIT_US,
        sample_rate,
    ) <==> #[trigger] signal::transmitted_bit(packet_bits, k)) by {
        assert(runs[at + 3 + 2 * k] == one[3 + 2 * k]);
        assert((3 + 2 * k - 3) / 2 == k);
    }
}

/// Packet `j` is recognised, and read as `packet_bits`.
spec fn reads_as(
    runs: Seq<usize>,
    j: int,
    preamble_min: usize,
    bit_split: usize,
    packet_bits: u64,
) -> bool {
    &&& decode::packet_at(runs, 84 * j, preamble_min)
    &&& decode::packet_prefix(runs, 84 * j, 40, bit_split) == packet_bits
}

/// Decoding goes from one packet to the next.
proof fn lemma_decode_in_turn(
    runs: Seq<usize>,
    preamble_min: usize,
    bit_split: usize,
    packets: Seq<u64>,
    j: int,
)
    requires
        0 <= j <= packets.len(),
        84 * packets.len() - 1 <= runs.len() <= 84 * packets.len(),
        forall|k: int|
            0 <= k < packets.len() ==> #[trigger] reads_as(
                runs,
                k,
                preamble_min,
                bit_split,
                packets[k],
            ),
    ensures
        decode::packets_from(runs, 84 * j, preamble_min, bit_split) == packets.skip(j),
    decreases packets.len() - j,
{
    let found = decode::packets_from(runs, 84 * j, preamble_min, bit_split);
    if j < packets.len() {
        assert(reads_as(runs, j, preamble_min, bit_split, packets[j]));
        lemma_decode_in_turn(runs, preamble_min, bit_split, packets, j + 1);
        let rest = decode::packets_from(runs, 84 * (j + 1), preamble_min, bit_split);
        assert(84 * j + 84 == 84 * (j + 1));
        assert(found == seq![packets[j]] + rest);
    }
    assert(found =~= packets.skip(j));
}

/// Runs that differ from those that were sent decode all the same, as long as every
/// packet in them can be read: to these packets, in their order.
pub proof fn legible_packets_decode(runs: Seq<usize>, packets: Seq<u64>, sample_rate: u32)
    requires
        84 * packets.len() - 1 <= runs.len() <= 84 * packets.len(),
        forall|j: int|
            0 <= j < packets.len() ==> #[trigger] packets[j] < 0x100_0000_0000 && legible(
                runs,
                84 * j,
                packets[j],
                sample_rate,
            ),
    ensures
        decode::packets_in(runs, sample_rate) == packets,
{
    let preamble_min = timing::samples_in(timing::PREAMBLE_MIN_US, sample_rate);
    let bit_split = timing::samples_in(timing::BIT_SPLIT_US, sample_rate);
    assert forall|j: int| 0 <= j < packets.len() implies #[trigger] reads_as(
        runs,
        j,
        preamble_min,
        bit_split,
        packets[j],
    ) by {
        let packet_bits = packets[j];
        assert(legible(runs, 84 * j, packet_bits, sample_rate));
        lemma_packet_prefix(runs, 84 * j, 40, packet_bits, sample_rate);
        vstd::arithmetic::power2::lemma2_to64();
        vstd::arithmetic::div_mod::lemma_div_basics(packet_bits as int);
    }
    lemma_decode_in_turn(runs, preamble_min, bit_split, packets, 0);
    assert(packets.skip(0) =~= packets);
}

/// Runs that differ from those that were sent, as they do once a signal has been
/// smoothed, decode all the same, as long as every packet in them can be read.
pub proof fn distorted_runs_decode(
    runs: Seq<usize>,
    packet_bits: u64,
    repeats: nat,
    sample_rate: u32,
)
    requires
        packet_bits < 0x100_0000_0000,
        84 * repeats - 1 <= runs.len() <= 84 * repeats,
        forall|j: int|
            0 <= j < repeats ==> #[trigger] legible(runs, 84 * j, packet_bits, sample_rate),
    ensures
        decode::packets_in(runs, sample_rate) == Seq::new(repeats, |i: int| packet_bits),
{
    let packets = Seq::new(repeats, |i: int| packet_bits);
    assert forall|j: int| 0 <= j < packets.len() implies #[trigger] packets[j] < 0x100_0000_0000
        && legible(runs, 84 * j, packets[j], sample_rate) by {
        assert(legible(runs, 84 * j, packet_bits, sample_rate));
    }
    legible_packets_decode(runs, packets, sample_rate);
}

/// The bits of a packet depend on its own runs alone.
proof fn lemma_prefix_agrees(
    runs: Seq<usize>,
    i: int,
    others: Seq<usize>,
    j: int,
    n: nat,
    bit_split: usize,
)
    requires
        forall|k: int| 0 <= k < n ==> #[trigger] runs[i + 3 + 2 * k] == others[j + 3 + 2 * k],
    ensures
        decode::packet_prefix(runs, i, n, bit_split) == decode::packet_prefix(
            others,
            j,
            n,
            bit_split,
        ),
    decreases n,
{
    if n > 0 {
        lemma_prefix_agrees(runs, i, others, j, (n - 1) as nat, bit_split);
        let k = n - 1;
        assert(runs[i + 3 + 2 * k] == others[j + 3 + 2 * k]);
        assert(i + 3 + 2 * k == i + 1 + 2 * n);
        assert(j + 3 + 2 * k == j + 1 + 2 * n);
    }
}

/// Behind an even number of runs, decoding goes on as it would begin.
pub(crate) proof fn lemma_packets_behind(
    head: Seq<usize>,
    tail: Seq<usize>,
    i: int,
    preamble_min: usize,
    bit_split: usize,
)
    requires
        head.len() % 2 == 0,
        0 <= i,
    ensures
        decode::packets_from(head + tail, head.len() + i, preamble_min, bit_split)
            == decode::packets_from(tail, i, preamble_min, bit_split),
    decreases tail.len() + 1 - i,
{
    let runs = head + tail;
    let n = head.len();
    if i < tail.len() {
        assert(runs[n + i] == tail[i]);
        if decode::packet_at(tail, i, preamble_min) {
            lemma_packets_behind(head, tail, i + 84, preamble_min, bit_split);
            assert forall|k: int| 0 <= k < 40 implies #[trigger] runs[n + i + 3 + 2 * k] == tail[i
                + 3 + 2 * k] by {}
            lemma_prefix_agrees(runs, n + i, tail, i, 40, bit_split);
        } else {
            lemma_packets_behind(head, tail, i + 1, preamble_min, bit_split);
        }
    }
}

/// A packet and whatever follows it behind a silence are decoded one after the other.
pub proof fn packets_decode_one_by_one(
    first: Seq<usize>,
    gap: usize,
    rest: Seq<usize>,
    sample_rate: u32,
)
    requires
        first.len() == 83,
        first[0] > timing::samples_in(4_000, sample_rate),
    ensures
        decode::packets_in(first + seq![gap] + rest, sample_rate) == decode::packets_in(
            first,
            sample_rate,
        ) + decode::packets_in(rest, sample_rate),
{
    let preamble_min = timing::samples_in(timing::PREAMBLE_MIN_US, sample_rate);
    let bit_split = timing::samples_in(timing::BIT_SPLIT_US, sample_rate);
    let head = first + seq![gap];
    let runs = head + rest;
    assert(runs[0] == first[0]);
    assert forall|k: int| 0 <= k < 40 implies #[trigger] runs[0 + 3 + 2 * k] == first[0 + 3 + 2
        * k] by {}
    lemma_prefix_agrees(runs, 0, first, 0, 40, bit_split);
    lemma_packets_behind(head, rest, 0, preamble_min, bit_split);
    let bits = decode::packet_prefix(first, 0, 40, bit_split) as u64;
    assert(decode::packets_from(first, 84, preamble_min, bit_split) =~= Seq::empty());
    assert(decode::packets_in(first, sample_rate) =~= seq![bits]);
    assert(decode::packets_in(runs, sample_rate) =~= seq![bits] + decode::packets_in(
        rest,
        sample_rate,
    ));
}

proof fn lemma_subrange_of_take(runs: Seq<usize>, n: int, start: int, end: int)
    requires
        0 <= start <= end <= n <= runs.len(),
    ensures
        runs.take(n).subrange(start, end) == runs.subrange(start, end),
{
    assert(runs.take(n).subrange(start, end) =~= runs.subrange(start, end));
}

/// The runs of a press, with or without one more run of silence, decode to its
/// packet, as many times as it was repeated.
proof fn lemma_decode_press(
    runs: Seq<usize>,
    packet_bits: u64,
    repeats: nat,
    sample_rate: u32,
)
    requires
        0 < repeats,
        packet_bits < 0x100_0000_0000,
        timing::resolvable(sample_rate),
        84 * repeats - 1 <= runs.len() <= 84 * repeats,
        runs.take(84 * repeats - 1) == signal::press_runs(packet_bits, repeats, sample_rate),
    ensures
        decode::packets_in(runs, sample_rate) == Seq::new(repeats, |i: int| packet_bits),
{
    assert forall|j: int| 0 <= j < repeats implies #[trigger] legible(
        runs,
        84 * j,
        packet_bits,
        sample_rate,
    ) by {
        let at = 84 * j;
        lemma_packets_of_press(packet_bits, repeats, sample_rate, j as nat);
        lemma_subrange_of_take(runs, 84 * repeats - 1, at, at + 83);
        lemma_sent_is_legible(runs, at, packet_bits, sample_rate);
    }
    distorted_runs_decode(runs, packet_bits, repeats, sample_rate);
}

/// The runs of a press that was sent with silence before and after it, at a rate
/// at which no run is empty: those of the press, and perhaps one more of silence.
pub(crate) proof fn lemma_runs_of_press(
    cmd: u8,
    counter: u8,
    repeats: nat,
    sample_rate: u32,
    lead: nat,
    trail: usize,
    runs: Seq<usize>,
)
    requires
        0 < repeats,
        timing::samples_in(timing::DATA_ON_US, sample_rate) > 0,
        decode::are_run_lengths(
            transmit::padded_signal(cmd, counter, repeats, sample_rate, lead, trail as nat),
            runs,
        ),
    ensures
        84 * repeats - 1 <= runs.len() <= 84 * repeats,
        runs.take(84 * repeats - 1) == signal::press_runs(
            packet::packet_word(cmd, counter),
            repeats,
            sample_rate,
        ),
{
    let bits = packet::packet_word(cmd, counter);
    let sent = signal::press_runs(bits, repeats, sample_rate);
    let levels = signal::steady(false, lead) + signal::waveform(sent) + signal::steady(
        false,
        trail as nat,
    );
    let expected = if trail == 0 {
        sent
    } else {
        sent.push(trail)
    };
    signal::lemma_press_runs_len(bits, repeats, sample_rate);
    lemma_no_empty_press_run(bits, repeats, sample_rate);
    if trail > 0 {
        assert(expected.drop_last() =~= sent);
    }
    assert forall|i: int| 0 <= i < expected.len() implies #[trigger] expected[i] > 0 by {
        if i < sent.len() {
            assert(sent[i] > 0);
        }
    }
    let sounding = signal::waveform(expected);
    assert(levels =~= signal::steady(false, (levels.len() - sounding.len()) as nat) + sounding);
    run_lengths_are_unique(levels, runs, expected);
    assert(expected.take(84 * repeats - 1) =~= sent);
}

/// A press that was sent, with silence before and after it, decodes to its
/// packet, as many times as it was repeated.
pub proof fn press_round_trip(
    cmd: u8,
    counter: u8,
    repeats: nat,
    sample_rate: u32,
    lead: nat,
    trail: usize,
    runs: Seq<usize>,
)
    requires
        repeats == 0 || timing::resolvable(sample_rate),
        decode::are_run_lengths(
            transmit::padded_signal(cmd, counter, repeats, sample_rate, lead, trail as nat),
            runs,
        ),
    ensures
        decode::packets_in(runs, sample_rate) == Seq::new(
            repeats,
            |i: int| packet::packet_word(cmd, counter),
        ),
{
    let bits = packet::packet_word(cmd, counter);
    if repeats == 0 {
        let silence = signal::steady(false, lead + trail as nat);
        assert(transmit::padded_signal(cmd, counter, repeats, sample_rate, lead, trail as nat)
            =~= silence);
        let none = Seq::<usize>::empty();
        assert(silence =~= signal::steady(false, silence.len()) + signal::waveform(none));
        run_lengths_are_unique(silence, runs, none);
        assert(decode::packets_in(runs, sample_rate) =~= Seq::new(repeats, |i: int| bits));
    } else {
        packet::packet_fields(cmd, counter);
        lemma_runs_of_press(cmd, counter, repeats, sample_rate, lead, trail, runs);
        lemma_decode_press(runs, bits, repeats, sample_rate);
    }
}

/// Every decoded packet fits in 40 bits.
pub proof fn decoded_packets_fit(runs: Seq<usize>, sample_rate: u32, i: int)
    requires
        0 <= i < decode::packets_in(runs, sample_rate).len(),
    ensures
        decode::packets_in(runs, sample_rate)[i] < 0x100_0000_0000,
{
    lemma_decoded_fit_from(
        runs,
        0,
        timing::samples_in(timing::PREAMBLE_MIN_US, sample_rate),
        timing::samples_in(timing::BIT_SPLIT_US, sample_rate),
        i,
    );
}

proof fn lemma_decoded_fit_from(
    runs: Seq<usize>,
    from: int,
    preamble_min: usize,
    bit_split: usize,
    i: int,
)
    requires
        0 <= i < decode::packets_from(runs, from, preamble_min, bit_split).len(),
    ensures
        decode::packets_from(runs, from, preamble_min, bit_split)[i] < 0x100_0000_0000,
    decreases runs.len() + 1 - from,
{
    if decode::packet_at(runs, from, preamble_min) {
        lemma_prefix_fits(runs, from, 40, bit_split);
        vstd::arithmetic::power2::lemma2_to64_rest();
        if i > 0 {
            lemma_decoded_fit_from(runs, from + 84, preamble_min, bit_split, i - 1);
        }
    } else {
        lemma_decoded_fit_from(runs, from + 1, preamble_min, bit_split, i);
    }
}

/// The first `n` bits of a packet fit in `n` bits.
pub(crate) proof fn lemma_prefix_fits(runs: Seq<usize>, i: int, n: nat, bit_split: usize)
    ensures
        decode::packet_prefix(runs, i, n, bit_split) < pow2(n),
    decreases n,
{
    if n == 0 {
        vstd::arithmetic::power2::lemma2_to64();
    } else {
        lemma_prefix_fits(runs, i, (n - 1) as nat, bit_split);
        vstd::arithmetic::power2::lemma_pow2_unfold(n);
    }
}

} // verus!
