//! What the receiving side makes of several presses, one after the other.

use crate::decode;
use crate::envelope;
use crate::packet;
use crate::round_trip;
use crate::signal;
use crate::smoothing;
use crate::timing;
use vstd::prelude::*;

verus! {

/// A press that was sent, and how many samples of silence follow it.
pub struct SentPress {
    pub cmd: u8,
    pub counter: u8,
    pub repeats: nat,
    pub pause: nat,
}

/// The samples of several presses, each with the silence behind it.
pub open spec fn recording_signal(presses: Seq<SentPress>, sample_rate: u32) -> Seq<bool>
    decreases presses.len(),
{
    if presses.len() == 0 {
        Seq::empty()
    } else {
        let last = presses.last();
        recording_signal(presses.drop_last(), sample_rate) + signal::press_signal(
            last.cmd,
            last.counter,
            last.repeats,
            sample_rate,
        ) + signal::steady(false, last.pause)
    }
}

/// The packets of several presses in their order, each as often as it was repeated.
pub open spec fn recorded_packets(presses: Seq<SentPress>) -> Seq<u64>
    decreases presses.len(),
{
    if presses.len() == 0 {
        Seq::empty()
    } else {
        let last = presses.last();
        recorded_packets(presses.drop_last()) + Seq::new(
            last.repeats,
            |i: int| packet::packet_word(last.cmd, last.counter),
        )
    }
}

/// Every press was sent at least once, and the silence between two presses is longer
/// than `least`.
pub open spec fn parted(presses: Seq<SentPress>, least: nat) -> bool {
    &&& forall|k: int| 0 <= k < presses.len() ==> #[trigger] presses[k].repeats > 0
    &&& forall|k: int| 0 <= k < presses.len() - 1 ==> #[trigger] presses[k].pause > least
}

/// A packet on the air, and how many samples of silence follow it.
struct SentPacket {
    bits: u64,
    gap: nat,
}

/// The samples of several packets, each with the silence behind it.
spec fn train_signal(train: Seq<SentPacket>, sample_rate: u32) -> Seq<bool>
    decreases train.len(),
{
    if train.len() == 0 {
        Seq::empty()
    } else {
        train_signal(train.drop_last(), sample_rate) + signal::packet_signal(
            train.last().bits,
            sample_rate,
        ) + signal::steady(false, train.last().gap)
    }
}

/// The runs of several packets, each with the silence behind it.
spec fn train_runs(train: Seq<SentPacket>, sample_rate: u32) -> Seq<usize>
    decreases train.len(),
{
    if train.len() == 0 {
        Seq::empty()
    } else {
        train_runs(train.drop_last(), sample_rate) + signal::packet_runs(
            train.last().bits,
            sample_rate,
        ).push(train.last().gap as usize)
    }
}

/// The packets of a press, the last of them followed by its pause.
spec fn press_train(bits: u64, repeats: nat, pause: nat, sample_rate: u32) -> Seq<SentPacket> {
    Seq::new(
        repeats,
        |j: int|
            SentPacket {
                bits,
                gap: if j == repeats - 1 {
                    pause
                } else {
                    timing::samples_in(timing::INTER_PACKET_GAP_US, sample_rate) as nat
                },
            },
    )
}

/// The packets of several presses.
spec fn train_of(presses: Seq<SentPress>, sample_rate: u32) -> Seq<SentPacket>
    decreases presses.len(),
{
    if presses.len() == 0 {
        Seq::empty()
    } else {
        let last = presses.last();
        train_of(presses.drop_last(), sample_rate) + press_train(
            packet::packet_word(last.cmd, last.counter),
            last.repeats,
            last.pause,
            sample_rate,
        )
    }
}

proof fn lemma_train_concat(a: Seq<SentPacket>, b: Seq<SentPacket>, sample_rate: u32)
    ensures
        train_signal(a + b, sample_rate) == train_signal(a, sample_rate) + train_signal(
            b,
            sample_rate,
        ),
    decreases b.len(),
{
    if b.len() == 0 {
        assert(a + b =~= a);
        assert(train_signal(a, sample_rate) + train_signal(b, sample_rate) =~= train_signal(
            a,
            sample_rate,
        ));
    } else {
        lemma_train_concat(a, b.drop_last(), sample_rate);
        assert((a + b).drop_last() =~= a + b.drop_last());
        assert(train_signal(a + b, sample_rate) =~= train_signal(a, sample_rate) + train_signal(
            b,
            sample_rate,
        ));
    }
}

/// The samples of a press are those of its packets.
proof fn lemma_train_of_press(bits: u64, repeats: nat, pause: nat, sample_rate: u32)
    requires
        repeats > 0,
    ensures
        signal::waveform(signal::press_runs(bits, repeats, sample_rate)) + signal::steady(
            false,
            pause,
        ) == train_signal(press_train(bits, repeats, pause, sample_rate), sample_rate),
    decreases repeats,
{
    let train = press_train(bits, repeats, pause, sample_rate);
    let one = signal::packet_runs(bits, sample_rate);
    let gap = timing::samples_in(timing::INTER_PACKET_GAP_US, sample_rate);
    if repeats == 1 {
        assert(train.drop_last() =~= Seq::empty());
        assert(train_signal(train.drop_last(), sample_rate) + signal::packet_signal(
            bits,
            sample_rate,
        ) =~= signal::waveform(one));
    } else {
        let fewer = (repeats - 1) as nat;
        let before = signal::press_runs(bits, fewer, sample_rate);
        lemma_train_of_press(bits, fewer, gap as nat, sample_rate);
        assert(train.drop_last() =~= press_train(bits, fewer, gap as nat, sample_rate));
        signal::lemma_press_runs_len(bits, fewer, sample_rate);
        assert(before.push(gap).drop_last() =~= before);
        signal::lemma_waveform_concat(before.push(gap), one);
    }
}

/// The samples of several presses are those of their packets.
proof fn lemma_train_of_presses(presses: Seq<SentPress>, sample_rate: u32)
    requires
        forall|k: int| 0 <= k < presses.len() ==> #[trigger] presses[k].repeats > 0,
    ensures
        recording_signal(presses, sample_rate) == train_signal(
            train_of(presses, sample_rate),
            sample_rate,
        ),
        recorded_packets(presses) == train_of(presses, sample_rate).map_values(
            |sent: SentPacket| sent.bits,
        ),
    decreases presses.len(),
{
    let train = train_of(presses, sample_rate);
    if presses.len() > 0 {
        let before = presses.drop_last();
        let last = presses.last();
        let bits = packet::packet_word(last.cmd, last.counter);
        let added = press_train(bits, last.repeats, last.pause, sample_rate);
        assert forall|k: int| 0 <= k < before.len() implies #[trigger] before[k].repeats > 0 by {
            assert(presses[k].repeats > 0);
        }
        assert(presses[presses.len() - 1].repeats > 0);
        lemma_train_of_presses(before, sample_rate);
        lemma_train_of_press(bits, last.repeats, last.pause, sample_rate);
        lemma_train_concat(train_of(before, sample_rate), added, sample_rate);
        assert(recording_signal(presses, sample_rate) =~= recording_signal(before, sample_rate) + (
        signal::press_signal(last.cmd, last.counter, last.repeats, sample_rate) + signal::steady(
            false,
            last.pause,
        )));
    }
    assert(recorded_packets(presses) =~= train.map_values(|sent: SentPacket| sent.bits));
}

/// Every packet fits in its 40 bits, and every silence but the last is longer than
/// `least`.
proof fn lemma_train_gaps(presses: Seq<SentPress>, least: nat, sample_rate: u32)
    requires
        parted(presses, least),
        timing::samples_in(timing::INTER_PACKET_GAP_US, sample_rate) > least,
    ensures
        forall|j: int|
            0 <= j < train_of(presses, sample_rate).len() ==> #[trigger] train_of(
                presses,
                sample_rate,
            )[j].bits < 0x100_0000_0000,
        forall|j: int|
            0 <= j < train_of(presses, sample_rate).len() - 1 ==> #[trigger] train_of(
                presses,
                sample_rate,
            )[j].gap > least,
        presses.len() > 0 ==> train_of(presses, sample_rate).len() > 0 && train_of(
            presses,
            sample_rate,
        ).last().gap == presses.last().pause,
    decreases presses.len(),
{
    if presses.len() > 0 {
        let before = presses.drop_last();
        let last = presses.last();
        let earlier = train_of(before, sample_rate);
        let train = train_of(presses, sample_rate);
        assert forall|k: int| 0 <= k < before.len() implies #[trigger] before[k].repeats > 0 by {
            assert(presses[k].repeats > 0);
        }
        assert forall|k: int| 0 <= k < before.len() - 1 implies #[trigger] before[k].pause
            > least by {
            assert(presses[k].pause > least);
        }
        assert(presses[presses.len() - 1].repeats > 0);
        lemma_train_gaps(before, least, sample_rate);
        packet::packet_fields(last.cmd, last.counter);
        assert forall|j: int| 0 <= j < train.len() implies #[trigger] train[j].bits
            < 0x100_0000_0000 by {
            if j < earlier.len() {
                assert(train[j] == earlier[j]);
            }
        }
        assert forall|j: int| 0 <= j < train.len() - 1 implies #[trigger] train[j].gap > least by {
            if j < earlier.len() {
                assert(train[j] == earlier[j]);
                if j == earlier.len() - 1 {
                    assert(presses[presses.len() - 2].pause > least);
                }
            }
        }
    }
}

/// A silence is no longer than the signal that it is part of.
proof fn lemma_gap_fits(train: Seq<SentPacket>, sample_rate: u32, j: int)
    requires
        0 <= j < train.len(),
    ensures
        train[j].gap <= train_signal(train, sample_rate).len(),
    decreases train.len(),
{
    if j < train.len() - 1 {
        lemma_gap_fits(train.drop_last(), sample_rate, j);
    }
}

/// The samples of several packets are the waveform of their runs.
proof fn lemma_waveform_of_train(train: Seq<SentPacket>, sample_rate: u32)
    requires
        train_signal(train, sample_rate).len() <= usize::MAX,
    ensures
        train_runs(train, sample_rate).len() == 84 * train.len(),
        signal::waveform(train_runs(train, sample_rate)) == train_signal(train, sample_rate),
    decreases train.len(),
{
    if train.len() > 0 {
        let before = train.drop_last();
        let last = train.last();
        let one = signal::packet_runs(last.bits, sample_rate);
        lemma_waveform_of_train(before, sample_rate);
        let with_gap = one.push(last.gap as usize);
        assert(with_gap.drop_last() =~= one);
        signal::lemma_waveform_concat(train_runs(before, sample_rate), with_gap);
        assert(signal::waveform(with_gap) == signal::packet_signal(last.bits, sample_rate)
            + signal::steady(false, last.gap));
        assert(train_signal(train, sample_rate) =~= train_signal(before, sample_rate) + (
        signal::packet_signal(last.bits, sample_rate) + signal::steady(false, last.gap)));
    }
}

/// Where packet `j` and the silence behind it stand in the runs.
proof fn lemma_packet_in_train(train: Seq<SentPacket>, sample_rate: u32, j: int)
    requires
        0 <= j < train.len(),
    ensures
        train_runs(train, sample_rate).len() == 84 * train.len(),
        train_runs(train, sample_rate).subrange(84 * j, 84 * j + 83) == signal::packet_runs(
            train[j].bits,
            sample_rate,
        ),
        train_runs(train, sample_rate)[84 * j + 83] == train[j].gap as usize,
    decreases train.len(),
{
    let runs = train_runs(train, sample_rate);
    let before = train.drop_last();
    let earlier = train_runs(before, sample_rate);
    if before.len() > 0 {
        lemma_packet_in_train(
            before,
            sample_rate,
            if j < before.len() {
                j
            } else {
                0
            },
        );
    }
    assert(earlier.len() == 84 * before.len());
    if j < before.len() {
        assert(runs.subrange(84 * j, 84 * j + 83) =~= earlier.subrange(84 * j, 84 * j + 83));
    } else {
        assert(runs.subrange(84 * j, 84 * j + 83) =~= signal::packet_runs(
            train[j].bits,
            sample_rate,
        ));
    }
}

/// No run of several packets is as short as `least`, but for the silence at the end.
proof fn lemma_long_runs(train: Seq<SentPacket>, least: nat, sample_rate: u32, i: int)
    requires
        0 <= i < 84 * train.len() - 1,
        timing::samples_in(timing::DATA_ON_US, sample_rate) > least,
        forall|j: int| 0 <= j < train.len() - 1 ==> #[trigger] train[j].gap > least,
        forall|j: int| 0 <= j < train.len() ==> #[trigger] train[j].gap <= usize::MAX,
    ensures
        train_runs(train, sample_rate)[i] > least,
{
    let runs = train_runs(train, sample_rate);
    let j = i / 84;
    let k = i % 84;
    lemma_packet_in_train(train, sample_rate, j);
    smoothing::lemma_shortest_run(train[j].bits, sample_rate);
    if k < 83 {
        assert(runs[i] == runs.subrange(84 * j, 84 * j + 83)[k]);
    } else {
        assert(train[j].gap > least);
    }
}

/// Several packets, smoothed and sliced, decode to themselves.
proof fn lemma_smoothed_train(
    train: Seq<SentPacket>,
    sample_rate: u32,
    lead: nat,
    reach: nat,
    sliced: Seq<bool>,
    runs: Seq<usize>,
)
    requires
        train.len() > 0,
        smoothing::tolerated(reach, sample_rate),
        forall|j: int| 0 <= j < train.len() ==> #[trigger] train[j].bits < 0x100_0000_0000,
        forall|j: int| 0 <= j < train.len() - 1 ==> #[trigger] train[j].gap > 2 * reach,
        lead + train_signal(train, sample_rate).len() <= usize::MAX,
        envelope::slices(
            signal::steady(false, lead) + train_signal(train, sample_rate),
            reach,
            sliced,
        ),
        decode::are_run_lengths(sliced, runs),
    ensures
        decode::packets_in(runs, sample_rate) == train.map_values(|sent: SentPacket| sent.bits),
{
    let packets = train.map_values(|sent: SentPacket| sent.bits);
    let all = train_runs(train, sample_rate);
    let sent = all.drop_last();
    let trail = train.last().gap;
    assert forall|j: int| 0 <= j < train.len() implies #[trigger] train[j].gap <= usize::MAX by {
        lemma_gap_fits(train, sample_rate, j);
    }
    lemma_waveform_of_train(train, sample_rate);
    lemma_packet_in_train(train, sample_rate, train.len() - 1);
    assert(all.last() == trail);
    assert forall|k: int| 0 <= k < sent.len() implies #[trigger] sent[k] > 2 * reach by {
        lemma_long_runs(train, 2 * reach, sample_rate, k);
    }
    assert(signal::steady(false, lead) + train_signal(train, sample_rate) =~= signal::steady(
        false,
        lead,
    ) + signal::waveform(sent) + signal::steady(false, trail));
    smoothing::lemma_smoothed_runs(lead, sent, trail, reach, sliced, runs);
    assert forall|j: int| 0 <= j < packets.len() implies #[trigger] packets[j] < 0x100_0000_0000
        && round_trip::legible(runs, 84 * j, packets[j], sample_rate) by {
        lemma_packet_in_train(train, sample_rate, j);
        assert(sent.subrange(84 * j, 84 * j + 83) =~= all.subrange(84 * j, 84 * j + 83));
        assert(train[j].bits < 0x100_0000_0000);
        smoothing::lemma_smoothed_is_legible(
            runs,
            sent,
            packets[j],
            sample_rate,
            reach,
            84 * j,
        );
    }
    round_trip::legible_packets_decode(runs, packets, sample_rate);
}

/// A recording of several presses, smoothed and sliced, decodes to their packets in
/// the order in which they were sent, each as often as it was repeated.
pub proof fn smoothed_recording_round_trip(
    presses: Seq<SentPress>,
    sample_rate: u32,
    lead: nat,
    reach: nat,
    sliced: Seq<bool>,
    runs: Seq<usize>,
)
    requires
        presses.len() == 0 || smoothing::tolerated(reach, sample_rate),
        parted(presses, 2 * reach),
        lead + recording_signal(presses, sample_rate).len() <= usize::MAX,
        envelope::slices(
            signal::steady(false, lead) + recording_signal(presses, sample_rate),
            reach,
            sliced,
        ),
        decode::are_run_lengths(sliced, runs),
    ensures
        decode::packets_in(runs, sample_rate) == recorded_packets(presses),
{
    lemma_train_of_presses(presses, sample_rate);
    if presses.len() == 0 {
        assert(signal::steady(false, lead) + recording_signal(presses, sample_rate)
            =~= signal::steady(false, lead));
        smoothing::lemma_smoothed_silence(lead, reach, sliced, runs);
    } else {
        smoothing::lemma_shortest_run(0, sample_rate);
        lemma_train_gaps(presses, 2 * reach, sample_rate);
        lemma_smoothed_train(
            train_of(presses, sample_rate),
            sample_rate,
            lead,
            reach,
            sliced,
            runs,
        );
    }
}

/// A window of one sample changes nothing.
proof fn lemma_unsmoothed(levels: Seq<bool>)
    ensures
        envelope::slices(levels, 0, levels),
{
    assert forall|i: int| 0 <= i < levels.len() implies #[trigger] envelope::window_ons(
        levels,
        i,
        0,
    ) == if levels[i] {
        1nat
    } else {
        0nat
    } by {
        assert(envelope::ons(levels, i, i) == 0);
    }
    assert forall|i: int, j: int|
        0 <= i < levels.len() && 0 <= j < levels.len() && #[trigger] envelope::no_more_carrier(
            levels,
            i,
            j,
            0,
        ) && levels[i] implies levels[j] by {
        assert(envelope::window_width(levels, i, 0) == 1);
        assert(envelope::window_width(levels, j, 0) == 1);
        assert(envelope::window_ons(levels, i, 0) == 1);
        let (on_i, on_j) = (
            envelope::window_ons(levels, i, 0),
            envelope::window_ons(levels, j, 0),
        );
        let (width_i, width_j) = (
            envelope::window_width(levels, i, 0),
            envelope::window_width(levels, j, 0),
        );
        assert(on_j >= 1) by (nonlinear_arith)
            requires
                on_i * width_j <= on_j * width_i,
                on_i == 1,
                width_i == 1,
                width_j == 1,
        ;
    }
}

/// A recording of several presses with silence between them decodes to their packets
/// in the order in which they were sent, each as often as it was repeated.
pub proof fn recording_round_trip(
    presses: Seq<SentPress>,
    sample_rate: u32,
    lead: nat,
    runs: Seq<usize>,
)
    requires
        presses.len() == 0 || timing::resolvable(sample_rate),
        parted(presses, 0),
        lead + recording_signal(presses, sample_rate).len() <= usize::MAX,
        decode::are_run_lengths(
            signal::steady(false, lead) + recording_signal(presses, sample_rate),
            runs,
        ),
    ensures
        decode::packets_in(runs, sample_rate) == recorded_packets(presses),
{
    let levels = signal::steady(false, lead) + recording_signal(presses, sample_rate);
    if presses.len() > 0 {
        timing::resolvable_separates(sample_rate);
    }
    lemma_unsmoothed(levels);
    smoothed_recording_round_trip(presses, sample_rate, lead, 0, levels, runs);
}

} // verus!
