//! What the receiving side makes of a press once its signal has been smoothed.

use crate::button::Button;
use crate::decode;
use crate::envelope;
use crate::packet;
use crate::round_trip;
use crate::signal;
use crate::timing;
use crate::transmit;
use vstd::prelude::*;

verus! {

/// `levels` changes at `edges` and nowhere else: off up to the first, on up to the
/// second, and so on in turn, the last level up to the end.
spec fn keyed(levels: Seq<bool>, edges: Seq<int>) -> bool {
    &&& edges.len() > 0
    &&& forall|k: int| 0 <= k < edges.len() ==> 0 <= #[trigger] edges[k] <= levels.len()
    &&& forall|i: int| 0 <= i < edges[0] ==> !#[trigger] levels[i]
    &&& forall|k: int, i: int| #[trigger]
        in_segment(levels, edges, k, i) ==> levels[i] == (k % 2 == 0)
}

/// Sample `i` lies behind edge `k` and before the next.
spec fn in_segment(levels: Seq<bool>, edges: Seq<int>, k: int, i: int) -> bool {
    0 <= k < edges.len() && edges[k] <= i < segment_end(levels, edges, k)
}

/// Where the level ends that begins at edge `k`.
spec fn segment_end(levels: Seq<bool>, edges: Seq<int>, k: int) -> int {
    if k + 1 < edges.len() {
        edges[k + 1]
    } else {
        levels.len() as int
    }
}

/// Each edge has a whole window before the next.
spec fn well_apart(edges: Seq<int>, reach: nat) -> bool {
    forall|k: int| 0 <= k < edges.len() - 1 ==> #[trigger] edges[k] + 2 * reach < edges[k + 1]
}

proof fn lemma_ons_split(levels: Seq<bool>, low: int, middle: int, high: int)
    requires
        low <= middle <= high,
    ensures
        envelope::ons(levels, low, high) == envelope::ons(levels, low, middle) + envelope::ons(
            levels,
            middle,
            high,
        ),
    decreases high - middle,
{
    if middle < high {
        lemma_ons_split(levels, low, middle, high - 1);
    }
}

proof fn lemma_ons_steady(levels: Seq<bool>, low: int, high: int, level: bool)
    requires
        low <= high,
        forall|i: int| low <= i < high ==> #[trigger] levels[i] == level,
    ensures
        envelope::ons(levels, low, high) == if level {
            high - low
        } else {
            0
        },
    decreases high - low,
{
    if low < high {
        assert(levels[high - 1] == level);
        lemma_ons_steady(levels, low, high - 1, level);
    }
}

/// A sample whose window lies within one level is sliced to that level.
proof fn lemma_steady_window(
    levels: Seq<bool>,
    reach: nat,
    sliced: Seq<bool>,
    i: int,
    level: bool,
)
    requires
        envelope::slices(levels, reach, sliced),
        0 <= i < levels.len(),
        forall|j: int|
            envelope::window_low(i, reach) <= j < envelope::window_high(i, reach, levels.len())
                ==> #[trigger] levels[j] == level,
    ensures
        sliced[i] == level,
{
    lemma_ons_steady(
        levels,
        envelope::window_low(i, reach),
        envelope::window_high(i, reach, levels.len()),
        level,
    );
}

/// The samples around edge `k` that are near enough for their windows to reach over it.
spec fn near_edge(levels: Seq<bool>, edges: Seq<int>, reach: nat, k: int, i: int) -> bool {
    0 <= i < levels.len() && edges[k] - reach <= i < edges[k] + reach
}

/// How much carrier there is in a window that reaches over edge `k`.
proof fn lemma_window_over_edge(
    levels: Seq<bool>,
    edges: Seq<int>,
    reach: nat,
    k: int,
    i: int,
)
    requires
        keyed(levels, edges),
        well_apart(edges, reach),
        0 <= k < edges.len(),
        near_edge(levels, edges, reach, k, i),
    ensures
        envelope::window_low(i, reach) <= edges[k] <= envelope::window_high(
            i,
            reach,
            levels.len(),
        ),
        envelope::window_ons(levels, i, reach) == if k % 2 == 0 {
            envelope::window_high(i, reach, levels.len()) - edges[k]
        } else {
            edges[k] - envelope::window_low(i, reach)
        },
{
    let low = envelope::window_low(i, reach);
    let high = envelope::window_high(i, reach, levels.len());
    assert forall|j: int| low <= j < edges[k] implies #[trigger] levels[j] == (k % 2 != 0) by {
        if k > 0 {
            assert(edges[k - 1] + 2 * reach < edges[k]);
            assert(in_segment(levels, edges, k - 1, j));
        }
    }
    assert forall|j: int| edges[k] <= j < high implies #[trigger] levels[j] == (k % 2 == 0) by {
        if k < edges.len() - 1 {
            assert(edges[k] + 2 * reach < edges[k + 1]);
        }
        assert(in_segment(levels, edges, k, j));
    }
    lemma_ons_split(levels, low, edges[k], high);
    lemma_ons_steady(levels, low, edges[k], k % 2 != 0);
    lemma_ons_steady(levels, edges[k], high, k % 2 == 0);
}

/// Around an edge, a smoothed signal changes once: what has the level behind the
/// edge keeps it.
proof fn lemma_once_over_edge(
    levels: Seq<bool>,
    edges: Seq<int>,
    reach: nat,
    sliced: Seq<bool>,
    k: int,
    i: int,
    j: int,
)
    requires
        keyed(levels, edges),
        well_apart(edges, reach),
        envelope::slices(levels, reach, sliced),
        0 <= k < edges.len(),
        near_edge(levels, edges, reach, k, i),
        near_edge(levels, edges, reach, k, j),
        i <= j,
        sliced[i] == (k % 2 == 0),
    ensures
        sliced[j] == (k % 2 == 0),
{
    lemma_window_over_edge(levels, edges, reach, k, i);
    lemma_window_over_edge(levels, edges, reach, k, j);
    let before_i = edges[k] - envelope::window_low(i, reach);
    let before_j = edges[k] - envelope::window_low(j, reach);
    let behind_i = envelope::window_high(i, reach, levels.len()) - edges[k];
    let behind_j = envelope::window_high(j, reach, levels.len()) - edges[k];
    assert(before_j <= before_i && behind_i <= behind_j);
    assert(envelope::window_width(levels, i, reach) == before_i + behind_i);
    assert(envelope::window_width(levels, j, reach) == before_j + behind_j);
    if k % 2 == 0 {
        assert(behind_i * (before_j + behind_j) <= behind_j * (before_i + behind_i))
            by (nonlinear_arith)
            requires
                0 <= before_j <= before_i,
                0 <= behind_i <= behind_j,
        ;
        assert(envelope::no_more_carrier(levels, i, j, reach));
    } else {
        assert(before_j * (before_i + behind_i) <= before_i * (before_j + behind_j))
            by (nonlinear_arith)
            requires
                0 <= before_j <= before_i,
                0 <= behind_i <= behind_j,
        ;
        assert(envelope::no_more_carrier(levels, j, i, reach));
    }
}

/// The first sample from `from` up to `to` that has a level, or `to` where none has.
spec fn first_with(levels: Seq<bool>, level: bool, from: int, to: int) -> int
    decreases to - from,
{
    if from >= to || levels[from] == level {
        from
    } else {
        first_with(levels, level, from + 1, to)
    }
}

proof fn lemma_first_with(levels: Seq<bool>, level: bool, from: int, to: int)
    requires
        from <= to,
    ensures
        from <= first_with(levels, level, from, to) <= to,
        forall|i: int|
            from <= i < first_with(levels, level, from, to) ==> #[trigger] levels[i] != level,
        first_with(levels, level, from, to) < to ==> levels[first_with(levels, level, from, to)]
            == level,
    decreases to - from,
{
    if from < to && levels[from] != level {
        lemma_first_with(levels, level, from + 1, to);
    }
}

/// Where edge `k` comes to lie in the smoothed signal.
spec fn moved_edge(edges: Seq<int>, reach: nat, sliced: Seq<bool>, k: int) -> int {
    first_with(
        sliced,
        k % 2 == 0,
        if edges[k] >= reach {
            edges[k] - reach
        } else {
            0
        },
        if edges[k] + reach <= sliced.len() {
            edges[k] + reach
        } else {
            sliced.len() as int
        },
    )
}

/// All edges as they come to lie in the smoothed signal.
spec fn moved_edges(edges: Seq<int>, reach: nat, sliced: Seq<bool>) -> Seq<int> {
    Seq::new(edges.len(), |k: int| moved_edge(edges, reach, sliced, k))
}

/// An edge moves by the reach of the window at most, and parts the samples around it.
proof fn lemma_moved_edge(
    levels: Seq<bool>,
    edges: Seq<int>,
    reach: nat,
    sliced: Seq<bool>,
    k: int,
)
    requires
        keyed(levels, edges),
        well_apart(edges, reach),
        envelope::slices(levels, reach, sliced),
        0 <= k < edges.len(),
    ensures
        edges[k] - reach <= moved_edge(edges, reach, sliced, k) <= edges[k] + reach,
        0 <= moved_edge(edges, reach, sliced, k) <= levels.len(),
        forall|i: int|
            near_edge(levels, edges, reach, k, i) ==> (#[trigger] sliced[i] == (k % 2 == 0) <==> i
                >= moved_edge(edges, reach, sliced, k)),
{
    let at = moved_edge(edges, reach, sliced, k);
    assert(0 <= edges[k] <= levels.len());
    let from = if edges[k] >= reach {
        edges[k] - reach
    } else {
        0
    };
    let to = if edges[k] + reach <= sliced.len() {
        edges[k] + reach
    } else {
        sliced.len() as int
    };
    lemma_first_with(sliced, k % 2 == 0, from, to);
    assert forall|i: int| near_edge(levels, edges, reach, k, i) implies (#[trigger] sliced[i] == (k
        % 2 == 0) <==> i >= at) by {
        if i >= at {
            lemma_once_over_edge(levels, edges, reach, sliced, k, at, i);
        }
    }
}

/// Between two edges that have moved, a smoothed signal has one level.
proof fn lemma_smoothed_segment(
    levels: Seq<bool>,
    edges: Seq<int>,
    reach: nat,
    sliced: Seq<bool>,
    k: int,
    i: int,
)
    requires
        keyed(levels, edges),
        well_apart(edges, reach),
        envelope::slices(levels, reach, sliced),
        in_segment(sliced, moved_edges(edges, reach, sliced), k, i),
    ensures
        sliced[i] == (k % 2 == 0),
{
    lemma_moved_edge(levels, edges, reach, sliced, k);
    if k < edges.len() - 1 {
        lemma_moved_edge(levels, edges, reach, sliced, k + 1);
    }
    if i < edges[k] + reach {
        assert(near_edge(levels, edges, reach, k, i));
    } else if k < edges.len() - 1 && i >= edges[k + 1] - reach {
        assert(near_edge(levels, edges, reach, k + 1, i));
    } else {
        let low = envelope::window_low(i, reach);
        let high = envelope::window_high(i, reach, levels.len());
        assert forall|j: int| low <= j < high implies #[trigger] levels[j] == (k % 2 == 0) by {
            assert(in_segment(levels, edges, k, j));
        }
        lemma_steady_window(levels, reach, sliced, i, k % 2 == 0);
    }
}

/// Smoothing moves the edges of a signal, and does nothing else.
proof fn lemma_smoothed_is_keyed(
    levels: Seq<bool>,
    edges: Seq<int>,
    reach: nat,
    sliced: Seq<bool>,
)
    requires
        keyed(levels, edges),
        well_apart(edges, reach),
        envelope::slices(levels, reach, sliced),
    ensures
        keyed(sliced, moved_edges(edges, reach, sliced)),
{
    let moved = moved_edges(edges, reach, sliced);
    assert forall|k: int| 0 <= k < moved.len() implies 0 <= #[trigger] moved[k] <= sliced.len() by {
        lemma_moved_edge(levels, edges, reach, sliced, k);
    }
    assert forall|i: int| 0 <= i < moved[0] implies !#[trigger] sliced[i] by {
        lemma_moved_edge(levels, edges, reach, sliced, 0);
        if i < edges[0] - reach {
            lemma_steady_window(levels, reach, sliced, i, false);
        } else {
            assert(near_edge(levels, edges, reach, 0, i));
        }
    }
    assert forall|k: int, i: int| #[trigger]
        in_segment(sliced, moved, k, i) implies sliced[i] == (k % 2 == 0) by {
        lemma_smoothed_segment(levels, edges, reach, sliced, k, i);
    }
}

/// The distances between edges.
spec fn distances(edges: Seq<int>) -> Seq<usize> {
    Seq::new((edges.len() - 1) as nat, |k: int| (edges[k + 1] - edges[k]) as usize)
}

/// The waveform of the distances between edges is the signal between them.
proof fn lemma_waveform_of_edges(levels: Seq<bool>, edges: Seq<int>, n: int)
    requires
        keyed(levels, edges),
        well_apart(edges, 0),
        levels.len() <= usize::MAX,
        0 <= n < edges.len(),
    ensures
        edges[0] <= edges[n],
        signal::waveform(distances(edges).take(n)) == levels.subrange(edges[0], edges[n]),
    decreases n,
{
    let runs = distances(edges);
    if n == 0 {
        assert(levels.subrange(edges[0], edges[0]) =~= Seq::empty());
    } else {
        lemma_waveform_of_edges(levels, edges, n - 1);
        assert(edges[n - 1] < edges[n]);
        assert(runs.take(n).drop_last() =~= runs.take(n - 1));
        assert(runs.take(n).last() == edges[n] - edges[n - 1]);
        let run = signal::steady(n % 2 == 1, (edges[n] - edges[n - 1]) as nat);
        assert forall|i: int| 0 <= i < run.len() implies #[trigger] run[i] == levels[edges[n - 1]
            + i] by {
            let at = edges[n - 1] + i;
            assert(in_segment(levels, edges, n - 1, at));
            assert(levels[at] == ((n - 1) % 2 == 0));
        }
        assert(levels.subrange(edges[0], edges[n]) =~= levels.subrange(edges[0], edges[n - 1])
            + run);
    }
}

/// The run lengths of a signal that is off behind its last edge: the distances
/// between its edges, and what silence there is at the end.
proof fn lemma_runs_of_edges(levels: Seq<bool>, edges: Seq<int>, runs: Seq<usize>)
    requires
        keyed(levels, edges),
        well_apart(edges, 0),
        levels.len() <= usize::MAX,
        edges.len() % 2 == 0,
        decode::are_run_lengths(levels, runs),
    ensures
        edges.len() - 1 <= runs.len() <= edges.len(),
        forall|k: int|
            0 <= k < edges.len() - 1 ==> #[trigger] runs[k] == edges[k + 1] - edges[k],
{
    let between = distances(edges);
    let m = edges.len() - 1;
    let rest = levels.len() - edges[m];
    let expected = if rest > 0 {
        between.push(rest as usize)
    } else {
        between
    };
    lemma_waveform_of_edges(levels, edges, m);
    assert(between.take(m) =~= between);
    if rest > 0 {
        assert(expected.drop_last() =~= between);
        assert(expected.last() == rest);
    }
    assert forall|k: int| 0 <= k < expected.len() implies #[trigger] expected[k] > 0 by {
        if k < m {
            assert(edges[k] < edges[k + 1]);
        }
    }
    let sounding = signal::waveform(expected);
    let tail = signal::steady(false, rest as nat);
    assert forall|i: int| 0 <= i < tail.len() implies #[trigger] tail[i] == levels[edges[m] + i] by {
        let at = edges[m] + i;
        assert(in_segment(levels, edges, m, at));
        assert(levels[at] == (m % 2 == 0));
    }
    assert(sounding =~= levels.subrange(edges[0], edges[m]) + tail);
    assert(levels =~= signal::steady(false, edges[0] as nat) + sounding);
    round_trip::run_lengths_are_unique(levels, runs, expected);
    assert forall|k: int| 0 <= k < m implies #[trigger] runs[k] == edges[k + 1] - edges[k] by {
        assert(edges[k] < edges[k + 1]);
        assert(runs[k] == between[k]);
    }
}

/// Which level a waveform has within its run `k`.
pub(crate) proof fn lemma_waveform_at(runs: Seq<usize>, k: int, i: int)
    requires
        0 <= k < runs.len(),
        signal::waveform(runs.take(k)).len() <= i < signal::waveform(runs.take(k + 1)).len(),
    ensures
        i < signal::waveform(runs).len(),
        signal::waveform(runs)[i] == (k % 2 == 0),
    decreases runs.len(),
{
    let before = runs.drop_last();
    if k == runs.len() - 1 {
        assert(runs.take(k) =~= before);
        assert(runs.take(k + 1) =~= runs);
    } else {
        assert(before.take(k) =~= runs.take(k));
        assert(before.take(k + 1) =~= runs.take(k + 1));
        lemma_waveform_at(before, k, i);
    }
}

/// The edges of a waveform behind some silence.
spec fn waveform_edges(lead: nat, runs: Seq<usize>) -> Seq<int> {
    Seq::new(runs.len() + 1, |k: int| lead + signal::waveform(runs.take(k)).len() as int)
}

/// A waveform with silence before and after it changes at its edges.
proof fn lemma_waveform_is_keyed(lead: nat, runs: Seq<usize>, trail: nat)
    requires
        runs.len() % 2 == 1,
    ensures
        keyed(
            signal::steady(false, lead) + signal::waveform(runs) + signal::steady(false, trail),
            waveform_edges(lead, runs),
        ),
        forall|k: int|
            0 <= k < runs.len() ==> #[trigger] waveform_edges(lead, runs)[k] + runs[k]
                == waveform_edges(lead, runs)[k + 1],
{
    let edges = waveform_edges(lead, runs);
    let levels = signal::steady(false, lead) + signal::waveform(runs) + signal::steady(false, trail);
    assert forall|k: int| 0 <= k < runs.len() implies #[trigger] edges[k] + runs[k] == edges[k
        + 1] by {
        signal::lemma_waveform_step(runs, k);
    }
    assert(runs.take(0) =~= Seq::empty());
    assert(runs.take(runs.len() as int) =~= runs);
    assert(edges[0] == lead);
    assert forall|k: int| 0 <= k < edges.len() implies 0 <= #[trigger] edges[k] <= levels.len() by {
        if k < runs.len() {
            signal::lemma_waveform_step(runs, k);
        }
    }
    assert forall|k: int, i: int|
        #[trigger] in_segment(levels, edges, k, i) implies levels[i] == (k % 2 == 0) by {
        if k < runs.len() {
            lemma_waveform_at(runs, k, i - lead);
        }
    }
}

/// No run of a packet, and no gap between two, is shorter than a burst of a data bit.
pub(crate) proof fn lemma_shortest_run(packet_bits: u64, sample_rate: u32)
    ensures
        forall|i: int|
            0 <= i < 83 ==> #[trigger] signal::packet_runs(packet_bits, sample_rate)[i]
                >= timing::samples_in(timing::DATA_ON_US, sample_rate),
        timing::samples_in(timing::INTER_PACKET_GAP_US, sample_rate) >= timing::samples_in(
            timing::DATA_ON_US,
            sample_rate,
        ),
{
    let (burst, rate) = (timing::DATA_ON_US, sample_rate);
    timing::samples_are_monotone(burst, timing::PREAMBLE_ON_US, rate, rate);
    timing::samples_are_monotone(burst, timing::SYNC_OFF_US, rate, rate);
    timing::samples_are_monotone(burst, timing::SHORT_OFF_US, rate, rate);
    timing::samples_are_monotone(burst, timing::LONG_OFF_US, rate, rate);
    timing::samples_are_monotone(burst, timing::INTER_PACKET_GAP_US, rate, rate);
}

/// No run of a press is shorter than a burst of a data bit.
proof fn lemma_shortest_press_run(packet_bits: u64, repeats: nat, sample_rate: u32, i: int)
    requires
        0 <= i < signal::press_runs(packet_bits, repeats, sample_rate).len(),
    ensures
        signal::press_runs(packet_bits, repeats, sample_rate)[i] >= timing::samples_in(
            timing::DATA_ON_US,
            sample_rate,
        ),
    decreases repeats,
{
    lemma_shortest_run(packet_bits, sample_rate);
    if repeats > 1 {
        let before = signal::press_runs(packet_bits, (repeats - 1) as nat, sample_rate);
        let one = signal::packet_runs(packet_bits, sample_rate);
        let all = signal::press_runs(packet_bits, repeats, sample_rate);
        if i < before.len() {
            lemma_shortest_press_run(packet_bits, (repeats - 1) as nat, sample_rate, i);
        } else if i > before.len() {
            assert(all[i] == one[i - before.len() - 1]);
        }
    }
}

/// A window that reaches so far to either side is tolerated at a sample rate: it is
/// shorter than every run, and runs that are off by twice its reach still lie on
/// their side of the bounds that the decoder goes by.
pub open spec fn tolerated(reach: nat, sample_rate: u32) -> bool {
    &&& 2 * reach < timing::samples_in(timing::DATA_ON_US, sample_rate)
    &&& timing::samples_in(timing::PREAMBLE_MIN_US, sample_rate) + 2 * reach < timing::samples_in(
        timing::PREAMBLE_ON_US,
        sample_rate,
    )
    &&& timing::samples_in(timing::SHORT_OFF_US, sample_rate) + 2 * reach <= timing::samples_in(
        timing::BIT_SPLIT_US,
        sample_rate,
    )
    &&& timing::samples_in(timing::BIT_SPLIT_US, sample_rate) + 2 * reach < timing::samples_in(
        timing::LONG_OFF_US,
        sample_rate,
    )
}

/// From 20 kHz on, windows of up to 400 microseconds are tolerated.
pub proof fn short_windows_are_tolerated(smooth_us: u32, sample_rate: u32)
    requires
        smooth_us <= 400,
        sample_rate >= 20_000,
    ensures
        tolerated((timing::samples_in(smooth_us, sample_rate) / 2) as nat, sample_rate),
{
    timing::samples_are_monotone(smooth_us, 400, sample_rate, sample_rate);
    timing::single_precision_error(20_000);
    timing::single_precision_is_monotone(20_000, sample_rate as nat);
    timing::lemma_samples_bounds(400, sample_rate);
    timing::lemma_samples_bounds(timing::DATA_ON_US, sample_rate);
    timing::lemma_samples_bounds(timing::SHORT_OFF_US, sample_rate);
    timing::lemma_samples_bounds(timing::BIT_SPLIT_US, sample_rate);
    timing::lemma_samples_bounds(timing::LONG_OFF_US, sample_rate);
    timing::lemma_samples_bounds(timing::PREAMBLE_MIN_US, sample_rate);
    timing::lemma_samples_bounds(timing::PREAMBLE_ON_US, sample_rate);
}

/// Each run is off by twice the reach of the window at most.
pub(crate) open spec fn nearly(runs: Seq<usize>, sent: Seq<usize>, reach: nat) -> bool {
    forall|k: int|
        0 <= k < sent.len() ==> sent[k] - 2 * reach <= #[trigger] runs[k] <= sent[k] + 2 * reach
}

/// Edges that have moved are still in order.
proof fn lemma_moved_in_order(
    levels: Seq<bool>,
    edges: Seq<int>,
    reach: nat,
    sliced: Seq<bool>,
)
    requires
        keyed(levels, edges),
        well_apart(edges, reach),
        envelope::slices(levels, reach, sliced),
    ensures
        well_apart(moved_edges(edges, reach, sliced), 0),
{
    let moved = moved_edges(edges, reach, sliced);
    assert forall|k: int| 0 <= k < moved.len() - 1 implies #[trigger] moved[k] + 2 * 0 < moved[k
        + 1] by {
        lemma_moved_edge(levels, edges, reach, sliced, k);
        lemma_moved_edge(levels, edges, reach, sliced, k + 1);
        assert(edges[k] + 2 * reach < edges[k + 1]);
    }
}

/// The runs of a signal that was smoothed are nearly the distances between its edges.
proof fn lemma_smoothed_edges(
    levels: Seq<bool>,
    edges: Seq<int>,
    reach: nat,
    sliced: Seq<bool>,
    runs: Seq<usize>,
)
    requires
        keyed(levels, edges),
        well_apart(edges, reach),
        edges.len() % 2 == 0,
        levels.len() <= usize::MAX,
        envelope::slices(levels, reach, sliced),
        decode::are_run_lengths(sliced, runs),
    ensures
        edges.len() - 1 <= runs.len() <= edges.len(),
        forall|k: int|
            0 <= k < edges.len() - 1 ==> edges[k + 1] - edges[k] - 2 * reach <= #[trigger] runs[k]
                <= edges[k + 1] - edges[k] + 2 * reach,
{
    let moved = moved_edges(edges, reach, sliced);
    lemma_smoothed_is_keyed(levels, edges, reach, sliced);
    lemma_moved_in_order(levels, edges, reach, sliced);
    lemma_runs_of_edges(sliced, moved, runs);
    assert forall|k: int| 0 <= k < edges.len() - 1 implies edges[k + 1] - edges[k] - 2 * reach
        <= #[trigger] runs[k] <= edges[k + 1] - edges[k] + 2 * reach by {
        lemma_moved_edge(levels, edges, reach, sliced, k);
        lemma_moved_edge(levels, edges, reach, sliced, k + 1);
        assert(runs[k] == moved[k + 1] - moved[k]);
    }
}

/// The runs of a waveform that was smoothed are nearly those that it was made of.
pub(crate) proof fn lemma_smoothed_runs(
    lead: nat,
    sent: Seq<usize>,
    trail: nat,
    reach: nat,
    sliced: Seq<bool>,
    runs: Seq<usize>,
)
    requires
        sent.len() % 2 == 1,
        forall|k: int| 0 <= k < sent.len() ==> #[trigger] sent[k] > 2 * reach,
        lead + signal::waveform(sent).len() + trail <= usize::MAX,
        envelope::slices(
            signal::steady(false, lead) + signal::waveform(sent) + signal::steady(false, trail),
            reach,
            sliced,
        ),
        decode::are_run_lengths(sliced, runs),
    ensures
        sent.len() <= runs.len() <= sent.len() + 1,
        nearly(runs, sent, reach),
{
    let levels = signal::steady(false, lead) + signal::waveform(sent) + signal::steady(
        false,
        trail,
    );
    let edges = waveform_edges(lead, sent);
    lemma_waveform_is_keyed(lead, sent, trail);
    assert forall|k: int| 0 <= k < edges.len() - 1 implies #[trigger] edges[k] + 2 * reach
        < edges[k + 1] by {
        assert(sent[k] > 2 * reach);
    }
    lemma_smoothed_edges(levels, edges, reach, sliced, runs);
    assert forall|k: int| 0 <= k < sent.len() implies sent[k] - 2 * reach <= #[trigger] runs[k]
        <= sent[k] + 2 * reach by {
        assert(edges[k] + sent[k] == edges[k + 1]);
    }
}

/// The silence of bit `k` of a packet is on the side of the bound where the bit belongs.
proof fn lemma_smoothed_bit(
    runs: Seq<usize>,
    sent: Seq<usize>,
    packet_bits: u64,
    sample_rate: u32,
    reach: nat,
    at: int,
    k: int,
)
    requires
        0 <= at,
        0 <= k < 40,
        at + 83 <= sent.len(),
        tolerated(reach, sample_rate),
        nearly(runs, sent, reach),
        sent.subrange(at, at + 83) == signal::packet_runs(packet_bits, sample_rate),
    ensures
        runs[at + 3 + 2 * k] > timing::samples_in(timing::BIT_SPLIT_US, sample_rate)
            <==> signal::transmitted_bit(packet_bits, k),
{
    let i = 3 + 2 * k;
    assert(sent[at + i] == sent.subrange(at, at + 83)[i]);
    assert((i - 3) / 2 == k);
    assert(sent[at + i] == if signal::transmitted_bit(packet_bits, k) {
        timing::samples_in(timing::LONG_OFF_US, sample_rate)
    } else {
        timing::samples_in(timing::SHORT_OFF_US, sample_rate)
    });
    assert(sent[at + i] - 2 * reach <= runs[at + i] <= sent[at + i] + 2 * reach);
}

/// A packet can be read in runs that are nearly those that were sent.
pub(crate) proof fn lemma_smoothed_is_legible(
    runs: Seq<usize>,
    sent: Seq<usize>,
    packet_bits: u64,
    sample_rate: u32,
    reach: nat,
    at: int,
)
    requires
        0 <= at,
        at + 83 <= sent.len(),
        tolerated(reach, sample_rate),
        nearly(runs, sent, reach),
        sent.subrange(at, at + 83) == signal::packet_runs(packet_bits, sample_rate),
    ensures
        round_trip::legible(runs, at, packet_bits, sample_rate),
{
    assert(sent[at] == sent.subrange(at, at + 83)[0]);
    assert(runs[at] >= sent[at] - 2 * reach);
    assert forall|k: int| 0 <= k < 40 implies (runs[at + 3 + 2 * k] > timing::samples_in(
        timing::BIT_SPLIT_US,
        sample_rate,
    ) <==> #[trigger] signal::transmitted_bit(packet_bits, k)) by {
        lemma_smoothed_bit(runs, sent, packet_bits, sample_rate, reach, at, k);
    }
}

/// Silence is sliced to silence, in which there are no runs.
pub(crate) proof fn lemma_smoothed_silence(
    count: nat,
    reach: nat,
    sliced: Seq<bool>,
    runs: Seq<usize>,
)
    requires
        envelope::slices(signal::steady(false, count), reach, sliced),
        decode::are_run_lengths(sliced, runs),
    ensures
        runs == Seq::<usize>::empty(),
{
    let levels = signal::steady(false, count);
    assert forall|i: int| 0 <= i < sliced.len() implies !#[trigger] sliced[i] by {
        lemma_steady_window(levels, reach, sliced, i, false);
    }
    let none = Seq::<usize>::empty();
    assert(sliced =~= signal::steady(false, sliced.len()) + signal::waveform(none));
    round_trip::run_lengths_are_unique(sliced, runs, none);
}

/// A press that was sent, with silence before and after it, then smoothed and
/// sliced, decodes to its packet, as many times as it was repeated.
pub proof fn smoothed_press_round_trip(
    cmd: u8,
    counter: u8,
    repeats: nat,
    sample_rate: u32,
    lead: nat,
    trail: nat,
    reach: nat,
    sliced: Seq<bool>,
    runs: Seq<usize>,
)
    requires
        repeats == 0 || tolerated(reach, sample_rate),
        transmit::padded_signal(cmd, counter, repeats, sample_rate, lead, trail).len()
            <= usize::MAX,
        envelope::slices(
            transmit::padded_signal(cmd, counter, repeats, sample_rate, lead, trail),
            reach,
            sliced,
        ),
        decode::are_run_lengths(sliced, runs),
    ensures
        decode::packets_in(runs, sample_rate) == Seq::new(
            repeats,
            |i: int| packet::packet_word(cmd, counter),
        ),
{
    let bits = packet::packet_word(cmd, counter);
    let levels = transmit::padded_signal(cmd, counter, repeats, sample_rate, lead, trail);
    if repeats == 0 {
        assert(levels =~= signal::steady(false, lead + trail));
        lemma_smoothed_silence(lead + trail, reach, sliced, runs);
        assert(decode::packets_in(runs, sample_rate) =~= Seq::new(repeats, |i: int| bits));
    } else {
        let sent = signal::press_runs(bits, repeats, sample_rate);
        signal::lemma_press_runs_len(bits, repeats, sample_rate);
        assert forall|k: int| 0 <= k < sent.len() implies #[trigger] sent[k] > 2 * reach by {
            lemma_shortest_press_run(bits, repeats, sample_rate, k);
        }
        lemma_smoothed_runs(lead, sent, trail, reach, sliced, runs);
        packet::packet_fields(cmd, counter);
        assert forall|j: int| 0 <= j < repeats implies #[trigger] round_trip::legible(
            runs,
            84 * j,
            bits,
            sample_rate,
        ) by {
            round_trip::lemma_packets_of_press(bits, repeats, sample_rate, j as nat);
            lemma_smoothed_is_legible(runs, sent, bits, sample_rate, reach, 84 * j);
        }
        round_trip::distorted_runs_decode(runs, bits, repeats, sample_rate);
    }
}

/// A button press as it is encoded, smoothed over up to 400 microseconds and sliced,
/// decodes to its packet, as many times as it was repeated.
pub proof fn smoothed_button_press_round_trip(
    button: Button,
    counter: u8,
    repeats: nat,
    sample_rate: u32,
    smooth_us: u32,
    sliced: Seq<bool>,
    runs: Seq<usize>,
)
    requires
        smooth_us <= 400,
        sample_rate >= 20_000,
        signal::press_signal(button.command_spec(), counter, repeats, sample_rate).len()
            <= usize::MAX,
        envelope::slices(
            signal::press_signal(button.command_spec(), counter, repeats, sample_rate),
            (timing::samples_in(smooth_us, sample_rate) / 2) as nat,
            sliced,
        ),
        decode::are_run_lengths(sliced, runs),
    ensures
        decode::packets_in(runs, sample_rate) == Seq::new(
            repeats,
            |i: int| packet::packet_word(button.command_spec(), counter),
        ),
{
    let cmd = button.command_spec();
    short_windows_are_tolerated(smooth_us, sample_rate);
    assert(transmit::padded_signal(cmd, counter, repeats, sample_rate, 0, 0)
        =~= signal::press_signal(cmd, counter, repeats, sample_rate));
    smoothed_press_round_trip(
        cmd,
        counter,
        repeats,
        sample_rate,
        0,
        0,
        (timing::samples_in(smooth_us, sample_rate) / 2) as nat,
        sliced,
        runs,
    );
}

} // verus!
