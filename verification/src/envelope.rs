//! The slicer, which makes carrier on and off out of a received signal: it smooths
//! the signal and compares it with a fraction of its peak.

use vstd::prelude::*;

verus! {

/// The first sample of the window around sample `i`.
pub open spec fn window_low(i: int, reach: nat) -> int {
    if i >= reach {
        i - reach
    } else {
        0
    }
}

/// The sample behind the last of the window around sample `i` of `n`.
pub open spec fn window_high(i: int, reach: nat, n: nat) -> int {
    if i + reach + 1 <= n {
        i + reach + 1
    } else {
        n as int
    }
}

/// How many samples a smoothing window of a given width reaches to either side. It
/// is never narrower than one sample.
pub fn window_reach(width: usize) -> (reach: usize)
    ensures
        reach == width / 2,
{
    width / 2
}

/// The samples that are averaged for sample `i` of `n`: those up to `reach` away,
/// from the first to one behind the last, as far as there are any.
pub fn window(i: usize, reach: usize, n: usize) -> (bounds: (usize, usize))
    requires
        i < n,
    ensures
        bounds.0 == window_low(i as int, reach as nat),
        bounds.1 == window_high(i as int, reach as nat, n as nat),
        bounds.0 <= i < bounds.1 <= n,
        bounds.0 == 0 || bounds.0 + reach == i,
        bounds.0 == 0 ==> i <= reach,
        bounds.1 == n || bounds.1 == i + reach + 1,
        bounds.1 == n ==> i + reach + 1 >= n,
{
    let low: usize = if i >= reach {
        i - reach
    } else {
        0
    };
    let high: usize = if reach < n - i {
        i + reach + 1
    } else {
        n
    };
    (low, high)
}

/// How many of the samples from `low` up to `high` have the carrier on.
pub open spec fn ons(levels: Seq<bool>, low: int, high: int) -> nat
    decreases high - low,
{
    if high <= low {
        0
    } else {
        ons(levels, low, high - 1) + if levels[high - 1] {
            1nat
        } else {
            0nat
        }
    }
}

/// How many samples in the window around sample `i` have the carrier on.
pub open spec fn window_ons(levels: Seq<bool>, i: int, reach: nat) -> nat {
    ons(levels, window_low(i, reach), window_high(i, reach, levels.len()))
}

/// How many samples there are in the window around sample `i`.
pub open spec fn window_width(levels: Seq<bool>, i: int, reach: nat) -> int {
    window_high(i, reach, levels.len()) - window_low(i, reach)
}

/// The share of carrier in the window around `i` is no greater than that around `j`.
pub open spec fn no_more_carrier(levels: Seq<bool>, i: int, j: int, reach: nat) -> bool {
    window_ons(levels, i, reach) * window_width(levels, j, reach) <= window_ons(levels, j, reach)
        * window_width(levels, i, reach)
}

/// `sliced` is `levels` smoothed over windows and sliced. The average over a window
/// is the share of carrier in it, which is compared with a bound: so a window full
/// of carrier gives on, one without any gives off, and more carrier never gives
/// less. Which bound it is, between none and all, is left open, and so is how
/// averages are rounded.
pub open spec fn slices(levels: Seq<bool>, reach: nat, sliced: Seq<bool>) -> bool {
    &&& sliced.len() == levels.len()
    &&& forall|i: int|
        0 <= i < levels.len() && window_ons(levels, i, reach) == window_width(levels, i, reach)
            ==> #[trigger] sliced[i]
    &&& forall|i: int|
        0 <= i < levels.len() && window_ons(levels, i, reach) == 0 ==> !#[trigger] sliced[i]
    &&& forall|i: int, j: int|
        0 <= i < levels.len() && 0 <= j < levels.len() && #[trigger] no_more_carrier(
            levels,
            i,
            j,
            reach,
        ) && sliced[i] ==> sliced[j]
}

} // verus!
