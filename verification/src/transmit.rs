//! Handing a press to the transmitter.

use crate::signal;
use vstd::prelude::*;

verus! {

/// The samples of a press with silence before and after it.
pub open spec fn padded_signal(
    cmd: u8,
    counter: u8,
    repeats: nat,
    sample_rate: u32,
    lead: nat,
    trail: nat,
) -> Seq<bool> {
    signal::steady(false, lead) + signal::press_signal(cmd, counter, repeats, sample_rate)
        + signal::steady(false, trail)
}

/// The signal of a press with `lead` samples of silence before and `trail` after it.
pub fn padded_press(
    cmd: u8,
    counter: u8,
    repeats: u32,
    sample_rate: u32,
    lead: usize,
    trail: usize,
) -> (samples: Vec<bool>)
    requires
        padded_signal(
            cmd,
            counter,
            repeats as nat,
            sample_rate,
            lead as nat,
            trail as nat,
        ).len() <= usize::MAX,
    ensures
        samples@ == padded_signal(
            cmd,
            counter,
            repeats as nat,
            sample_rate,
            lead as nat,
            trail as nat,
        ),
{
    let mut press: Vec<bool> = signal::encode_press_raw(cmd, counter, repeats, sample_rate);
    let mut samples: Vec<bool> = Vec::new();
    samples.resize(lead, false);
    assert(samples@ =~= signal::steady(false, lead as nat));
    samples.append(&mut press);
    let ghost sounding = samples@;
    samples.resize(samples.len() + trail, false);
    assert(samples@ =~= sounding + signal::steady(false, trail as nat));
    samples
}

/// A piece of a burst: the samples from `start` up to `end`, and whether they
/// end the burst.
#[derive(Copy, Clone, Debug, PartialEq, Eq, Structural)]
pub struct Chunk {
    pub start: usize,
    pub end: usize,
    pub end_of_burst: bool,
}

/// The next piece of a burst of `total` samples, of which `written` have been
/// taken, for a device that takes up to `mtu` at once.
pub open spec fn next_piece(total: nat, written: nat, mtu: nat) -> Option<Chunk> {
    if written == total {
        None
    } else if written + mtu < total {
        Some(
            Chunk { start: written as usize, end: (written + mtu) as usize, end_of_burst: false },
        )
    } else {
        Some(Chunk { start: written as usize, end: total as usize, end_of_burst: true })
    }
}

/// A burst on its way to the device, which takes it piece by piece.
#[derive(Debug)]
pub struct Burst {
    total: usize,
    written: usize,
}

impl Burst {
    /// The number of samples in the burst.
    pub closed spec fn total_spec(self) -> nat {
        self.total as nat
    }

    /// The number of samples that the device has taken.
    pub closed spec fn written_spec(self) -> nat {
        self.written as nat
    }

    /// No more samples have been taken than there are.
    #[verifier::type_invariant]
    spec fn within_bounds(self) -> bool {
        self.written <= self.total
    }

    /// A burst of which nothing has been taken yet.
    pub fn new(total: usize) -> (burst: Burst)
        ensures
            burst.total_spec() == total,
            burst.written_spec() == 0,
    {
        Burst { total, written: 0 }
    }

    /// The next piece to offer to a device that takes up to `mtu` samples at
    /// once. There is none when all has been taken.
    pub fn next_chunk(&self, mtu: usize) -> (chunk: Option<Chunk>)
        ensures
            chunk == next_piece(self.total_spec(), self.written_spec(), mtu as nat),
            chunk is None <==> self.written_spec() == self.total_spec(),
            chunk matches Some(piece) ==> {
                &&& piece.start == self.written_spec()
                &&& piece.end == if self.written_spec() + mtu <= self.total_spec() {
                    self.written_spec() + mtu
                } else {
                    self.total_spec() as int
                }
                &&& piece.end_of_burst <==> piece.end == self.total_spec()
            },
    {
        proof {
            use_type_invariant(self);
        }
        if self.written == self.total {
            return None;
        }
        let left: usize = self.total - self.written;
        let end: usize = if mtu < left {
            self.written + mtu
        } else {
            self.total
        };
        Some(Chunk { start: self.written, end, end_of_burst: end == self.total })
    }

    /// Notes that the device has taken `count` more samples.
    pub fn advance(&mut self, count: usize)
        requires
            old(self).written_spec() + count <= old(self).total_spec(),
        ensures
            final(self).total_spec() == old(self).total_spec(),
            final(self).written_spec() == old(self).written_spec() + count,
    {
        self.written = self.written + count;
    }
}

/// A piece begins where the device stopped, holds as much as the device takes at once
/// as far as there is any, and is marked as the end of the burst exactly when it
/// reaches the last sample. Only a burst that has been taken whole has no next piece.
pub proof fn piece_is_marked_at_the_end(total: nat, written: nat, mtu: nat)
    requires
        written <= total <= usize::MAX,
    ensures
        next_piece(total, written, mtu) is None <==> written == total,
        next_piece(total, written, mtu) matches Some(piece) ==> {
            &&& piece.start == written
            &&& piece.start <= piece.end <= total
            &&& piece.end - piece.start <= mtu
            &&& piece.end < total ==> piece.end - piece.start == mtu
            &&& piece.end_of_burst <==> piece.end == total
        },
{
}

/// A padded press, sample by sample: silence, then the press, then silence.
pub proof fn padding_is_silence(
    cmd: u8,
    counter: u8,
    repeats: nat,
    sample_rate: u32,
    lead: nat,
    trail: nat,
    i: int,
)
    ensures
        ({
            let padded = padded_signal(cmd, counter, repeats, sample_rate, lead, trail);
            let press = signal::press_signal(cmd, counter, repeats, sample_rate);
            &&& padded.len() == lead + press.len() + trail
            &&& 0 <= i < lead ==> !padded[i]
            &&& 0 <= i < press.len() ==> padded[lead + i] == press[i]
            &&& 0 <= i < trail ==> !padded[lead + press.len() + i]
        }),
{
}

/// How many samples a device has taken, piece by piece.
pub open spec fn taken_so_far(taken: Seq<nat>) -> nat
    decreases taken.len(),
{
    if taken.len() == 0 {
        0
    } else {
        taken_so_far(taken.drop_last()) + taken.last()
    }
}

/// The piece that a device was offered last.
pub open spec fn last_piece(total: nat, mtu: nat, taken: Seq<nat>) -> Option<Chunk> {
    next_piece(total, taken_so_far(taken.drop_last()), mtu)
}

/// Each time there was a piece to offer, and the device took no more than that.
pub open spec fn takes_what_is_offered(total: nat, mtu: nat, taken: Seq<nat>) -> bool
    decreases taken.len(),
{
    taken.len() > 0 ==> {
        &&& takes_what_is_offered(total, mtu, taken.drop_last())
        &&& last_piece(total, mtu, taken) matches Some(piece)
        &&& piece.start + taken.last() <= piece.end
    }
}

/// What a device has been given, when of each piece that it was offered it took
/// that many samples from the start.
pub open spec fn given(samples: Seq<bool>, mtu: nat, taken: Seq<nat>) -> Seq<bool>
    decreases taken.len(),
{
    if taken.len() == 0 {
        Seq::empty()
    } else {
        let start = last_piece(samples.len(), mtu, taken)->Some_0.start as int;
        given(samples, mtu, taken.drop_last()) + samples.subrange(start, start + taken.last())
    }
}

/// However a device takes a burst, it is given the samples in order, each once.
/// When it has taken them all, it has been given the whole burst, and the piece
/// that it took last was marked as the end.
pub proof fn burst_is_given_in_order(samples: Seq<bool>, mtu: nat, taken: Seq<nat>)
    requires
        samples.len() <= usize::MAX,
        takes_what_is_offered(samples.len(), mtu, taken),
    ensures
        taken_so_far(taken) <= samples.len(),
        given(samples, mtu, taken) == samples.take(taken_so_far(taken) as int),
        taken_so_far(taken) == samples.len() ==> given(samples, mtu, taken) == samples,
        taken.len() > 0 && taken_so_far(taken) == samples.len() ==> last_piece(
            samples.len(),
            mtu,
            taken,
        )->Some_0.end_of_burst,
    decreases taken.len(),
{
    if taken.len() > 0 {
        burst_is_given_in_order(samples, mtu, taken.drop_last());
    }
    assert(given(samples, mtu, taken) =~= samples.take(taken_so_far(taken) as int));
    assert(samples.take(samples.len() as int) =~= samples);
}

} // verus!
