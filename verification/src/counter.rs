//! The press counter that outlives the process.
//!
//! The receiver ignores a packet whose counter it has seen last, so that each
//! press takes the next one. The state file holds, in decimal, the counter that
//! the next press is to take.

use crate::button::Button;
use crate::command;
use crate::packet;
use crate::text;
use vstd::prelude::*;

verus! {

/// The counter behind `counter`, with 0 behind 15.
pub open spec fn next_counter(counter: u8) -> u8 {
    ((counter % 16 + 1) % 16) as u8
}

/// Where the counter of a press comes from.
#[derive(Copy, Clone, Debug, PartialEq, Eq, Structural)]
pub enum CounterSource {
    /// The user gave it; the state file stays as it is.
    Given(u8),
    /// The state file, which then moves on.
    StateFile,
}

/// A counter that the user gives wins over the state file.
pub fn counter_source(given: Option<u8>) -> (source: CounterSource)
    ensures
        source == match given {
            Some(counter) => CounterSource::Given(counter),
            None => CounterSource::StateFile,
        },
{
    match given {
        Some(counter) => CounterSource::Given(counter),
        None => CounterSource::StateFile,
    }
}

/// One press: the counter it takes, and the one to keep for the next.
#[derive(Copy, Clone, Debug, PartialEq, Eq, Structural)]
pub struct Bump {
    pub taken: u8,
    pub kept: u8,
}

/// The press that comes after `kept` was kept: the low four bits of it count, and
/// without one that was kept, counting starts at 0.
pub open spec fn bumped(kept: Option<u8>) -> Bump {
    let taken = match kept {
        Some(counter) => (counter % 16) as u8,
        None => 0,
    };
    Bump { taken, kept: next_counter(taken) }
}

/// Takes the counter that was kept, and moves on.
pub fn bump(kept: Option<u8>) -> (bump: Bump)
    ensures
        bump == bumped(kept),
        kept matches Some(counter) ==> bump.taken == counter % 16,
        kept is None ==> bump.taken == 0,
        bump.kept == (bump.taken + 1) % 16,
{
    let taken: u8 = match kept {
        Some(counter) => counter % 16,
        None => 0,
    };
    Bump { taken, kept: (taken + 1) % 16 }
}

/// A character that may surround the counter in the state file.
pub open spec fn is_blank(c: char) -> bool {
    c == ' ' || c == '\n' || c == '\r' || c == '\t'
}

/// The text without blanks at its end.
pub open spec fn without_trailing_blanks(text: Seq<char>) -> Seq<char>
    decreases text.len(),
{
    if text.len() > 0 && is_blank(text.last()) {
        without_trailing_blanks(text.drop_last())
    } else {
        text
    }
}

/// The counter that the text of a state file holds: a byte in decimal, cut to
/// its low four bits, with nothing but blanks behind it.
pub open spec fn stored_counter(text: Seq<char>) -> Option<u8> {
    match command::byte_value(without_trailing_blanks(text), 10) {
        Some(byte) => Some((byte % 16) as u8),
        None => None,
    }
}

/// Reads the text of a state file.
pub fn parse_counter(state: &str) -> (counter: Option<u8>)
    ensures
        counter == stored_counter(state@),
{
    let mut n: usize = state.unicode_len();
    assert(state@.take(n as int) =~= state@);
    while n > 0
        invariant_except_break
            n <= state@.len(),
            without_trailing_blanks(state@.take(n as int)) == without_trailing_blanks(state@),
        ensures
            n <= state@.len(),
            state@.take(n as int) == without_trailing_blanks(state@),
        decreases n,
    {
        let c: char = state.get_char(n - 1);
        proof {
            assert(state@.take(n as int).last() == c);
            assert(state@.take(n as int).drop_last() =~= state@.take(n - 1));
        }
        if c == ' ' || c == '\n' || c == '\r' || c == '\t' {
            n = n - 1;
        } else {
            break ;
        }
    }
    let digits = state.substring_char(0, n);
    assert(digits@ =~= without_trailing_blanks(state@));
    match command::byte_from_str_radix(digits, 10) {
        Ok(byte) => Some(byte % 16),
        Err(_) => None,
    }
}

/// The text of a state file that keeps `counter`, as far as it counts.
pub open spec fn state_text(counter: u8) -> Seq<char> {
    text::decimal((counter % 16) as nat) + "\n"@
}

/// The text of a state file that keeps `counter`, of which only the low four
/// bits count.
pub fn counter_text(counter: u8) -> (state: String)
    ensures
        state@ == state_text(counter),
{
    let mut state: String = String::new();
    text::push_decimal(&mut state, (counter % 16) as u64);
    state.append("\n");
    state
}

/// A counter that was written is read back, as far as it counts.
pub proof fn stored_counter_reads_back(counter: u8)
    ensures
        stored_counter(state_text(counter)) == Some((counter % 16) as u8),
{
    reveal_strlit("\n");
    reveal_with_fuel(text::decimal, 3);
    reveal_with_fuel(command::digits_value, 4);
    let x = (counter % 16) as nat;
    let digits = text::decimal(x);
    let state = digits + "\n"@;
    assert(state.drop_last() =~= digits);
    reveal_with_fuel(without_trailing_blanks, 3);
    assert(without_trailing_blanks(state) =~= digits);
    if x < 10 {
        assert(digits.drop_last() =~= Seq::empty());
    } else {
        assert(digits =~= seq!['1', text::digit_char((x % 10) as nat)]);
        assert(digits.drop_last() =~= seq!['1']);
        assert(seq!['1'].drop_last() =~= Seq::<char>::empty());
    }
}

/// After the counter has been set, the next press takes it, and the press after
/// that the one behind it.
pub proof fn set_counter_is_taken_next(counter: u8)
    ensures
        ({
            let first = bumped(stored_counter(state_text(counter)));
            let second = bumped(stored_counter(state_text(first.kept)));
            first.taken == counter % 16 && second.taken == next_counter(first.taken)
        }),
{
    stored_counter_reads_back(counter);
    stored_counter_reads_back(next_counter((counter % 16) as u8));
}

/// The counter that is kept after a number of presses.
pub open spec fn kept_after(start: u8, presses: nat) -> u8
    decreases presses,
{
    if presses == 0 {
        (start % 16) as u8
    } else {
        next_counter(kept_after(start, (presses - 1) as nat))
    }
}

/// The counter goes up by one with each press, modulo 16: so it comes round
/// after sixteen presses, and not before.
pub proof fn counters_come_round(start: u8, presses: nat)
    ensures
        kept_after(start, presses) == (start + presses) % 16,
        kept_after(start, presses) == kept_after(start, 0) <==> presses % 16 == 0,
    decreases presses,
{
    if presses > 0 {
        counters_come_round(start, (presses - 1) as nat);
    }
}

/// Two presses in a row never put the same packet on the air, whatever the buttons.
pub proof fn consecutive_packets_differ(first: Button, second: Button, counter: u8)
    ensures
        packet::packet_word(first.command_spec(), counter) != packet::packet_word(
            second.command_spec(),
            next_counter(counter),
        ),
{
    packet::packet_identifies_press(
        first.command_spec(),
        counter,
        second.command_spec(),
        next_counter(counter),
    );
}

/// Setting the counter makes the next presses take it and the ones behind it in turn,
/// modulo 16, whatever was kept before.
pub proof fn presses_follow_a_set_counter(counter: u8)
    ensures
        bumped(stored_counter(state_text(counter))).taken == counter % 16,
        bumped(stored_counter(state_text(counter))).kept == (counter + 1) % 16,
        bumped(None).taken == 0,
        bumped(None).kept == 1,
{
    stored_counter_reads_back(counter);
}

/// Blanks at the end of a state file do not matter. Without any, it holds what the user
/// would write for a byte in decimal, of which the low four bits count.
pub proof fn state_file_holds_a_decimal_byte(text: Seq<char>, blank: char)
    ensures
        blank == ' ' || blank == '\n' || blank == '\r' || blank == '\t' ==> stored_counter(
            text.push(blank),
        ) == stored_counter(text),
        text.len() == 0 ==> stored_counter(text) is None,
        text.len() > 0 && !(text.last() == ' ' || text.last() == '\n' || text.last() == '\r'
            || text.last() == '\t') && !(text.len() >= 2 && text[0] == '0' && (text[1] == 'x'
            || text[1] == 'X')) ==> stored_counter(text) == match command::written_byte(text) {
            Some(byte) => Some((byte % 16) as u8),
            None => None,
        },
{
    assert(text.push(blank).drop_last() =~= text);
    command::lemma_prefix(text);
    if text.len() == 0 {
        assert(command::digits_value(text, 10) == Some(0nat));
    }
}

/// A state file holds the low four bits of the counter, in one decimal digit or two, and
/// a line feed.
pub proof fn counter_is_kept_in_decimal(counter: u8)
    ensures
        ({
            let kept = counter % 16;
            let text = state_text(counter);
            &&& text.last() == '\n'
            &&& kept < 10 ==> text.len() == 2 && text[0] as u32 == 48 + kept
            &&& kept >= 10 ==> text.len() == 3 && text[0] == '1' && text[1] as u32 == 38 + kept
        }),
{
    reveal_strlit("\n");
    let kept = (counter % 16) as nat;
    text::digit_is_shown(kept % 10);
    if kept < 10 {
        text::decimal_grows(0, kept);
    } else {
        text::decimal_grows(0, 1);
        text::decimal_grows(1, (kept % 10) as nat);
        text::digit_is_shown(1);
        assert(10 * 1 + kept % 10 == kept);
    }
}

} // verus!
