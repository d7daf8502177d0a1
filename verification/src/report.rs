//! What the program tells the user.

use crate::button;
use crate::button::Button;
use crate::command::Choice;
use crate::packet;
use crate::text;
use crate::timing;
use vstd::prelude::*;

verus! {

/// The line about a button: its name, its command byte and its packet for counter 0.
pub open spec fn button_line_spec(button: Button) -> Seq<char> {
    "  "@ + text::padded(button.name_spec(), 18) + "  cmd=0x"@ + text::hex_digits(
        button.command_spec() as nat,
        2,
    ) + "  packet@X=0=0x"@ + text::hex_digits(
        packet::packet_word(button.command_spec(), 0) as nat,
        10,
    )
}

/// The line about a button: its name, its command byte and its packet for counter 0.
pub fn button_line(button: Button) -> (line: String)
    ensures
        line@ == button_line_spec(button),
{
    let mut line: String = "  ".to_owned();
    text::push_padded(&mut line, button.name(), 18);
    line.append("  cmd=0x");
    text::push_hex_digits(&mut line, button.command() as u64, 2);
    line.append("  packet@X=0=0x");
    text::push_hex_digits(&mut line, button::build_packet(button, 0), 10);
    line
}

/// The line about the durations on the air, in microseconds.
pub open spec fn timing_line_spec() -> Seq<char> {
    "timing (µs): preamble_on="@ + text::decimal(timing::PREAMBLE_ON_US as nat) + " sync_off="@
        + text::decimal(timing::SYNC_OFF_US as nat) + " data_on="@ + text::decimal(
        timing::DATA_ON_US as nat,
    ) + " short_off="@ + text::decimal(timing::SHORT_OFF_US as nat) + " long_off="@ + text::decimal(
        timing::LONG_OFF_US as nat,
    ) + " stop_on="@ + text::decimal(timing::STOP_ON_US as nat) + " gap_off="@ + text::decimal(
        timing::INTER_PACKET_GAP_US as nat,
    )
}

/// The line about the durations on the air.
pub fn timing_line() -> (line: String)
    ensures
        line@ == timing_line_spec(),
{
    let mut line: String = "timing (µs): preamble_on=".to_owned();
    text::push_decimal(&mut line, timing::PREAMBLE_ON_US as u64);
    line.append(" sync_off=");
    text::push_decimal(&mut line, timing::SYNC_OFF_US as u64);
    line.append(" data_on=");
    text::push_decimal(&mut line, timing::DATA_ON_US as u64);
    line.append(" short_off=");
    text::push_decimal(&mut line, timing::SHORT_OFF_US as u64);
    line.append(" long_off=");
    text::push_decimal(&mut line, timing::LONG_OFF_US as u64);
    line.append(" stop_on=");
    text::push_decimal(&mut line, timing::STOP_ON_US as u64);
    line.append(" gap_off=");
    text::push_decimal(&mut line, timing::INTER_PACKET_GAP_US as u64);
    line
}

/// The summary of the protocol, line by line.
pub open spec fn info_lines_spec() -> Seq<Seq<char>> {
    seq![
        "device_id : 0x"@ + text::hex_digits(packet::DEVICE_ID as nat, 4),
        "data bits : "@ + text::decimal(packet::DATA_BITS as nat),
        "buttons   :"@,
    ] + Button::ALL@.map_values(|button: Button| button_line_spec(button)) + seq![
        ""@,
        timing_line_spec(),
    ]
}

/// The summary of the protocol, line by line.
pub fn info_lines() -> (lines: Vec<String>)
    ensures
        lines@.map_values(|line: String| line@) == info_lines_spec(),
{
    let mut lines: Vec<String> = Vec::new();
    let mut device: String = "device_id : 0x".to_owned();
    text::push_hex_digits(&mut device, packet::DEVICE_ID as u64, 4);
    lines.push(device);
    let mut data: String = "data bits : ".to_owned();
    text::push_decimal(&mut data, packet::DATA_BITS as u64);
    lines.push(data);
    lines.push("buttons   :".to_owned());
    let all: [Button; 10] = Button::ALL;
    let mut i: usize = 0;
    while i < 10
        invariant
            i <= 10,
            all == Button::ALL,
            lines@.len() == 3 + i,
            lines@.map_values(|line: String| line@) =~= info_lines_spec().take(3 + i),
        decreases 10 - i,
    {
        lines.push(button_line(all[i]));
        assert(info_lines_spec()[3 + i] == button_line_spec(all@[i as int]));
        i += 1;
    }
    let ghost before = lines@;
    lines.push("".to_owned());
    lines.push(timing_line());
    proof {
        let shown = lines@.map_values(|line: String| line@);
        assert(shown.len() == info_lines_spec().len());
        assert forall|k: int| 0 <= k < shown.len() implies #[trigger] shown[k]
            == info_lines_spec()[k] by {
            if k < 13 {
                assert(shown[k] == before.map_values(|line: String| line@)[k]);
                assert(info_lines_spec().take(13)[k] == info_lines_spec()[k]);
            }
        }
        assert(shown =~= info_lines_spec());
    }
    lines
}

/// A press in words: what it is called, its command byte, its counter with a
/// remark on it, and its packet.
pub open spec fn press_in_words(
    label: Seq<char>,
    cmd: u8,
    counter: u8,
    note: Seq<char>,
) -> Seq<char> {
    label + " (cmd=0x"@ + text::hex_digits(cmd as nat, 2) + ", X="@ + text::decimal(
        (counter % 16) as nat,
    ) + note + ", packet=0x"@ + text::hex_digits(packet::packet_word(cmd, counter) as nat, 10)
        + ")"@
}

/// Appends a press in words.
fn push_press(out: &mut String, choice: &Choice, counter: u8, note: &str)
    ensures
        final(out)@ == old(out)@ + press_in_words(choice.label@, choice.cmd, counter, note@),
{
    let ghost start = out@;
    out.append(choice.label.as_str());
    out.append(" (cmd=0x");
    text::push_hex_digits(out, choice.cmd as u64, 2);
    out.append(", X=");
    text::push_decimal(out, (counter % 16) as u64);
    out.append(note);
    out.append(", packet=0x");
    text::push_hex_digits(out, packet::build_packet_raw(choice.cmd, counter), 10);
    out.append(")");
    assert(out@ =~= start + press_in_words(choice.label@, choice.cmd, counter, note@));
}

/// The message about a press that was encoded, into `samples` samples.
pub fn encoded_message(
    choice: &Choice,
    counter: u8,
    note: &str,
    repeats: u32,
    samples: usize,
    sample_rate: u32,
) -> (message: String)
    ensures
        message@ == "encoded "@ + press_in_words(choice.label@, choice.cmd, counter, note@)
            + " — "@ + text::decimal(repeats as nat) + " reps, "@ + text::decimal(samples as nat)
            + " samples @ "@ + text::decimal(sample_rate as nat) + " Hz"@,
        message@ == "encoded "@ + (choice.label@ + " (cmd=0x"@ + text::hex_digits(
            choice.cmd as nat,
            2,
        ) + ", X="@ + text::decimal((counter % 16) as nat) + note@ + ", packet=0x"@
            + text::hex_digits(packet::packet_word(choice.cmd, counter) as nat, 10) + ")"@)
            + " — "@ + text::decimal(repeats as nat) + " reps, "@ + text::decimal(samples as nat)
            + " samples @ "@ + text::decimal(sample_rate as nat) + " Hz"@,
{
    let mut message: String = "encoded ".to_owned();
    push_press(&mut message, choice, counter, note);
    message.append(" — ");
    text::push_decimal(&mut message, repeats as u64);
    message.append(" reps, ");
    text::push_decimal(&mut message, samples as u64);
    message.append(" samples @ ");
    text::push_decimal(&mut message, sample_rate as u64);
    message.append(" Hz");
    message
}

/// The message about a press that is going to be transmitted, on a carrier of
/// `mhz` megahertz with a gain of `gain` decibels.
pub fn transmitting_message(
    choice: &Choice,
    counter: u8,
    note: &str,
    repeats: u32,
    mhz: &str,
    gain: &str,
    sample_rate: u32,
) -> (message: String)
    ensures
        message@ == "transmitting "@ + press_in_words(choice.label@, choice.cmd, counter, note@)
            + " — "@ + text::decimal(repeats as nat) + " reps @ "@ + mhz@ + " MHz, gain "@ + gain@
            + " dB, fs "@ + text::decimal(sample_rate as nat) + " Hz"@,
        message@ == "transmitting "@ + (choice.label@ + " (cmd=0x"@ + text::hex_digits(
            choice.cmd as nat,
            2,
        ) + ", X="@ + text::decimal((counter % 16) as nat) + note@ + ", packet=0x"@
            + text::hex_digits(packet::packet_word(choice.cmd, counter) as nat, 10) + ")"@)
            + " — "@ + text::decimal(repeats as nat) + " reps @ "@ + mhz@ + " MHz, gain "@ + gain@
            + " dB, fs "@ + text::decimal(sample_rate as nat) + " Hz"@,
{
    let mut message: String = "transmitting ".to_owned();
    push_press(&mut message, choice, counter, note);
    message.append(" — ");
    text::push_decimal(&mut message, repeats as u64);
    message.append(" reps @ ");
    message.append(mhz);
    message.append(" MHz, gain ");
    message.append(gain);
    message.append(" dB, fs ");
    text::push_decimal(&mut message, sample_rate as u64);
    message.append(" Hz");
    message
}

/// The message about a counter that was set, of which only the low four bits count.
pub fn counter_set_message(counter: u8, path: &str) -> (message: String)
    ensures
        message@ == "next press counter set to X="@ + text::decimal((counter % 16) as nat) + " ("@
            + path@ + ")"@,
{
    let mut message: String = "next press counter set to X=".to_owned();
    text::push_decimal(&mut message, (counter % 16) as u64);
    message.append(" (");
    message.append(path);
    message.append(")");
    message
}

} // verus!
