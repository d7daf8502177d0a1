//! What the command line decides and tells.

use led_remote::command::{counter_note, describe_bad_byte, resolve_command, Choice};
use led_remote::counter::{
    bump, counter_source, counter_text, parse_counter, Bump, CounterSource,
};
use led_remote::report::{
    button_line, counter_set_message, encoded_message, info_lines, timing_line,
    transmitting_message,
};
use led_remote::state::{counter_path, homekit_path, state_root, StateRoot};
use led_remote::{build_packet, parse_hex_byte, Button};

#[test]
fn bytes_in_decimal_and_hexadecimal() {
    for (text, byte) in [
        ("0", 0u8), ("12", 12), ("255", 255), ("007", 7), ("+4", 4), ("0x04", 4), ("0X0c", 12),
        ("0xFF", 255), ("0x+4", 4), ("0x000001", 1), ("00000000255", 255),
    ] {
        assert_eq!(parse_hex_byte(text), Ok(byte), "{text}");
    }
}

#[test]
fn other_texts_are_no_bytes() {
    for (text, message) in [
        ("", "invalid byte '': cannot parse integer from empty string"),
        ("256", "invalid byte '256': number too large to fit in target type"),
        ("-1", "invalid byte '-1': invalid digit found in string"),
        ("+", "invalid byte '+': invalid digit found in string"),
        ("0C", "invalid byte '0C': invalid digit found in string"),
        (" 4", "invalid byte ' 4': invalid digit found in string"),
        ("0x", "invalid hex byte '0x': cannot parse integer from empty string"),
        ("0x100", "invalid hex byte '0x100': number too large to fit in target type"),
        ("0Xg", "invalid hex byte '0Xg': invalid digit found in string"),
        ("0x0x1", "invalid hex byte '0x0x1': invalid digit found in string"),
    ] {
        assert_eq!(parse_hex_byte(text), Err(message.to_string()));
    }
    assert_eq!(describe_bad_byte("x", false, "why"), "invalid byte 'x': why");
    assert_eq!(describe_bad_byte("x", true, "why"), "invalid hex byte 'x': why");
}

#[test]
fn commands_by_name_and_by_byte() {
    let named = resolve_command(Some("pair"), None).unwrap();
    assert_eq!((named.cmd, named.label.as_str()), (0x20, "pair"));
    let overridden = resolve_command(Some("pair"), Some(0x33)).unwrap();
    assert_eq!((overridden.cmd, overridden.label.as_str()), (0x33, "pair [cmd override]"));
    let raw = resolve_command(None, Some(0x33)).unwrap();
    assert_eq!((raw.cmd, raw.label.as_str()), (0x33, "raw"));
}

#[test]
fn unknown_names_are_refused_even_with_a_byte() {
    let alone = resolve_command(Some("blink"), None).unwrap_err();
    assert!(alone.starts_with("unknown button 'blink'"));
    assert_eq!(resolve_command(Some("blink"), Some(1)).unwrap_err(), alone);
}

#[test]
fn given_counters_win() {
    assert_eq!(counter_source(Some(0x2A)), CounterSource::Given(0x2A));
    assert_eq!(counter_source(None), CounterSource::StateFile);
}

#[test]
fn counters_are_taken_in_turn() {
    assert_eq!(bump(None), Bump { taken: 0, kept: 1 });
    assert_eq!(bump(Some(14)), Bump { taken: 14, kept: 15 });
    assert_eq!(bump(Some(15)), Bump { taken: 15, kept: 0 });
    assert_eq!(bump(Some(0x25)), Bump { taken: 5, kept: 6 });
}

#[test]
fn counters_come_round_after_sixteen_presses() {
    let mut kept = bump(Some(9)).kept;
    for press in 1..16u8 {
        assert_eq!(kept, (9 + press) % 16);
        kept = bump(Some(kept)).kept;
    }
    assert_eq!(kept, 9);
}

#[test]
fn consecutive_packets_are_never_the_same() {
    for &first in &Button::ALL {
        for &second in &Button::ALL {
            for kept in 0..16u8 {
                let before = bump(Some(kept));
                let after = bump(Some(before.kept));
                assert_ne!(build_packet(first, before.taken), build_packet(second, after.taken));
            }
        }
    }
}

#[test]
fn counters_are_kept_as_text() {
    assert_eq!(counter_text(0), "0\n");
    assert_eq!(counter_text(15), "15\n");
    assert_eq!(counter_text(0x2A), "10\n");
    for counter in 0..=255u8 {
        assert_eq!(parse_counter(&counter_text(counter)), Some(counter % 16));
    }
}

#[test]
fn set_counters_are_taken_next() {
    for counter in 0..=255u8 {
        let first = bump(parse_counter(&counter_text(counter)));
        assert_eq!(first.taken, counter % 16);
        let second = bump(parse_counter(&counter_text(first.kept)));
        assert_eq!(second.taken, (counter % 16 + 1) % 16);
    }
}

#[test]
fn state_files_are_read() {
    assert_eq!(parse_counter("7"), Some(7));
    assert_eq!(parse_counter("7 \t\r\n\n"), Some(7));
    assert_eq!(parse_counter("23\n"), Some(7));
    assert_eq!(parse_counter(""), None);
    assert_eq!(parse_counter("\n"), None);
    assert_eq!(parse_counter("seven"), None);
    assert_eq!(parse_counter("300"), None);
}

#[test]
fn counter_notes() {
    assert_eq!(counter_note(Some("/tmp/c")), " [auto, state=/tmp/c]");
    assert_eq!(counter_note(None), " [-c override, state untouched]");
}

#[test]
fn places_for_state() {
    assert_eq!(state_root(true, true), StateRoot::XdgStateHome);
    assert_eq!(state_root(true, false), StateRoot::XdgStateHome);
    assert_eq!(state_root(false, true), StateRoot::Home);
    assert_eq!(state_root(false, false), StateRoot::CurrentDir);
    assert_eq!(counter_path(StateRoot::XdgStateHome), "led_remote/counter");
    assert_eq!(counter_path(StateRoot::Home), ".local/state/led_remote/counter");
    assert_eq!(counter_path(StateRoot::CurrentDir), ".local/state/led_remote/counter");
    assert_eq!(homekit_path(StateRoot::XdgStateHome), "led_remote/homekit");
    assert_eq!(homekit_path(StateRoot::Home), ".local/state/led_remote/homekit");
    assert_eq!(homekit_path(StateRoot::CurrentDir), ".local/state/led_remote/homekit");
}

#[test]
fn summary_of_the_protocol() {
    let lines = info_lines();
    assert_eq!(lines.len(), 15);
    assert_eq!(lines[0], "device_id : 0xF3A2");
    assert_eq!(lines[1], "data bits : 40");
    assert_eq!(lines[2], "buttons   :");
    assert_eq!(lines[3], "  turn_on             cmd=0x01  packet@X=0=0xF3A20150F0");
    assert_eq!(lines[12], "  pair                cmd=0x20  packet@X=0=0xF3A22071F0");
    assert_eq!(lines[13], "");
    assert_eq!(
        lines[14],
        "timing (µs): preamble_on=8320 sync_off=4200 data_on=488 short_off=540 long_off=1580 \
         stop_on=488 gap_off=10700"
    );
    assert_eq!(lines[14], timing_line());
    for (i, &button) in Button::ALL.iter().enumerate() {
        assert_eq!(lines[3 + i], button_line(button));
        let expected = format!(
            "  {:18}  cmd=0x{:02X}  packet@X=0=0x{:010X}",
            button.name(),
            button.command(),
            build_packet(button, 0)
        );
        assert_eq!(lines[3 + i], expected);
    }
}

#[test]
fn messages_about_a_press() {
    let choice = Choice { cmd: 0x0C, label: "raw".to_string() };
    assert_eq!(
        encoded_message(&choice, 0x13, " [-c override, state untouched]", 5, 247_130, 500_000),
        "encoded raw (cmd=0x0C, X=3 [-c override, state untouched], packet=0xF3A20C5DC3) — 5 reps, \
         247130 samples @ 500000 Hz"
    );
    assert_eq!(
        transmitting_message(&choice, 3, "", 5, "433.920", "50", 500_000),
        "transmitting raw (cmd=0x0C, X=3, packet=0xF3A20C5DC3) — 5 reps @ 433.920 MHz, gain 50 dB, \
         fs 500000 Hz"
    );
    assert_eq!(counter_set_message(0x21, "/tmp/c"), "next press counter set to X=1 (/tmp/c)");
}
