//! Packets, signals and the way back from a signal to its packets.

use led_remote::envelope::{window, window_reach};
use led_remote::signal::press_len;
use led_remote::{
    build_packet, build_packet_raw, decode_packets, encode_button_press, encode_packet,
    encode_press_raw, run_lengths, us_to_samples, Button, DATA_BITS, DATA_ON_US,
    DEFAULT_CENTER_FREQ_HZ, DEFAULT_SAMPLE_RATE, DEVICE_ID, INTER_PACKET_GAP_US, LONG_OFF_US,
    PREAMBLE_ON_US, SHORT_OFF_US, STOP_ON_US, SYNC_OFF_US,
};

/// The carrier as a real-valued envelope: full amplitude where it is on.
fn modulated(levels: &[bool]) -> Vec<f32> {
    levels.iter().map(|&on| if on { 1.0f32 } else { 0.0f32 }).collect()
}

/// Smooths an envelope and cuts it at a fraction of its peak.
fn sliced(envelope: &[f32], sample_rate: u32, smooth_us: u32, fraction: f32) -> Vec<bool> {
    let n = envelope.len();
    let reach = window_reach(us_to_samples(smooth_us, sample_rate));
    let mut sums = vec![0.0f64; n + 1];
    for i in 0..n {
        sums[i + 1] = sums[i] + envelope[i] as f64;
    }
    let mut smooth = vec![0.0f32; n];
    let mut peak = 0.0f32;
    for i in 0..n {
        let (low, high) = window(i, reach, n);
        smooth[i] = ((sums[high] - sums[low]) / (high - low) as f64) as f32;
        if smooth[i] > peak {
            peak = smooth[i];
        }
    }
    smooth.into_iter().map(|value| value > peak * fraction).collect()
}

#[test]
fn build_packet_known_values() {
    assert_eq!(build_packet(Button::TurnOn, 0), 0xF3A2_0150_F0);
    assert_eq!(build_packet(Button::TurnOff, 0), 0xF3A2_0253_F0);
    assert_eq!(build_packet(Button::TemperatureDown, 0), 0xF3A2_0657_F0);
    assert_eq!(build_packet(Button::TemperatureUp, 0), 0xF3A2_0859_F0);
    assert_eq!(build_packet(Button::BrightnessDown, 0), 0xF3A2_0A5B_F0);
    assert_eq!(build_packet(Button::BrightnessUp, 0), 0xF3A2_0455_F0);

    // The first packet that was ever recorded, with counter 1.
    assert_eq!(build_packet(Button::TurnOn, 1), 0xF3A2_0150_E1);
    assert_eq!(build_packet(Button::TurnOff, 4) & 0xFF, 0xB4);
}

#[test]
fn round_trip_each_button() {
    for &btn in &Button::ALL {
        for counter in [0u8, 1, 5, 0x0F] {
            let expected = build_packet(btn, counter);
            let samples = encode_button_press(btn, counter, 3, DEFAULT_SAMPLE_RATE);
            let binary = sliced(&modulated(&samples), DEFAULT_SAMPLE_RATE, 20, 0.30);
            let runs = run_lengths(&binary);
            let packets = decode_packets(&runs, DEFAULT_SAMPLE_RATE);
            assert_eq!(packets.len(), 3, "wrong rep count for {}", btn.name());
            for (i, p) in packets.iter().enumerate() {
                assert_eq!(*p, expected, "mismatch for {} rep {}", btn.name(), i);
            }
        }
    }
}

#[test]
fn packets_of_all_buttons() {
    let table: [(&str, u8, u64); 10] = [
        ("turn_on", 0x01, 0xF3A20150F0),
        ("turn_off", 0x02, 0xF3A20253F0),
        ("brightness_up", 0x04, 0xF3A20455F0),
        ("temperature_down", 0x06, 0xF3A20657F0),
        ("temperature_up", 0x08, 0xF3A20859F0),
        ("brightness_down", 0x0A, 0xF3A20A5BF0),
        ("brightness_10", 0x0C, 0xF3A20C5DF0),
        ("brightness_50", 0x0D, 0xF3A20D5CF0),
        ("brightness_100", 0x0E, 0xF3A20E5FF0),
        ("pair", 0x20, 0xF3A22071F0),
    ];
    for (name, cmd, packet) in table {
        let button = Button::from_name(name).unwrap();
        assert_eq!(button.name(), name);
        assert_eq!(button.command(), cmd);
        assert_eq!(build_packet(button, 0), packet);
    }
    assert_eq!(Button::ALL.len(), table.len());
}

#[test]
fn packet_has_its_fields() {
    let packet = build_packet_raw(0xC3, 0x29);
    assert_eq!(packet >> 24, DEVICE_ID as u64);
    assert_eq!(packet >> 16 & 0xFF, 0xC3);
    assert_eq!(packet >> 8 & 0xFF, 0xD2);
    assert_eq!(packet & 0xFF, 0x69);
    assert_eq!(packet, 0xF3A2C3D269);
}

#[test]
fn presses_have_packets_of_their_own() {
    let mut seen: Vec<u64> = Vec::new();
    for &button in &Button::ALL {
        for counter in 0u8..16 {
            let packet = build_packet(button, counter);
            assert!(!seen.contains(&packet));
            assert_eq!(packet, build_packet(button, counter + 16));
            seen.push(packet);
        }
    }
    assert_eq!(seen.len(), 160);
}

#[test]
fn buttons_by_name() {
    for &button in &Button::ALL {
        assert_eq!(Button::from_name(button.name()), Ok(button));
        assert_eq!(button.name().parse(), Ok(button));
    }
    let parsed: Result<Button, String> = "TURN_ON".parse();
    assert_eq!(
        parsed,
        Err("unknown button 'TURN_ON' — expected one of: turn_on, turn_off, temperature_down, \
             temperature_up, brightness_down, brightness_up, brightness_10, brightness_50, \
             brightness_100, pair"
            .to_string())
    );
    assert!(Button::from_name("").is_err());
    assert!(Button::from_name("turn_on ").is_err());
}

#[test]
fn constants_of_the_protocol() {
    assert_eq!(DEVICE_ID, 0xF3A2);
    assert_eq!(DATA_BITS, 40);
    assert_eq!(DEFAULT_SAMPLE_RATE, 500_000);
    assert_eq!(DEFAULT_CENTER_FREQ_HZ, 433_920_000);
    assert_eq!(
        (PREAMBLE_ON_US, SYNC_OFF_US, DATA_ON_US, SHORT_OFF_US),
        (8_320, 4_200, 488, 540)
    );
    assert_eq!((LONG_OFF_US, STOP_ON_US, INTER_PACKET_GAP_US), (1_580, 488, 10_700));
}

#[test]
fn durations_at_the_default_rate() {
    assert_eq!(us_to_samples(8_320, 500_000), 4_160);
    assert_eq!(us_to_samples(4_200, 500_000), 2_100);
    assert_eq!(us_to_samples(488, 500_000), 244);
    assert_eq!(us_to_samples(540, 500_000), 270);
    assert_eq!(us_to_samples(1_580, 500_000), 790);
    assert_eq!(us_to_samples(10_700, 500_000), 5_350);
    assert_eq!(us_to_samples(0, 500_000), 0);
    assert_eq!(us_to_samples(488, 0), 0);
}

#[test]
fn durations_follow_single_precision() {
    let rates: [u32; 16] = [
        0, 1, 999, 1_000, 1_024, 1_025, 8_000, 44_100, 48_000, 96_001, 250_000, 500_000, 2_000_001,
        16_777_217, 56_000_003, u32::MAX,
    ];
    let durations: [u32; 12] =
        [0, 1, 20, 488, 540, 1_000, 1_580, 4_000, 4_200, 8_320, 10_700, u32::MAX];
    for rate in rates {
        for us in durations {
            let expected = (us as f32 * 1e-6 * rate as f32).round() as usize;
            assert_eq!(us_to_samples(us, rate), expected, "{us} µs at {rate} Hz");
        }
    }
}

#[test]
fn durations_follow_single_precision_across_many_rates() {
    let mut rate: u32 = 12_345;
    for step in 0u32..20_000 {
        rate = rate.wrapping_mul(1_664_525).wrapping_add(1_013_904_223);
        let us = (rate >> 7) % 12_000 + step % 3;
        let expected = (us as f32 * 1e-6 * rate as f32).round() as usize;
        assert_eq!(us_to_samples(us, rate), expected, "{us} µs at {rate} Hz");
    }
}

#[test]
fn longer_takes_no_fewer_samples() {
    let mut before = 0;
    for us in 0u32..12_000 {
        let now = us_to_samples(us, 44_100);
        assert!(before <= now);
        before = now;
    }
    assert!(us_to_samples(540, 44_100) <= us_to_samples(540, 44_101));
}

#[test]
fn packet_signal_follows_its_bits() {
    let mut levels: Vec<bool> = vec![true, false];
    encode_packet(&mut levels, 0x80_0000_0001, 500_000);
    let runs = run_lengths(&levels[2..]);
    assert_eq!(levels[..2], [true, false]);
    assert_eq!(runs.len(), 83);
    assert_eq!(runs[..6], [4_160, 2_100, 244, 790, 244, 270]);
    assert_eq!(runs[78..], [244, 270, 244, 790, 244]);
    assert_eq!(levels.len(), 2 + runs.iter().sum::<usize>());
}

#[test]
fn press_repeats_its_packet_with_gaps_between() {
    let once = encode_press_raw(0x0C, 3, 1, 500_000);
    let thrice = encode_press_raw(0x0C, 3, 3, 500_000);
    assert_eq!(thrice.len(), 3 * once.len() + 2 * 5_350);
    assert_eq!(thrice[..once.len()], once[..]);
    assert!(thrice[once.len()..once.len() + 5_350].iter().all(|&on| !on));
    assert_eq!(thrice[thrice.len() - once.len()..], once[..]);
    assert!(encode_press_raw(0x0C, 3, 0, 500_000).is_empty());
    assert_eq!(encode_button_press(Button::Brightness10, 3, 3, 500_000), thrice);
}

#[test]
fn press_length_is_known_beforehand() {
    for (cmd, counter, repeats, rate) in
        [(0x01u8, 0u8, 5u32, 500_000u32), (0xFF, 9, 1, 8_000), (0x20, 15, 0, 8_000), (0, 7, 4, 0)]
    {
        let press = encode_press_raw(cmd, counter, repeats, rate);
        assert_eq!(press_len(cmd, counter, repeats, rate), press.len() as u128);
    }
    assert!(press_len(0, 0, u32::MAX, u32::MAX) > u64::MAX as u128 / 0x1_0000);
}

#[test]
fn runs_begin_where_the_carrier_does() {
    assert!(run_lengths(&[]).is_empty());
    assert!(run_lengths(&[false, false]).is_empty());
    assert_eq!(run_lengths(&[false, true, true, false, true]), [2, 1, 1]);
    assert_eq!(run_lengths(&[true, false, false]), [1, 2]);
}

#[test]
fn padded_presses_decode() {
    for rate in [1_025u32, 1_499, 1_583, 8_000, 44_100, 500_000, 1_000_003] {
        let mut levels: Vec<bool> = vec![false; 77];
        levels.append(&mut encode_press_raw(0xA5, 6, 4, rate));
        levels.append(&mut vec![false; 1_234]);
        let packets = decode_packets(&run_lengths(&levels), rate);
        assert_eq!(packets, [build_packet_raw(0xA5, 6); 4], "{rate} Hz");
    }
}

#[test]
fn too_low_a_rate_loses_the_bits() {
    for rate in [0u32, 1, 100, 1_024, 1_500, 1_582] {
        for repeats in [1u32, 2, 50] {
            let levels = encode_press_raw(0xA5, 6, repeats, rate);
            let packets = decode_packets(&run_lengths(&levels), rate);
            assert_ne!(packets, vec![build_packet_raw(0xA5, 6); repeats as usize], "{rate} Hz");
        }
    }
}

#[test]
fn distorted_runs_still_decode() {
    let packet = build_packet_raw(0x5A, 9);
    let levels = encode_press_raw(0x5A, 9, 3, 500_000);
    let mut runs = run_lengths(&levels);
    for (i, run) in runs.iter_mut().enumerate() {
        if i % 2 == 0 {
            *run = *run + 60 - i % 120;
        } else {
            *run = *run + i % 200 - 80;
        }
    }
    assert_eq!(decode_packets(&runs, 500_000), [packet; 3]);
    runs.push(1);
    assert_eq!(decode_packets(&runs, 500_000), [packet; 3]);
}

#[test]
fn smoothed_presses_decode() {
    for rate in [20_000u32, 44_100, 500_000] {
        for smooth_us in [0u32, 20, 150, 400] {
            for fraction in [0.0f32, 0.02, 0.30, 0.5, 0.98] {
                for (lead, trail) in [(0usize, 0usize), (1, 3), (100, 1), (40, 250)] {
                    let mut levels: Vec<bool> = vec![false; lead];
                    levels.append(&mut encode_press_raw(0xA5, 6, 2, rate));
                    levels.append(&mut vec![false; trail]);
                    let binary = sliced(&modulated(&levels), rate, smooth_us, fraction);
                    let packets = decode_packets(&run_lengths(&binary), rate);
                    assert_eq!(
                        packets,
                        [build_packet_raw(0xA5, 6); 2],
                        "{rate} Hz, {smooth_us} µs, {fraction}, {lead}, {trail}"
                    );
                }
            }
        }
    }
}

#[test]
fn smoothed_silence_holds_nothing() {
    let binary = sliced(&modulated(&[false; 300]), 500_000, 20, 0.30);
    assert!(decode_packets(&run_lengths(&binary), 500_000).is_empty());
}

#[test]
fn decoder_passes_over_what_is_no_packet() {
    assert!(decode_packets(&[], 500_000).is_empty());
    assert!(decode_packets(&[4_160], 500_000).is_empty());
    // A long pause is no preamble, whatever follows it.
    let mut runs: Vec<usize> = vec![244, 9_000];
    for _ in 0..42 {
        runs.push(244);
        runs.push(270);
    }
    assert!(decode_packets(&runs, 500_000).is_empty());
    // A preamble has to be longer than 2000 samples.
    let mut packet: Vec<usize> = vec![2_000, 2_100];
    for _ in 0..40 {
        packet.push(244);
        packet.push(501);
    }
    packet.push(244);
    assert!(decode_packets(&packet, 500_000).is_empty());
    packet[0] = 2_001;
    assert_eq!(decode_packets(&packet, 500_000), [0xFF_FFFF_FFFF]);
    // A pause of 500 samples is a zero.
    packet[3] = 500;
    assert_eq!(decode_packets(&packet, 500_000), [0x7F_FFFF_FFFF]);
    // A stop is needed.
    packet.pop();
    assert!(decode_packets(&packet, 500_000).is_empty());
}

#[test]
fn recording_of_five_presses_decodes() {
    for (button, repeats, first) in
        [(Button::TurnOn, 5u32, 1u8), (Button::TurnOff, 3, 0), (Button::BrightnessDown, 3, 14)]
    {
        let mut levels: Vec<bool> = vec![false; 5_000];
        for press in 0..5u8 {
            levels.append(&mut encode_button_press(button, first + press, repeats, 500_000));
            levels.append(&mut vec![false; 100_000]);
        }
        let binary = sliced(&modulated(&levels), 500_000, 20, 0.30);
        let packets = decode_packets(&run_lengths(&binary), 500_000);
        let mut expected: Vec<u64> = Vec::new();
        for press in 0..5u8 {
            for _ in 0..repeats {
                expected.push(build_packet(button, first + press));
            }
        }
        assert_eq!(packets, expected);
    }
}

#[test]
fn unlike_presses_decode_in_order() {
    let presses: [(u8, u8, u32, usize); 4] =
        [(0x01, 15, 2, 1), (0xFF, 0, 1, 9_000), (0x20, 1, 3, 2), (0x01, 2, 1, 0)];
    for rate in [1_025u32, 8_000, 500_000] {
        let mut levels: Vec<bool> = vec![false; 12];
        let mut expected: Vec<u64> = Vec::new();
        for (cmd, counter, repeats, pause) in presses {
            levels.append(&mut encode_press_raw(cmd, counter, repeats, rate));
            levels.append(&mut vec![false; pause]);
            for _ in 0..repeats {
                expected.push(build_packet_raw(cmd, counter));
            }
        }
        assert_eq!(decode_packets(&run_lengths(&levels), rate), expected, "{rate} Hz");
    }
}

#[test]
fn packets_are_decoded_one_by_one() {
    let first = run_lengths(&encode_press_raw(0x0C, 4, 1, 500_000));
    let rest = run_lengths(&encode_press_raw(0x0D, 5, 2, 500_000));
    assert_eq!(first.len(), 83);
    let mut runs = first.clone();
    runs.push(77);
    runs.extend_from_slice(&rest);
    let mut expected = decode_packets(&first, 500_000);
    expected.extend(decode_packets(&rest, 500_000));
    assert_eq!(expected.len(), 3);
    assert_eq!(decode_packets(&runs, 500_000), expected);
}

#[test]
fn smoothing_window_stays_inside() {
    assert_eq!(window_reach(us_to_samples(20, 500_000)), 5);
    assert_eq!(window_reach(0), 0);
    assert_eq!(window_reach(1), 0);
    assert_eq!(window_reach(2), 1);
    assert_eq!(window_reach(usize::MAX), usize::MAX / 2);
    assert_eq!(window(0, 5, 100), (0, 6));
    assert_eq!(window(50, 5, 100), (45, 56));
    assert_eq!(window(99, 5, 100), (94, 100));
    assert_eq!(window(94, 5, 100), (89, 100));
    assert_eq!(window(3, usize::MAX, 7), (0, 7));
    assert_eq!(window(3, 0, 7), (3, 4));
}
