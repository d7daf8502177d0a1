//! The HomeKit accessory.

use led_remote::homekit::{
    accessory_serial, device_id_from_hash, format_device_id, format_pin, parse_pin, pin_candidate,
    power_update, snap_brightness, HomekitConfig, PairingPlan, PinError,
};
use led_remote::Button;

fn config(pin: Option<[u8; 8]>) -> HomekitConfig {
    HomekitConfig { name: "Kitchen Lights".to_string(), pin, state_dir: "state".into() }
}

#[test]
fn parse_pin_accepts_dashed_and_plain() {
    assert_eq!(
        parse_pin("123-45-678").unwrap(),
        [1, 2, 3, 4, 5, 6, 7, 8]
    );
    assert_eq!(parse_pin("12345678").unwrap(), [1, 2, 3, 4, 5, 6, 7, 8]);
    assert_eq!(parse_pin(" 1 2 3 4 5 6 7 8 ").unwrap(), [1, 2, 3, 4, 5, 6, 7, 8]);
}

#[test]
fn parse_pin_rejects_wrong_length() {
    assert!(parse_pin("123").is_err());
    assert!(parse_pin("1234567890").is_err());
    assert!(parse_pin("abcdefgh").is_err());
}

#[test]
fn snap_brightness_thresholds() {
    assert_eq!(snap_brightness(0), Button::Brightness10);
    assert_eq!(snap_brightness(29), Button::Brightness10);
    assert_eq!(snap_brightness(30), Button::Brightness50);
    assert_eq!(snap_brightness(74), Button::Brightness50);
    assert_eq!(snap_brightness(75), Button::Brightness100);
    assert_eq!(snap_brightness(100), Button::Brightness100);
}

#[test]
fn format_pin_groups_3_2_3() {
    assert_eq!(format_pin([1, 2, 3, 4, 5, 6, 7, 8]), "123-45-678");
    assert_eq!(format_pin([8, 3, 1, 9, 4, 6, 7, 2]), "831-94-672");
}

#[test]
fn wrong_pins_are_explained() {
    assert_eq!(parse_pin("123"), Err("pin must be 8 digits (got 3 from '123')".to_string()));
    assert_eq!(
        parse_pin("12-345-678-90"),
        Err("pin must be 8 digits (got 10 from '12-345-678-90')".to_string())
    );
    assert_eq!(parse_pin(""), Err("pin must be 8 digits (got 0 from '')".to_string()));
    // Only the ASCII digits count.
    assert_eq!(
        parse_pin("1234567٨"),
        Err("pin must be 8 digits (got 7 from '1234567٨')".to_string())
    );
}

#[test]
fn shown_pins_read_back() {
    for pin in [[0, 0, 0, 0, 0, 0, 0, 0], [8, 3, 1, 9, 4, 6, 7, 2], [9, 0, 9, 0, 9, 0, 9, 0]] {
        assert_eq!(parse_pin(&format_pin(pin)), Ok(pin));
        let bare: String = pin.iter().map(|digit| digit.to_string()).collect();
        assert_eq!(parse_pin(&bare), Ok(pin));
    }
    assert_eq!(format_pin([255, 0, 10, 1, 2, 3, 4, 5]), "255010-12-345");
}

#[test]
fn saved_pairings_are_kept() {
    assert_eq!(config(None).pairing_plan(true), Ok(PairingPlan::KeepSaved));
    assert_eq!(config(Some([1; 8])).pairing_plan(true), Ok(PairingPlan::KeepSaved));
}

#[test]
fn new_pairings_take_the_pin_that_is_given() {
    assert_eq!(config(None).pairing_plan(false), Ok(PairingPlan::CreateWithGenerated));
    let pin = [8, 3, 1, 9, 4, 6, 7, 2];
    assert_eq!(config(Some(pin)).pairing_plan(false), Ok(PairingPlan::CreateWith(pin)));
}

#[test]
fn easy_pins_are_refused() {
    for digit in 0..10u8 {
        assert_eq!(config(Some([digit; 8])).pairing_plan(false), Err(PinError::TooEasy));
    }
    for pin in [[1, 2, 3, 4, 5, 6, 7, 8], [8, 7, 6, 5, 4, 3, 2, 1]] {
        assert_eq!(config(Some(pin)).pairing_plan(false), Err(PinError::TooEasy));
    }
    let nearly = [1, 1, 1, 1, 1, 1, 1, 2];
    assert_eq!(config(Some(nearly)).pairing_plan(false), Ok(PairingPlan::CreateWith(nearly)));
}

#[test]
fn pins_consist_of_digits() {
    for pin in [[10; 8], [1, 2, 3, 4, 5, 6, 7, 10], [255, 2, 3, 4, 5, 6, 7, 8]] {
        assert_eq!(config(Some(pin)).pairing_plan(false), Err(PinError::InvalidDigit));
    }
}

#[test]
fn pins_come_from_the_bytes_of_a_hash() {
    assert_eq!(pin_candidate(0x1716_1514_1312_1110), Some([6, 7, 8, 9, 0, 1, 2, 3]));
    assert_eq!(pin_candidate(0xFF), Some([5, 0, 0, 0, 0, 0, 0, 0]));
}

#[test]
fn easy_pins_are_not_generated() {
    assert_eq!(pin_candidate(0), None);
    assert_eq!(pin_candidate(0x0807_0605_0403_0201), None);
    assert_eq!(pin_candidate(0x0102_0304_0506_0708), None);
    assert_eq!(pin_candidate(0x0B15_1F29_333D_4751), None);
}

#[test]
fn generated_pins_can_serve() {
    let mut hash: u64 = 0x9E37_79B9_7F4A_7C15;
    for _ in 0..1_000 {
        hash = hash.wrapping_mul(6_364_136_223_846_793_005).wrapping_add(1_442_695_040_888_963_407);
        if let Some(pin) = pin_candidate(hash) {
            assert_eq!(config(Some(pin)).pairing_plan(false), Ok(PairingPlan::CreateWith(pin)));
        }
    }
}

#[test]
fn addresses_come_from_the_bytes_of_a_hash() {
    assert_eq!(device_id_from_hash(0x8877_6655_4433_2211), [0x12, 0x22, 0x33, 0x44, 0x55, 0x66]);
    assert_eq!(device_id_from_hash(0), [0x02, 0, 0, 0, 0, 0]);
    assert_eq!(device_id_from_hash(u64::MAX), [0xFE, 0xFF, 0xFF, 0xFF, 0xFF, 0xFF]);
}

#[test]
fn addresses_are_local_and_unicast() {
    for low in 0..=255u64 {
        let address = device_id_from_hash(low);
        assert_eq!(address[0] & 0x03, 0x02);
    }
}

#[test]
fn addresses_are_shown() {
    assert_eq!(format_device_id([0x02, 0xAB, 0x00, 0xFF, 0x1C, 0x90]), "02:AB:00:FF:1C:90");
}

#[test]
fn serials_carry_the_address() {
    assert_eq!(
        accessory_serial([0x02, 0xAB, 0x00, 0xFF, 0x1C, 0x90]),
        "LRRM12-02-ab-00-ff-1c-90"
    );
}

#[test]
fn brightness_snaps_to_the_nearest_preset() {
    for level in 0..=100i32 {
        let (button, preset) = match snap_brightness(level) {
            Button::Brightness10 => (Button::Brightness10, 10),
            Button::Brightness50 => (Button::Brightness50, 50),
            other => (other, 100),
        };
        assert_eq!(snap_brightness(preset), button);
        for other in [10, 50, 100] {
            assert!((level - preset).abs() <= (level - other).abs());
        }
    }
    assert_eq!(snap_brightness(i32::MIN), Button::Brightness10);
    assert_eq!(snap_brightness(i32::MAX), Button::Brightness100);
}

#[test]
fn power_changes_press_a_button() {
    assert_eq!(power_update(false, true), Some(Button::TurnOn));
    assert_eq!(power_update(true, false), Some(Button::TurnOff));
    assert_eq!(power_update(true, true), None);
    assert_eq!(power_update(false, false), None);
}
