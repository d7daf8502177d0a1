//! Recordings.

use led_remote::capture::{
    data_file_name, meta_file_name, meta_from_fields, parse_meta, samples_from_bytes,
    samples_to_bytes, CaptureMeta, IqBits, MetaError,
};
use led_remote::Capture;

const META: &str = r#"{
    "global": {"core:datatype": "cf32_le", "core:sample_rate": 500000},
    "captures": [
        {"core:sample_start": 0, "core:frequency": 433870000},
        {"core:frequency": 1}
    ],
    "annotations": []
}"#;

#[test]
fn descriptions_are_read() {
    assert_eq!(
        parse_meta(META).unwrap(),
        CaptureMeta { sample_rate: 500_000, center_frequency: 433_870_000 }
    );
}

#[test]
fn rates_are_cut_to_their_low_bits() {
    let meta = parse_meta(
        r#"{"global":{"core:sample_rate":4294967303},"captures":[{"core:frequency":18446744073709551615}]}"#,
    );
    assert_eq!(meta.unwrap(), CaptureMeta { sample_rate: 7, center_frequency: u64::MAX });
}

#[test]
fn broken_descriptions_are_refused() {
    for text in ["", "{", "{\"global\":}", "{} {}"] {
        assert!(matches!(parse_meta(text), Err(MetaError::Json(_))), "{text}");
    }
}

#[test]
fn missing_rates_are_told_first() {
    for text in [
        "null",
        "[]",
        "{}",
        r#"{"global":{}}"#,
        r#"{"global":[],"captures":[{"core:frequency":1}]}"#,
        r#"{"global":{"core:sample_rate":"500000"},"captures":[{"core:frequency":1}]}"#,
        r#"{"global":{"core:sample_rate":-1},"captures":[{"core:frequency":1}]}"#,
        r#"{"global":{"core:sample_rate":500000.0},"captures":[{"core:frequency":1}]}"#,
    ] {
        assert!(matches!(parse_meta(text), Err(MetaError::MissingSampleRate)), "{text}");
    }
}

#[test]
fn missing_frequencies_are_told() {
    for text in [
        r#"{"global":{"core:sample_rate":5}}"#,
        r#"{"global":{"core:sample_rate":5},"captures":[]}"#,
        r#"{"global":{"core:sample_rate":5},"captures":{"0":{"core:frequency":1}}}"#,
        r#"{"global":{"core:sample_rate":5},"captures":[{}, {"core:frequency":1}]}"#,
        r#"{"global":{"core:sample_rate":5},"captures":[{"core:frequency":null}]}"#,
    ] {
        assert!(matches!(parse_meta(text), Err(MetaError::MissingFrequency)), "{text}");
    }
}

#[test]
fn fields_are_judged() {
    assert_eq!(
        meta_from_fields(Some(1 << 40 | 9), Some(3)).unwrap(),
        CaptureMeta { sample_rate: 9, center_frequency: 3 }
    );
    assert!(matches!(meta_from_fields(None, None), Err(MetaError::MissingSampleRate)));
    assert!(matches!(meta_from_fields(None, Some(3)), Err(MetaError::MissingSampleRate)));
    assert!(matches!(meta_from_fields(Some(1), None), Err(MetaError::MissingFrequency)));
}

#[test]
fn samples_are_little_endian() {
    let mut raw: Vec<u8> = Vec::new();
    for part in [1.0f32, -0.5, 0.25, f32::MIN_POSITIVE] {
        raw.extend_from_slice(&part.to_le_bytes());
    }
    let samples = samples_from_bytes(&raw);
    assert_eq!(
        samples,
        [
            IqBits { re: 1.0f32.to_bits(), im: (-0.5f32).to_bits() },
            IqBits { re: 0.25f32.to_bits(), im: f32::MIN_POSITIVE.to_bits() },
        ]
    );
    assert_eq!(samples_to_bytes(&samples), raw);
}

#[test]
fn incomplete_samples_are_left_out() {
    let raw: Vec<u8> = (0..23u8).collect();
    let samples = samples_from_bytes(&raw);
    assert_eq!(samples.len(), 2);
    assert_eq!(samples[1], IqBits { re: 0x0B0A_0908, im: 0x0F0E_0D0C });
    assert_eq!(samples_to_bytes(&samples), raw[..16]);
    assert!(samples_from_bytes(&raw[..7]).is_empty());
    assert!(samples_to_bytes(&[]).is_empty());
}

#[test]
fn written_samples_are_read_back() {
    let samples: Vec<IqBits> = (0..100u32)
        .map(|i| IqBits { re: i.wrapping_mul(0x9E37_79B9), im: !i.wrapping_mul(0x85EB_CA6B) })
        .collect();
    assert_eq!(samples_from_bytes(&samples_to_bytes(&samples)), samples);
}

#[test]
fn recordings_are_put_together() {
    let capture = Capture::assemble(parse_meta(META).unwrap(), &[1, 0, 0, 0, 2, 0, 0, 0]);
    assert_eq!(capture.samples, [IqBits { re: 1, im: 2 }]);
    assert_eq!(capture.sample_rate, 500_000);
    assert_eq!(capture.center_frequency, 433_870_000);
}

#[test]
fn recordings_have_two_files() {
    assert_eq!(meta_file_name("turn_on"), "turn_on.sigmf-meta");
    assert_eq!(data_file_name("turn_on"), "turn_on.sigmf-data");
}
