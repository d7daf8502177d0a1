//! Handing a press to the transmitter.

use led_remote::encode_press_raw;
use led_remote::transmit::{padded_press, Burst, Chunk};

#[test]
fn presses_are_padded_with_silence() {
    let press = encode_press_raw(0x0E, 2, 2, 8_000);
    let padded = padded_press(0x0E, 2, 2, 8_000, 40, 160);
    assert_eq!(padded.len(), 40 + press.len() + 160);
    assert!(padded[..40].iter().all(|&on| !on));
    assert_eq!(padded[40..40 + press.len()], press[..]);
    assert!(padded[40 + press.len()..].iter().all(|&on| !on));
    assert_eq!(padded_press(0x0E, 2, 2, 8_000, 0, 0), press);
    assert_eq!(padded_press(0x0E, 2, 0, 8_000, 1, 2), [false; 3]);
}

#[test]
fn bursts_are_cut_into_pieces() {
    let mut burst = Burst::new(10);
    assert_eq!(burst.next_chunk(4), Some(Chunk { start: 0, end: 4, end_of_burst: false }));
    burst.advance(4);
    assert_eq!(burst.next_chunk(4), Some(Chunk { start: 4, end: 8, end_of_burst: false }));
    burst.advance(4);
    assert_eq!(burst.next_chunk(4), Some(Chunk { start: 8, end: 10, end_of_burst: true }));
    burst.advance(2);
    assert_eq!(burst.next_chunk(4), None);
}

#[test]
fn pieces_begin_where_the_device_stopped() {
    let mut burst = Burst::new(10);
    burst.advance(3);
    assert_eq!(burst.next_chunk(7), Some(Chunk { start: 3, end: 10, end_of_burst: true }));
    burst.advance(0);
    assert_eq!(burst.next_chunk(6), Some(Chunk { start: 3, end: 9, end_of_burst: false }));
    assert_eq!(
        burst.next_chunk(usize::MAX),
        Some(Chunk { start: 3, end: 10, end_of_burst: true })
    );
    assert_eq!(burst.next_chunk(0), Some(Chunk { start: 3, end: 3, end_of_burst: false }));
}

#[test]
fn empty_bursts_have_no_pieces() {
    assert_eq!(Burst::new(0).next_chunk(100), None);
}

#[test]
fn devices_are_given_the_burst_in_order() {
    let samples = padded_press(0x21, 11, 1, 8_000, 3, 5);
    for mtu in [1usize, 7, 64, 10_000] {
        let mut given: Vec<bool> = Vec::new();
        let mut ends: Vec<bool> = Vec::new();
        let mut burst = Burst::new(samples.len());
        let mut turn: usize = 0;
        while let Some(chunk) = burst.next_chunk(mtu) {
            let offered = chunk.end - chunk.start;
            assert!(0 < offered && offered <= mtu);
            let taken = offered - turn % 2 * (offered / 2);
            given.extend_from_slice(&samples[chunk.start..chunk.start + taken]);
            ends.push(chunk.end_of_burst);
            burst.advance(taken);
            turn += 1;
        }
        assert_eq!(given, samples);
        assert_eq!(ends.last(), Some(&true));
    }
}
