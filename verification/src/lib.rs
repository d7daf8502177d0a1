//! Protocol core of a transmitter for the Rayrun RM12 LED remote control.
//!
//! A button press is a 40-bit [`packet`], sent several times over as an on/off
//! keyed [`signal`], whose [`shape`] is told sample by sample. The receiving side,
//! [`decode`], reads the packets back; [`reading`] tells which runs are packets.
//! [`round_trip`] states that both fit together, [`recording`] that they do for several presses
//! in a row, [`smoothing`] that they still do once the signal has been smoothed and
//! sliced, and [`resolution`] at which sample rates they cannot. Around them stand what
//! the command line, the web interface and the HomeKit accessory decide before
//! anything is sent.

pub mod button;
pub mod capture;
pub mod command;
pub mod counter;
pub mod decode;
pub mod envelope;
pub mod homekit;
pub mod iids;
pub mod json;
pub mod packet;
pub mod reading;
pub mod recording;
pub mod report;
pub mod resolution;
pub mod round_trip;
pub mod serve;
pub mod shape;
pub mod signal;
pub mod smoothing;
pub mod state;
pub mod text;
pub mod timing;
pub mod transmit;

pub use crate::button::{build_packet, Button};
pub use crate::capture::Capture;
pub use crate::command::parse_hex_byte;
pub use crate::decode::{decode_packets, run_lengths};
pub use crate::packet::{build_packet_raw, DATA_BITS, DEVICE_ID};
pub use crate::signal::{encode_button_press, encode_packet, encode_press_raw};
pub use crate::timing::{
    us_to_samples, DATA_ON_US, DEFAULT_CENTER_FREQ_HZ, DEFAULT_SAMPLE_RATE, INTER_PACKET_GAP_US,
    LONG_OFF_US, PREAMBLE_ON_US, SHORT_OFF_US, STOP_ON_US, SYNC_OFF_US,
};
