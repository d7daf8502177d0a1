//! The 40-bit packet that a button press puts on the air.
//!
//! Bit 39 is transmitted first. The fields, from the top:
//!
//! | bits  | field                                             |
//! |-------|---------------------------------------------------|
//! | 39-24 | [`DEVICE_ID`]                                     |
//! | 23-16 | command                                           |
//! | 15-8  | redundancy: `0x50 \| (command ^ 0x01)`            |
//! | 7-4   | complement of the press counter                   |
//! | 3-0   | press counter                                     |

use vstd::prelude::*;

verus! {

/// Identifier of the remote, the top 16 bits of every packet.
pub const DEVICE_ID: u16 = 0xF3A2;

/// Number of data bits in a packet.
pub const DATA_BITS: u32 = 40;

/// The redundancy byte that goes with a command.
pub open spec fn redundancy(cmd: u8) -> u8 {
    0x50u8 | (cmd ^ 0x01u8)
}

/// The 4-bit press counter that a counter argument stands for.
pub open spec fn press_number(counter: u8) -> nat {
    (counter % 16) as nat
}

/// The packet of a command and a press counter.
pub open spec fn packet_word(cmd: u8, counter: u8) -> u64 {
    (DEVICE_ID * 0x100_0000 + cmd * 0x1_0000 + redundancy(cmd) * 0x100 + (15 - press_number(
        counter,
    )) * 0x10 + press_number(counter)) as u64
}

/// Builds the packet of a raw command byte. Only the low four bits of `counter` count.
pub fn build_packet_raw(cmd: u8, counter: u8) -> (packet: u64)
    ensures
        packet == packet_word(cmd, counter),
{
    let device_id: u64 = DEVICE_ID as u64;
    let command: u64 = cmd as u64;
    let redundancy_byte: u64 = 0x50u64 | (command ^ 0x01);
    let x: u64 = (counter as u64) & 0x0F;
    let counter_byte: u64 = ((!x) & 0x0F) << 4 | x;
    proof {
        let narrow: u8 = 0x50u8 | (cmd ^ 0x01u8);
        assert(redundancy_byte == narrow as u64) by (bit_vector)
            requires
                redundancy_byte == 0x50u64 | (command ^ 0x01),
                command == cmd as u64,
                narrow == 0x50u8 | (cmd ^ 0x01u8),
        ;
        assert(x == (counter % 16) as u64 && counter_byte == (15 - x) * 16 + x) by (bit_vector)
            requires
                x == (counter as u64) & 0x0F,
                counter_byte == ((!x) & 0x0F) << 4 | x,
        ;
        assert((device_id << 24) | (command << 16) | (redundancy_byte << 8) | counter_byte
            == device_id * 0x100_0000 + command * 0x1_0000 + redundancy_byte * 0x100
            + counter_byte) by (bit_vector)
            requires
                device_id < 0x1_0000,
                command < 0x100,
                redundancy_byte < 0x100,
                counter_byte < 0x100,
        ;
    }
    (device_id << 24) | (command << 16) | (redundancy_byte << 8) | counter_byte
}

/// What a number is divided into by a unit.
proof fn lemma_divided(high: int, low: int, unit: int)
    requires
        0 <= low < unit,
    ensures
        (high * unit + low) / unit == high,
        (high * unit + low) % unit == low,
{
    vstd::arithmetic::div_mod::lemma_fundamental_div_mod_converse(
        high * unit + low,
        unit,
        high,
        low,
    );
}

/// A packet fits in its 40 bits, and each field can be read back from it.
pub proof fn packet_fields(cmd: u8, counter: u8)
    ensures
        packet_word(cmd, counter) < 0x100_0000_0000,
        packet_word(cmd, counter) / 0x100_0000 == DEVICE_ID,
        packet_word(cmd, counter) / 0x1_0000 % 0x100 == cmd,
        packet_word(cmd, counter) / 0x100 % 0x100 == redundancy(cmd),
        packet_word(cmd, counter) / 0x10 % 0x10 == 15 - press_number(counter),
        packet_word(cmd, counter) % 0x10 == press_number(counter),
{
    let (c, r) = (cmd as int, redundancy(cmd) as int);
    let x = press_number(counter) as int;
    let low = (15 - x) * 0x10 + x;
    assert(packet_word(cmd, counter) == 0xF3A2 * 0x100_0000 + c * 0x1_0000 + r * 0x100 + low);
    lemma_divided(0xF3A2, c * 0x1_0000 + r * 0x100 + low, 0x100_0000);
    lemma_divided(0xF3A2 * 0x100 + c, r * 0x100 + low, 0x1_0000);
    lemma_divided(0xF3A2 * 0x1_0000 + c * 0x100 + r, low, 0x100);
    lemma_divided(0xF3A2 * 0x10_0000 + c * 0x1000 + r * 0x10 + (15 - x), x, 0x10);
    lemma_divided(0xF3A2, c, 0x100);
    lemma_divided(0xF3A2 * 0x100 + c, r, 0x100);
    lemma_divided(0xF3A2 * 0x1_0000 + c * 0x100 + r, 15 - x, 0x10);
}

/// Two packets are equal exactly when their commands are, and their counters
/// agree in the low four bits.
pub proof fn packet_identifies_press(cmd: u8, counter: u8, other_cmd: u8, other_counter: u8)
    ensures
        packet_word(cmd, counter) == packet_word(other_cmd, other_counter) <==> cmd == other_cmd
            && press_number(counter) == press_number(other_counter),
{
    packet_fields(cmd, counter);
    packet_fields(other_cmd, other_counter);
}

/// The fields of a packet in numbers: the device id 0xF3A2, the command, and the low
/// four bits of the counter behind their complement.
pub proof fn packet_holds_its_press(cmd: u8, counter: u8)
    ensures
        packet_word(cmd, counter) / 0x100_0000 == 0xF3A2,
        packet_word(cmd, counter) / 0x1_0000 % 0x100 == cmd,
        packet_word(cmd, counter) % 0x10 == counter % 16,
        packet_word(cmd, counter) / 0x10 % 0x10 + packet_word(cmd, counter) % 0x10 == 15,
{
    packet_fields(cmd, counter);
}

/// The redundancy byte repeats the command, bit for bit: the lowest bit is turned over,
/// bits 4 and 6 are set whatever the command, and the others are those of the command.
pub proof fn redundancy_repeats_command(cmd: u8, counter: u8)
    ensures
        ({
            let byte = packet_word(cmd, counter) / 0x100 % 0x100;
            &&& byte % 2 != cmd % 2
            &&& byte / 2 % 2 == cmd / 2 % 2
            &&& byte / 4 % 2 == cmd / 4 % 2
            &&& byte / 8 % 2 == cmd / 8 % 2
            &&& byte / 16 % 2 == 1
            &&& byte / 32 % 2 == cmd / 32 % 2
            &&& byte / 64 % 2 == 1
            &&& byte / 128 % 2 == cmd / 128 % 2
        }),
{
    packet_fields(cmd, counter);
    let byte = redundancy(cmd);
    assert(byte % 2 != cmd % 2 && byte / 2 % 2 == cmd / 2 % 2 && byte / 4 % 2 == cmd / 4 % 2
        && byte / 8 % 2 == cmd / 8 % 2 && byte / 16 % 2 == 1 && byte / 32 % 2 == cmd / 32 % 2
        && byte / 64 % 2 == 1 && byte / 128 % 2 == cmd / 128 % 2) by (bit_vector)
        requires
            byte == 0x50u8 | (cmd ^ 0x01u8),
    ;
}

} // verus!
