//! The HomeKit accessory: setup pin, identity, instance ids, and what a write
//! to one of its characteristics asks for.

pub use crate::iids::{fix_lightbulb_iids, LightbulbIids};

use crate::button::Button;
use crate::text;
use vstd::arithmetic::power2::pow2;
use vstd::prelude::*;

verus! {

/// Declares `std::path::PathBuf`.
#[verifier::external_type_specification]
#[verifier::external_body]
pub struct ExPathBuf(std::path::PathBuf);

/// What the user sets up for the accessory.
pub struct HomekitConfig {
    /// The name that the accessory is shown under.
    pub name: String,
    /// The setup pin. Without one, a random pin is generated when the accessory
    /// is first set up. Once a pairing has been saved, this is not looked at.
    pub pin: Option<[u8; 8]>,
    /// Where the pairing is saved.
    pub state_dir: std::path::PathBuf,
}

/// Why a pin cannot serve as setup pin.
#[derive(Copy, Clone, Debug, PartialEq, Eq, Structural)]
pub enum PinError {
    /// It is one of those that are too easy to guess.
    TooEasy,
    /// It holds something else than decimal digits.
    InvalidDigit,
}

/// The pins that are too easy to guess: 12345678, 87654321, and eight times the
/// same digit.
pub open spec fn too_easy(pin: Seq<u8>) -> bool {
    ||| pin == seq![1u8, 2, 3, 4, 5, 6, 7, 8]
    ||| pin == seq![8u8, 7, 6, 5, 4, 3, 2, 1]
    ||| pin[0] <= 9 && forall|i: int| 0 <= i < pin.len() ==> #[trigger] pin[i] == pin[0]
}

/// Every element is a decimal digit.
pub open spec fn all_digits(pin: Seq<u8>) -> bool {
    forall|i: int| 0 <= i < pin.len() ==> #[trigger] pin[i] <= 9
}

/// What is to be said of a pin.
pub open spec fn pin_verdict(pin: Seq<u8>) -> Result<(), PinError> {
    if too_easy(pin) {
        Err(PinError::TooEasy)
    } else if !all_digits(pin) {
        Err(PinError::InvalidDigit)
    } else {
        Ok(())
    }
}

/// Calls `hap::Pin::new`. It refuses the pins that are too easy to guess, and
/// of the others those that hold anything but decimal digits; it gives no other
/// errors than these two.
#[verifier::external_body]
fn hap_verdict(pin: [u8; 8]) -> (verdict: Result<(), PinError>)
    ensures
        verdict == pin_verdict(pin@),
{
    match hap::Pin::new(pin) {
        Ok(_) => Ok(()),
        Err(hap::Error::PinTooEasy) => Err(PinError::TooEasy),
        Err(_) => Err(PinError::InvalidDigit),
    }
}

/// A decimal digit.
pub open spec fn is_digit(c: char) -> bool {
    '0' as u32 <= c as u32 <= '9' as u32
}

/// The digits in a text, in their order; everything else is passed over.
pub open spec fn digits_in(text: Seq<char>) -> Seq<u8>
    decreases text.len(),
{
    if text.len() == 0 {
        Seq::empty()
    } else if is_digit(text.last()) {
        digits_in(text.drop_last()).push((text.last() as u32 - '0' as u32) as u8)
    } else {
        digits_in(text.drop_last())
    }
}

/// The message for a text that does not hold eight digits.
pub open spec fn wrong_length_message(text: Seq<char>) -> Seq<char> {
    "pin must be 8 digits (got "@ + text::decimal(digits_in(text).len()) + " from '"@ + text + "')"@
}

/// Reads a pin: eight decimal digits, with anything else between them.
pub fn parse_pin(s: &str) -> (pin: Result<[u8; 8], String>)
    ensures
        match pin {
            Ok(pin) => pin@ == digits_in(s@),
            Err(message) => digits_in(s@).len() != 8 && message@ == wrong_length_message(s@),
        },
        pin matches Err(message) ==> message@ == "pin must be 8 digits (got "@ + text::decimal(
            digits_in(s@).len(),
        ) + " from '"@ + s@ + "')"@,
{
    let mut digits: Vec<u8> = Vec::new();
    for c in it: s.chars()
        invariant
            it.seq() == s@,
            digits@ == digits_in(s@.take(it.index() as int)),
    {
        proof {
            let next = s@.take(it.index() + 1);
            assert(next.drop_last() =~= s@.take(it.index() as int));
            assert(next.last() == c);
        }
        let code: u32 = c as u32;
        if 48 <= code && code <= 57 {
            digits.push((code - 48) as u8);
        }
    }
    assert(s@.take(s@.len() as int) =~= s@);
    if digits.len() != 8 {
        let mut message: String = "pin must be 8 digits (got ".to_owned();
        text::push_decimal(&mut message, digits.len() as u64);
        message.append(" from '");
        message.append(s);
        message.append("')");
        return Err(message);
    }
    let pin: [u8; 8] = [
        digits[0],
        digits[1],
        digits[2],
        digits[3],
        digits[4],
        digits[5],
        digits[6],
        digits[7],
    ];
    assert(pin@ =~= digits@);
    Ok(pin)
}

/// A pin as it is shown: three digits, two and three, with dashes between.
pub open spec fn shown_pin(pin: Seq<u8>) -> Seq<char> {
    text::decimal(pin[0] as nat) + text::decimal(pin[1] as nat) + text::decimal(pin[2] as nat)
        + "-"@ + text::decimal(pin[3] as nat) + text::decimal(pin[4] as nat) + "-"@ + text::decimal(
        pin[5] as nat,
    ) + text::decimal(pin[6] as nat) + text::decimal(pin[7] as nat)
}

/// A pin as it is shown to the user.
pub fn format_pin(pin: [u8; 8]) -> (shown: String)
    ensures
        shown@ == shown_pin(pin@),
        shown@ == text::decimal(pin@[0] as nat) + text::decimal(pin@[1] as nat) + text::decimal(
            pin@[2] as nat,
        ) + "-"@ + text::decimal(pin@[3] as nat) + text::decimal(pin@[4] as nat) + "-"@
            + text::decimal(pin@[5] as nat) + text::decimal(pin@[6] as nat) + text::decimal(
            pin@[7] as nat,
        ),
{
    let mut shown: String = String::new();
    text::push_decimal(&mut shown, pin[0] as u64);
    text::push_decimal(&mut shown, pin[1] as u64);
    text::push_decimal(&mut shown, pin[2] as u64);
    shown.append("-");
    text::push_decimal(&mut shown, pin[3] as u64);
    text::push_decimal(&mut shown, pin[4] as u64);
    shown.append("-");
    text::push_decimal(&mut shown, pin[5] as u64);
    text::push_decimal(&mut shown, pin[6] as u64);
    text::push_decimal(&mut shown, pin[7] as u64);
    assert(shown@ =~= shown_pin(pin@));
    shown
}

proof fn lemma_digits_of_digit(before: Seq<char>, digit: u8)
    requires
        digit <= 9,
    ensures
        digits_in(before + text::decimal(digit as nat)) == digits_in(before).push(digit),
{
    let longer = before + text::decimal(digit as nat);
    assert(longer.drop_last() =~= before);
    assert(longer.last() == text::digit_char(digit as nat));
}

proof fn lemma_digits_of_dash(before: Seq<char>)
    ensures
        digits_in(before + "-"@) == digits_in(before),
{
    reveal_strlit("-");
    let longer = before + "-"@;
    assert(longer.drop_last() =~= before);
    assert(longer.last() == '-');
}

/// A pin of decimal digits is read back from the way it is shown.
#[verifier::rlimit(40)]
pub proof fn shown_pin_reads_back(pin: Seq<u8>)
    requires
        pin.len() == 8,
        all_digits(pin),
    ensures
        digits_in(shown_pin(pin)) == pin,
{
    let dash = "-"@;
    let s0 = Seq::<char>::empty() + text::decimal(pin[0] as nat);
    let s1 = s0 + text::decimal(pin[1] as nat);
    let s2 = s1 + text::decimal(pin[2] as nat);
    let s3 = s2 + dash + text::decimal(pin[3] as nat);
    let s4 = s3 + text::decimal(pin[4] as nat);
    let s5 = s4 + dash + text::decimal(pin[5] as nat);
    let s6 = s5 + text::decimal(pin[6] as nat);
    lemma_digits_of_digit(Seq::empty(), pin[0]);
    lemma_digits_of_digit(s0, pin[1]);
    lemma_digits_of_digit(s1, pin[2]);
    lemma_digits_of_dash(s2);
    lemma_digits_of_digit(s2 + dash, pin[3]);
    lemma_digits_of_digit(s3, pin[4]);
    lemma_digits_of_dash(s4);
    lemma_digits_of_digit(s4 + dash, pin[5]);
    lemma_digits_of_digit(s5, pin[6]);
    lemma_digits_of_digit(s6, pin[7]);
    assert(shown_pin(pin) =~= s6 + text::decimal(pin[7] as nat));
    assert(digits_in(shown_pin(pin)) =~= pin);
}

/// A pin of decimal digits is read back from the bare digits.
pub proof fn bare_pin_reads_back(pin: Seq<u8>)
    requires
        all_digits(pin),
    ensures
        digits_in(pin.map_values(|digit: u8| text::digit_char(digit as nat))) == pin,
    decreases pin.len(),
{
    let shown = pin.map_values(|digit: u8| text::digit_char(digit as nat));
    if pin.len() > 0 {
        let before = pin.drop_last();
        assert forall|i: int| 0 <= i < before.len() implies #[trigger] before[i] <= 9 by {
            assert(pin[i] <= 9);
        }
        bare_pin_reads_back(before);
        assert(shown.drop_last() =~= before.map_values(
            |digit: u8| text::digit_char(digit as nat),
        ));
        assert(pin[pin.len() - 1] <= 9);
        assert(shown.last() == text::digit_char(pin.last() as nat));
    }
    assert(digits_in(shown) =~= pin);
}

/// Byte `k` of a hash, the lowest first.
pub open spec fn hash_byte(hash: u64, k: nat) -> u8 {
    (hash as nat / pow2(8 * k) % 256) as u8
}

fn byte_of_hash(hash: u64, k: u64) -> (byte: u8)
    requires
        k < 8,
    ensures
        byte == hash_byte(hash, k as nat),
{
    proof {
        vstd::bits::lemma_u64_shr_is_div(hash, (8 * k) as u64);
    }
    let shifted: u64 = hash >> (8 * k);
    (shifted % 256) as u8
}

/// The pin that a hash stands for: its bytes, each cut to one digit.
pub open spec fn hash_pin(hash: u64) -> Seq<u8> {
    Seq::new(8, |k: int| (hash_byte(hash, k as nat) % 10) as u8)
}

/// A pin that a hash stands for consists of digits, so that it can serve unless it is too
/// easy.
proof fn lemma_hash_pin_verdict(hash: u64)
    ensures
        pin_verdict(hash_pin(hash)) is Ok <==> !too_easy(hash_pin(hash)),
{
    assert(all_digits(hash_pin(hash)));
}

/// The pin that a hash stands for, unless it cannot serve as setup pin: then
/// another hash has to be tried.
pub fn pin_candidate(hash: u64) -> (pin: Option<[u8; 8]>)
    ensures
        match pin {
            Some(pin) => pin@ == hash_pin(hash) && !too_easy(hash_pin(hash)),
            None => too_easy(hash_pin(hash)),
        },
        pin is Some <==> pin_verdict(hash_pin(hash)) is Ok,
{
    let pin: [u8; 8] = [
        byte_of_hash(hash, 0) % 10,
        byte_of_hash(hash, 1) % 10,
        byte_of_hash(hash, 2) % 10,
        byte_of_hash(hash, 3) % 10,
        byte_of_hash(hash, 4) % 10,
        byte_of_hash(hash, 5) % 10,
        byte_of_hash(hash, 6) % 10,
        byte_of_hash(hash, 7) % 10,
    ];
    assert(pin@ =~= hash_pin(hash));
    proof {
        lemma_hash_pin_verdict(hash);
    }
    match hap_verdict(pin) {
        Ok(_) => Some(pin),
        Err(_) => None,
    }
}

/// Whatever the hash, a generated pin can serve as setup pin.
pub proof fn generated_pins_are_accepted(hash: u64)
    requires
        !too_easy(hash_pin(hash)),
    ensures
        pin_verdict(hash_pin(hash)) == Ok::<(), PinError>(()),
{
}

/// The hardware address that a hash stands for.
pub open spec fn hash_address(hash: u64) -> Seq<u8> {
    Seq::new(
        6,
        |k: int|
            if k == 0 {
                (hash_byte(hash, 0) / 4 * 4 + 2) as u8
            } else {
                hash_byte(hash, k as nat)
            },
    )
}

/// The hardware address that a hash stands for: its first six bytes, marked as
/// locally administered and unicast.
pub fn device_id_from_hash(hash: u64) -> (address: [u8; 6])
    ensures
        address@ == hash_address(hash),
{
    let first: u8 = byte_of_hash(hash, 0);
    assert((first & 0xFC) | 0x02 == first / 4 * 4 + 2) by (bit_vector);
    let address: [u8; 6] = [
        (first & 0xFC) | 0x02,
        byte_of_hash(hash, 1),
        byte_of_hash(hash, 2),
        byte_of_hash(hash, 3),
        byte_of_hash(hash, 4),
        byte_of_hash(hash, 5),
    ];
    assert(address@ =~= hash_address(hash));
    address
}

/// Whatever the hash, bit 0 of the first byte is clear (unicast) and bit 1 is
/// set (locally administered).
pub proof fn addresses_are_local_unicast(hash: u64)
    ensures
        hash_address(hash)[0] % 2 == 0,
        hash_address(hash)[0] / 2 % 2 == 1,
{
    let first = hash_byte(hash, 0);
    assert(first / 4 * 4 + 2 <= 255);
}

/// A hardware address as it is shown: upper-case pairs with colons between.
pub open spec fn shown_address(address: Seq<u8>) -> Seq<char> {
    text::joined(address.map_values(|byte: u8| text::hex_digits(byte as nat, 2)), ":"@)
}

/// A hardware address as it is shown to the user.
pub fn format_device_id(address: [u8; 6]) -> (shown: String)
    ensures
        shown@ == shown_address(address@),
{
    let ghost pairs = address@.map_values(|byte: u8| text::hex_digits(byte as nat, 2));
    let mut shown: String = String::new();
    let mut i: usize = 0;
    while i < 6
        invariant
            i <= 6,
            pairs == address@.map_values(|byte: u8| text::hex_digits(byte as nat, 2)),
            shown@ == text::joined(pairs.take(i as int), ":"@),
        decreases 6 - i,
    {
        if i > 0 {
            shown.append(":");
        }
        text::push_hex_digits(&mut shown, address[i] as u64, 2);
        assert(pairs.take(i + 1).drop_last() =~= pairs.take(i as int));
        i += 1;
    }
    assert(pairs.take(6) =~= pairs);
    shown
}

/// The lower-case form of a hexadecimal digit.
pub open spec fn small_digit(digit: nat) -> char {
    if digit == 10 {
        'a'
    } else if digit == 11 {
        'b'
    } else if digit == 12 {
        'c'
    } else if digit == 13 {
        'd'
    } else if digit == 14 {
        'e'
    } else if digit == 15 {
        'f'
    } else {
        text::digit_char(digit)
    }
}

/// A byte as two lower-case hexadecimal digits.
pub open spec fn small_pair(byte: u8) -> Seq<char> {
    seq![small_digit((byte / 16) as nat), small_digit((byte % 16) as nat)]
}

/// A hardware address in canonical form: lower-case pairs with hyphens between.
pub open spec fn canonical_address(address: Seq<u8>) -> Seq<char> {
    text::joined(address.map_values(|byte: u8| small_pair(byte)), seq!['-'])
}

/// Calls `hap::MacAddress::to_canonical` on the address of six bytes: each byte
/// as two lower-case hexadecimal digits, with hyphens between.
#[verifier::external_body]
fn mac_text(address: [u8; 6]) -> (shown: String)
    ensures
        shown@ == canonical_address(address@),
{
    hap::MacAddress::new(address).to_canonical()
}

/// The serial number of the accessory with a hardware address.
pub fn accessory_serial(address: [u8; 6]) -> (serial: String)
    ensures
        serial@ == "LRRM12-"@ + canonical_address(address@),
{
    let mut serial: String = "LRRM12-".to_owned();
    serial.append(mac_text(address).as_str());
    serial
}

/// What to do about the pairing when the accessory starts.
#[derive(Copy, Clone, Debug, PartialEq, Eq)]
pub enum PairingPlan {
    /// Go on with the one that was saved.
    KeepSaved,
    /// Set up a new one with this pin.
    CreateWith([u8; 8]),
    /// Set up a new one with a generated pin.
    CreateWithGenerated,
}

impl HomekitConfig {
    /// Decides about the pairing. The configured pin counts only where none was
    /// saved, and has to be one that can serve as setup pin.
    pub fn pairing_plan(&self, saved: bool) -> (plan: Result<PairingPlan, PinError>)
        ensures
            plan == if saved {
                Ok(PairingPlan::KeepSaved)
            } else {
                match self.pin {
                    None => Ok(PairingPlan::CreateWithGenerated),
                    Some(pin) => match pin_verdict(pin@) {
                        Ok(_) => Ok(PairingPlan::CreateWith(pin)),
                        Err(error) => Err(error),
                    },
                }
            },
    {
        if saved {
            return Ok(PairingPlan::KeepSaved);
        }
        match self.pin {
            None => Ok(PairingPlan::CreateWithGenerated),
            Some(pin) => match hap_verdict(pin) {
                Ok(_) => Ok(PairingPlan::CreateWith(pin)),
                Err(error) => Err(error),
            },
        }
    }
}

/// A button that sets the brightness to a fixed value.
pub open spec fn is_preset(button: Button) -> bool {
    button == Button::Brightness10 || button == Button::Brightness50 || button
        == Button::Brightness100
}

/// The brightness, in percent, that one of the three brightness buttons sets. The
/// other buttons set none, and are not meant here.
pub open spec fn preset(button: Button) -> int
    recommends
        is_preset(button),
{
    match button {
        Button::Brightness10 => 10,
        Button::Brightness50 => 50,
        _ => 100,
    }
}

/// The button for a brightness, with the bounds halfway between two presets.
pub open spec fn snapped(level: int) -> Button {
    if level < 30 {
        Button::Brightness10
    } else if level < 75 {
        Button::Brightness50
    } else {
        Button::Brightness100
    }
}

/// No preset is nearer to a brightness than the one it snaps to, and the other
/// one that is as near, if there is one, is the lower.
pub proof fn snaps_to_nearest_preset(level: int, other: Button)
    requires
        is_preset(other),
    ensures
        is_preset(snapped(level)),
        ({
            let chosen = preset(snapped(level)) - level;
            let rival = preset(other) - level;
            let chosen_distance = if chosen < 0 {
                -chosen
            } else {
                chosen
            };
            let rival_distance = if rival < 0 {
                -rival
            } else {
                rival
            };
            ||| chosen_distance < rival_distance
            ||| chosen_distance == rival_distance && preset(other) <= preset(snapped(level))
        }),
{
}

/// The button for a brightness: the one of the three presets that is nearest.
pub fn snap_brightness(level: i32) -> (button: Button)
    ensures
        button == snapped(level as int),
        button == Button::Brightness10 <==> level <= 29,
        button == Button::Brightness50 <==> 30 <= level <= 74,
        button == Button::Brightness100 <==> 75 <= level,
{
    if level <= 29 {
        Button::Brightness10
    } else if level <= 74 {
        Button::Brightness50
    } else {
        Button::Brightness100
    }
}

/// The button for a write to the power state: none where nothing changes.
pub fn power_update(current: bool, new: bool) -> (button: Option<Button>)
    ensures
        button == if current == new {
            None
        } else if new {
            Some(Button::TurnOn)
        } else {
            Some(Button::TurnOff)
        },
{
    if current == new {
        None
    } else if new {
        Some(Button::TurnOn)
    } else {
        Some(Button::TurnOff)
    }
}

/// Of all pins of eight digits, those are refused as too easy that repeat one digit, or
/// count up from 1 or down from 8; whatever else holds anything but digits is refused for
/// that, and all other pins can serve.
pub proof fn pins_are_judged(pin: Seq<u8>)
    requires
        pin.len() == 8,
    ensures
        ({
            let repeated = pin[0] <= 9 && pin[0] == pin[1] && pin[1] == pin[2] && pin[2] == pin[3]
                && pin[3] == pin[4] && pin[4] == pin[5] && pin[5] == pin[6] && pin[6] == pin[7];
            let up = forall|i: int| 0 <= i < 8 ==> #[trigger] pin[i] == i + 1;
            let down = forall|i: int| 0 <= i < 8 ==> #[trigger] pin[i] == 8 - i;
            let strange = exists|i: int| 0 <= i < 8 && #[trigger] pin[i] > 9;
            pin_verdict(pin) == if repeated || up || down {
                Err(PinError::TooEasy)
            } else if strange {
                Err(PinError::InvalidDigit)
            } else {
                Ok(())
            }
        }),
{
    let up = forall|i: int| 0 <= i < 8 ==> #[trigger] pin[i] == i + 1;
    let down = forall|i: int| 0 <= i < 8 ==> #[trigger] pin[i] == 8 - i;
    if up {
        assert(pin =~= seq![1u8, 2, 3, 4, 5, 6, 7, 8]);
    }
    if down {
        assert(pin =~= seq![8u8, 7, 6, 5, 4, 3, 2, 1]);
    }
}

/// The digits of a text are those of its parts, one after the other; of a single
/// character, it is the digit that it is, or none.
pub proof fn digits_are_picked(a: Seq<char>, b: Seq<char>, c: char)
    ensures
        digits_in(a + b) == digits_in(a) + digits_in(b),
        48 <= c as u32 <= 57 ==> digits_in(seq![c]) == seq![(c as u32 - 48) as u8],
        !(48 <= c as u32 <= 57) ==> digits_in(seq![c]) == Seq::<u8>::empty(),
    decreases b.len(),
{
    let one = seq![c];
    assert(one.drop_last() =~= Seq::empty());
    assert(digits_in(one.drop_last()) =~= Seq::empty());
    if b.len() == 0 {
        assert(a + b =~= a);
        assert(digits_in(a) + digits_in(b) =~= digits_in(a));
    } else {
        digits_are_picked(a, b.drop_last(), c);
        assert((a + b).drop_last() =~= a + b.drop_last());
        assert(digits_in(a + b) =~= digits_in(a) + digits_in(b));
    }
}

/// A pin of digits is shown in ten characters: three digits, a dash, two, a dash, three.
pub proof fn shown_pin_is_grouped(pin: Seq<u8>)
    requires
        pin.len() == 8,
        all_digits(pin),
    ensures
        ({
            let shown = shown_pin(pin);
            &&& shown.len() == 10
            &&& shown[3] == '-' && shown[6] == '-'
            &&& shown[0] as u32 == 48 + pin[0] && shown[1] as u32 == 48 + pin[1]
            &&& shown[2] as u32 == 48 + pin[2] && shown[4] as u32 == 48 + pin[3]
            &&& shown[5] as u32 == 48 + pin[4] && shown[7] as u32 == 48 + pin[5]
            &&& shown[8] as u32 == 48 + pin[6] && shown[9] as u32 == 48 + pin[7]
        }),
{
    reveal_strlit("-");
    assert forall|i: int| 0 <= i < 8 implies text::decimal(#[trigger] pin[i] as nat).len() == 1
        && text::decimal(pin[i] as nat)[0] as u32 == 48 + pin[i] by {
        text::decimal_grows(0, pin[i] as nat);
        text::digit_is_shown(pin[i] as nat);
    }
    assert(pin[0] <= 9 && pin[1] <= 9 && pin[2] <= 9 && pin[3] <= 9);
    assert(pin[4] <= 9 && pin[5] <= 9 && pin[6] <= 9 && pin[7] <= 9);
}

/// The bytes of a hash by number, the lowest first.
proof fn lemma_hash_bytes(hash: u64)
    ensures
        hash_byte(hash, 0) == hash % 0x100,
        hash_byte(hash, 1) == hash / 0x100 % 0x100,
        hash_byte(hash, 2) == hash / 0x1_0000 % 0x100,
        hash_byte(hash, 3) == hash / 0x100_0000 % 0x100,
        hash_byte(hash, 4) == hash / 0x1_0000_0000 % 0x100,
        hash_byte(hash, 5) == hash / 0x100_0000_0000 % 0x100,
        hash_byte(hash, 6) == hash / 0x1_0000_0000_0000 % 0x100,
        hash_byte(hash, 7) == hash / 0x100_0000_0000_0000 % 0x100,
{
    vstd::arithmetic::power2::lemma2_to64();
    vstd::arithmetic::power2::lemma2_to64_rest();
    assert(hash as nat / 1 == hash);
}

/// Each digit of a generated pin is what is left of one byte of the hash, divided by ten.
pub proof fn pin_comes_from_the_hash(hash: u64)
    ensures
        ({
            let pin = hash_pin(hash);
            &&& pin.len() == 8
            &&& pin[0] == hash % 0x100 % 10
            &&& pin[1] == hash / 0x100 % 0x100 % 10
            &&& pin[2] == hash / 0x1_0000 % 0x100 % 10
            &&& pin[3] == hash / 0x100_0000 % 0x100 % 10
            &&& pin[4] == hash / 0x1_0000_0000 % 0x100 % 10
            &&& pin[5] == hash / 0x100_0000_0000 % 0x100 % 10
            &&& pin[6] == hash / 0x1_0000_0000_0000 % 0x100 % 10
            &&& pin[7] == hash / 0x100_0000_0000_0000 % 0x100 % 10
        }),
{
    lemma_hash_bytes(hash);
}

/// A generated address is the six lowest bytes of the hash, but for the two lowest bits
/// of the first, which are 0 and 1 from below.
pub proof fn address_comes_from_the_hash(hash: u64)
    ensures
        ({
            let address = hash_address(hash);
            &&& address.len() == 6
            &&& address[0] / 4 == hash % 0x100 / 4
            &&& address[0] % 4 == 2
            &&& address[1] == hash / 0x100 % 0x100
            &&& address[2] == hash / 0x1_0000 % 0x100
            &&& address[3] == hash / 0x100_0000 % 0x100
            &&& address[4] == hash / 0x1_0000_0000 % 0x100
            &&& address[5] == hash / 0x100_0000_0000 % 0x100
        }),
{
    lemma_hash_bytes(hash);
    let first = hash_byte(hash, 0);
    assert(first / 4 * 4 + 2 <= 255);
}

/// Pairs that are joined by a single character.
proof fn lemma_joined_pairs(pairs: Seq<Seq<char>>, separator: Seq<char>)
    requires
        pairs.len() > 0,
        separator.len() == 1,
        forall|j: int| 0 <= j < pairs.len() ==> #[trigger] pairs[j].len() == 2,
    ensures
        text::joined(pairs, separator).len() == 3 * pairs.len() - 1,
        forall|j: int|
            0 <= j < pairs.len() ==> text::joined(pairs, separator)[3 * j] == #[trigger] pairs[j][0]
                && text::joined(pairs, separator)[3 * j + 1] == pairs[j][1],
        forall|j: int|
            0 <= j < pairs.len() - 1 ==> #[trigger] text::joined(pairs, separator)[3 * j + 2]
                == separator[0],
    decreases pairs.len(),
{
    assert(pairs[0].len() == 2);
    if pairs.len() > 1 {
        let before = pairs.drop_last();
        let n = before.len();
        assert forall|j: int| 0 <= j < before.len() implies #[trigger] before[j].len() == 2 by {
            assert(pairs[j].len() == 2);
        }
        lemma_joined_pairs(before, separator);
        assert(pairs[n as int].len() == 2);
        let short = text::joined(before, separator);
        let long = text::joined(pairs, separator);
        assert forall|j: int| 0 <= j < pairs.len() implies long[3 * j] == #[trigger] pairs[j][0]
            && long[3 * j + 1] == pairs[j][1] by {
            if j < n {
                assert(before[j] == pairs[j]);
                assert(short[3 * j] == before[j][0]);
            }
        }
        assert forall|j: int| 0 <= j < pairs.len() - 1 implies #[trigger] long[3 * j + 2]
            == separator[0] by {
            if j < n - 1 {
                assert(short[3 * j + 2] == separator[0]);
            }
        }
    }
}

/// An address is shown in seventeen characters: each byte as two upper-case hexadecimal
/// digits, with colons between.
pub proof fn address_is_shown(address: Seq<u8>, j: int)
    requires
        address.len() == 6,
        0 <= j < 6,
    ensures
        ({
            let shown = shown_address(address);
            &&& shown.len() == 17
            &&& shown[3 * j] == text::digit_char((address[j] / 16) as nat)
            &&& shown[3 * j + 1] == text::digit_char((address[j] % 16) as nat)
            &&& j < 5 ==> shown[3 * j + 2] == ':'
        }),
{
    reveal_strlit(":");
    let pairs = address.map_values(|byte: u8| text::hex_digits(byte as nat, 2));
    assert forall|k: int| 0 <= k < pairs.len() implies (#[trigger] pairs[k]).len() == 2 && pairs[k]
        == seq![
        text::digit_char((address[k] / 16) as nat),
        text::digit_char((address[k] % 16) as nat),
    ] by {
        let byte = address[k] as nat;
        text::hex_digits_grow(0, byte / 16, 0);
        text::hex_digits_grow(byte / 16, byte % 16, 1);
        assert(pairs[k] =~= seq![text::digit_char(byte / 16), text::digit_char(byte % 16)]);
    }
    lemma_joined_pairs(pairs, ":"@);
    assert(pairs[j].len() == 2);
}

/// The canonical form of an address is seventeen characters: each byte as two lower-case
/// hexadecimal digits, with hyphens between.
pub proof fn address_in_canonical_form(address: Seq<u8>, j: int)
    requires
        address.len() == 6,
        0 <= j < 6,
    ensures
        ({
            let shown = canonical_address(address);
            let high = address[j] / 16;
            let low = address[j] % 16;
            &&& shown.len() == 17
            &&& shown[3 * j] as u32 == if high < 10 {
                48 + high
            } else {
                87 + high
            }
            &&& shown[3 * j + 1] as u32 == if low < 10 {
                48 + low
            } else {
                87 + low
            }
            &&& j < 5 ==> shown[3 * j + 2] == '-'
        }),
{
    let pairs = address.map_values(|byte: u8| small_pair(byte));
    lemma_joined_pairs(pairs, seq!['-']);
    assert(pairs[j] == small_pair(address[j]));
    text::digit_is_shown((address[j] / 16) as nat);
    text::digit_is_shown((address[j] % 16) as nat);
}

/// The brightness that a button sets is the nearest to the one that was asked for, of
/// 10, 50 and 100 percent; halfway between two of them it is the higher.
pub proof fn brightness_is_nearest(level: int)
    ensures
        ({
            let to_10 = if level < 10 {
                10 - level
            } else {
                level - 10
            };
            let to_50 = if level < 50 {
                50 - level
            } else {
                level - 50
            };
            let to_100 = if level < 100 {
                100 - level
            } else {
                level - 100
            };
            &&& to_10 < to_50 && to_10 < to_100 ==> snapped(level) == Button::Brightness10
            &&& to_50 <= to_10 && to_50 < to_100 ==> snapped(level) == Button::Brightness50
            &&& to_100 <= to_50 && to_100 <= to_10 ==> snapped(level) == Button::Brightness100
        }),
{
}

} // verus!
