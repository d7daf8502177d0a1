//! The buttons of the remote.

use crate::packet;
use crate::text;
use vstd::prelude::*;

verus! {

/// A button of the remote.
#[derive(Copy, Clone, Debug, PartialEq, Eq, Structural)]
pub enum Button {
    TurnOn,
    TurnOff,
    TemperatureDown,
    TemperatureUp,
    BrightnessDown,
    BrightnessUp,
    Brightness10,
    Brightness50,
    Brightness100,
    Pair,
}

impl Button {
    /// Every button, in the order in which they are listed to the user.
    pub const ALL: [Button; 10] = [
        Button::TurnOn,
        Button::TurnOff,
        Button::TemperatureDown,
        Button::TemperatureUp,
        Button::BrightnessDown,
        Button::BrightnessUp,
        Button::Brightness10,
        Button::Brightness50,
        Button::Brightness100,
        Button::Pair,
    ];

    /// The command byte of a button.
    pub open spec fn command_spec(self) -> u8 {
        match self {
            Button::TurnOn => 0x01,
            Button::TurnOff => 0x02,
            Button::TemperatureDown => 0x06,
            Button::TemperatureUp => 0x08,
            Button::BrightnessDown => 0x0A,
            Button::BrightnessUp => 0x04,
            Button::Brightness10 => 0x0C,
            Button::Brightness50 => 0x0D,
            Button::Brightness100 => 0x0E,
            Button::Pair => 0x20,
        }
    }

    /// The name of a button.
    pub open spec fn name_spec(self) -> Seq<char> {
        match self {
            Button::TurnOn => "turn_on"@,
            Button::TurnOff => "turn_off"@,
            Button::TemperatureDown => "temperature_down"@,
            Button::TemperatureUp => "temperature_up"@,
            Button::BrightnessDown => "brightness_down"@,
            Button::BrightnessUp => "brightness_up"@,
            Button::Brightness10 => "brightness_10"@,
            Button::Brightness50 => "brightness_50"@,
            Button::Brightness100 => "brightness_100"@,
            Button::Pair => "pair"@,
        }
    }

    /// The command byte that the button transmits.
    pub fn command(self) -> (cmd: u8)
        ensures
            cmd == self.command_spec(),
    {
        match self {
            Button::TurnOn => 0x01,
            Button::TurnOff => 0x02,
            Button::TemperatureDown => 0x06,
            Button::TemperatureUp => 0x08,
            Button::BrightnessDown => 0x0A,
            Button::BrightnessUp => 0x04,
            Button::Brightness10 => 0x0C,
            Button::Brightness50 => 0x0D,
            Button::Brightness100 => 0x0E,
            Button::Pair => 0x20,
        }
    }

    /// The name by which users refer to the button.
    pub fn name(self) -> (name: &'static str)
        ensures
            name@ == self.name_spec(),
    {
        match self {
            Button::TurnOn => "turn_on",
            Button::TurnOff => "turn_off",
            Button::TemperatureDown => "temperature_down",
            Button::TemperatureUp => "temperature_up",
            Button::BrightnessDown => "brightness_down",
            Button::BrightnessUp => "brightness_up",
            Button::Brightness10 => "brightness_10",
            Button::Brightness50 => "brightness_50",
            Button::Brightness100 => "brightness_100",
            Button::Pair => "pair",
        }
    }

    /// The button of that name, or a message that lists the names there are.
    pub fn from_name(name: &str) -> (button: Result<Button, String>)
        ensures
            match button {
                Ok(button) => button.name_spec() == name@,
                Err(message) => {
                    &&& forall|button: Button| #[trigger] button.name_spec() != name@
                    &&& message@ == unknown_button_message(name@)
                },
            },
    {
        let all: [Button; 10] = Button::ALL;
        let mut i: usize = 0;
        while i < 10
            invariant
                i <= 10,
                all == Button::ALL,
                forall|j: int| 0 <= j < i ==> #[trigger] all@[j].name_spec() != name@,
            decreases 10 - i,
        {
            if text::same_text(all[i].name(), name) {
                return Ok(all[i]);
            }
            i += 1;
        }
        proof {
            assert forall|button: Button| #[trigger] button.name_spec() != name@ by {
                lemma_all_lists_every_button(button);
                assert(all@[listed_at(button)].name_spec() != name@);
            }
        }
        Err(Button::unknown_name(name))
    }

    /// The message for a name that no button has.
    fn unknown_name(name: &str) -> (message: String)
        ensures
            message@ == unknown_button_message(name@),
    {
        let all: [Button; 10] = Button::ALL;
        let ghost names = all@.map_values(|button: Button| button.name_spec());
        let mut message: String = "unknown button '".to_owned();
        message.append(name);
        message.append("' — expected one of: ");
        let ghost opening = message@;
        let mut i: usize = 0;
        assert(names.take(0) =~= Seq::empty());
        while i < 10
            invariant
                i <= 10,
                all == Button::ALL,
                names == all@.map_values(|button: Button| button.name_spec()),
                message@ =~= opening + text::joined(names.take(i as int), ", "@),
            decreases 10 - i,
        {
            if i > 0 {
                message.append(", ");
            }
            message.append(all[i].name());
            proof {
                assert(names.take(i + 1).drop_last() =~= names.take(i as int));
                assert(names.take(i + 1).last() == all@[i as int].name_spec());
            }
            i += 1;
        }
        assert(names.take(10) =~= names);
        message
    }
}

/// The message for a name that no button has: the name, then all names there are.
pub open spec fn unknown_button_message(name: Seq<char>) -> Seq<char> {
    "unknown button '"@ + name + "' — expected one of: "@ + text::joined(
        Button::ALL@.map_values(|button: Button| button.name_spec()),
        ", "@,
    )
}

/// Where a button stands in [`Button::ALL`].
pub open spec fn listed_at(button: Button) -> int {
    match button {
        Button::TurnOn => 0,
        Button::TurnOff => 1,
        Button::TemperatureDown => 2,
        Button::TemperatureUp => 3,
        Button::BrightnessDown => 4,
        Button::BrightnessUp => 5,
        Button::Brightness10 => 6,
        Button::Brightness50 => 7,
        Button::Brightness100 => 8,
        Button::Pair => 9,
    }
}

proof fn lemma_all_lists_every_button(button: Button)
    ensures
        0 <= listed_at(button) < 10,
        Button::ALL@[listed_at(button)] == button,
{
}

impl std::str::FromStr for Button {
    type Err = String;

    /// The button of that name, or a message that lists the names there are.
    fn from_str(name: &str) -> (button: Result<Self, Self::Err>)
        ensures
            match button {
                Ok(button) => button.name_spec() == name@,
                Err(message) => {
                    &&& forall|button: Button| #[trigger] button.name_spec() != name@
                    &&& message@ == unknown_button_message(name@)
                },
            },
    {
        Button::from_name(name)
    }
}

/// Builds the packet of a button press. Only the low four bits of `counter` count.
pub fn build_packet(button: Button, counter: u8) -> (packet: u64)
    ensures
        packet == packet::packet_word(button.command_spec(), counter),
{
    packet::build_packet_raw(button.command(), counter)
}

/// Every button is listed, once.
pub proof fn every_button_is_listed_once(button: Button, i: int)
    requires
        0 <= i < 10,
    ensures
        Button::ALL@.contains(button),
        Button::ALL@[i] == button <==> i == listed_at(button),
{
    lemma_all_lists_every_button(button);
    assert(Button::ALL@[listed_at(button)] == button);
}

/// Different buttons have different names and different commands.
pub proof fn buttons_are_distinct(a: Button, b: Button)
    ensures
        a.name_spec() == b.name_spec() <==> a == b,
        a.command_spec() == b.command_spec() <==> a == b,
{
    reveal_strlit("turn_on");
    reveal_strlit("turn_off");
    reveal_strlit("temperature_down");
    reveal_strlit("temperature_up");
    reveal_strlit("brightness_down");
    reveal_strlit("brightness_up");
    reveal_strlit("brightness_10");
    reveal_strlit("brightness_50");
    reveal_strlit("brightness_100");
    reveal_strlit("pair");
    if a.name_spec() == b.name_spec() {
        assert(a.name_spec().len() == b.name_spec().len());
        assert(a.name_spec()[0] == b.name_spec()[0]);
        if a.name_spec().len() >= 12 {
            assert(a.name_spec()[11] == b.name_spec()[11]);
        }
    }
}

/// Presses of two buttons put the same packet on the air exactly when the
/// buttons are the same and the counters agree in the low four bits.
pub proof fn button_packets_are_distinct(a: Button, x: u8, b: Button, y: u8)
    ensures
        packet::packet_word(a.command_spec(), x) == packet::packet_word(b.command_spec(), y) <==> a
            == b && packet::press_number(x) == packet::press_number(y),
{
    buttons_are_distinct(a, b);
    packet::packet_identifies_press(a.command_spec(), x, b.command_spec(), y);
}

/// The message for an unknown name quotes the name, and lists the names of all buttons
/// with commas between them.
pub proof fn unknown_name_is_explained(name: Seq<char>)
    ensures
        unknown_button_message(name) == "unknown button '"@ + name + "' — expected one of: "@ + (
        "turn_on"@ + ", "@ + "turn_off"@ + ", "@ + "temperature_down"@ + ", "@ + "temperature_up"@
            + ", "@ + "brightness_down"@ + ", "@ + "brightness_up"@ + ", "@ + "brightness_10"@
            + ", "@ + "brightness_50"@ + ", "@ + "brightness_100"@ + ", "@ + "pair"@),
{
    let names = Button::ALL@.map_values(|button: Button| button.name_spec());
    let comma = ", "@;
    assert(names.take(1) =~= seq!["turn_on"@]);
    text::items_are_joined(names.take(1), "turn_on"@, comma);
    lemma_listed(names, 1, Button::TurnOff);
    lemma_listed(names, 2, Button::TemperatureDown);
    lemma_listed(names, 3, Button::TemperatureUp);
    lemma_listed(names, 4, Button::BrightnessDown);
    lemma_listed(names, 5, Button::BrightnessUp);
    lemma_listed(names, 6, Button::Brightness10);
    lemma_listed(names, 7, Button::Brightness50);
    lemma_listed(names, 8, Button::Brightness100);
    lemma_listed(names, 9, Button::Pair);
    assert(names.take(10) =~= names);
}

proof fn lemma_listed(names: Seq<Seq<char>>, n: int, button: Button)
    requires
        0 < n < names.len(),
        names[n] == button.name_spec(),
    ensures
        text::joined(names.take(n + 1), ", "@) == text::joined(names.take(n), ", "@) + ", "@
            + button.name_spec(),
{
    text::items_are_joined(names.take(n), names[n], ", "@);
    assert(names.take(n).push(names[n]) =~= names.take(n + 1));
}

} // verus!
