//! What the user asks to be sent: a command byte, by name or by number.

use crate::button;
use crate::button::Button;
use crate::text;
use vstd::prelude::*;

verus! {

/// The value of a digit in bases up to 36; letters count in either case.
pub open spec fn digit_value(c: char) -> Option<nat> {
    let code = c as u32;
    if '0' as u32 <= code <= '9' as u32 {
        Some((code - '0' as u32) as nat)
    } else if 'a' as u32 <= code <= 'z' as u32 {
        Some((code - 'a' as u32 + 10) as nat)
    } else if 'A' as u32 <= code <= 'Z' as u32 {
        Some((code - 'A' as u32 + 10) as nat)
    } else {
        None
    }
}

/// The number that digits stand for, where each is below the base.
pub open spec fn digits_value(digits: Seq<char>, radix: nat) -> Option<nat>
    decreases digits.len(),
{
    if digits.len() == 0 {
        Some(0)
    } else {
        match (digits_value(digits.drop_last(), radix), digit_value(digits.last())) {
            (Some(before), Some(digit)) if digit < radix => Some(before * radix + digit),
            _ => None,
        }
    }
}

/// The byte that a numeral stands for: at least one digit, perhaps behind a plus sign.
pub open spec fn byte_value(numeral: Seq<char>, radix: nat) -> Option<u8> {
    let digits = if numeral.len() > 0 && numeral[0] == '+' {
        numeral.skip(1)
    } else {
        numeral
    };
    match digits_value(digits, radix) {
        Some(value) if digits.len() > 0 && value <= 255 => Some(value as u8),
        _ => None,
    }
}

/// How `u8::from_str_radix` explains that a numeral stands for no byte.
pub uninterp spec fn byte_error(numeral: Seq<char>, radix: nat) -> Seq<char>;

/// Calls `u8::from_str_radix`. It accepts an optional plus sign and one digit or
/// more of the base, where the number fits in a byte; of its error, the text
/// that it displays is handed on.
#[verifier::external_body]
pub(crate) fn byte_from_str_radix(numeral: &str, radix: u32) -> (byte: Result<u8, String>)
    requires
        2 <= radix <= 36,
    ensures
        match byte {
            Ok(byte) => byte_value(numeral@, radix as nat) == Some(byte),
            Err(error) => {
                &&& byte_value(numeral@, radix as nat) is None
                &&& error@ == byte_error(numeral@, radix as nat)
            },
        },
{
    u8::from_str_radix(numeral, radix).map_err(|e| e.to_string())
}

/// The part of a numeral behind a hexadecimal prefix.
pub open spec fn hex_part(s: Seq<char>) -> Option<Seq<char>> {
    if "0x"@.is_prefix_of(s) || "0X"@.is_prefix_of(s) {
        Some(s.skip(2))
    } else {
        None
    }
}

/// The byte that the user writes, in hexadecimal behind a prefix, else in decimal.
pub open spec fn written_byte(s: Seq<char>) -> Option<u8> {
    match hex_part(s) {
        Some(digits) => byte_value(digits, 16),
        None => byte_value(s, 10),
    }
}

/// The message for a text that is no byte.
pub open spec fn bad_byte_message(s: Seq<char>, hex: bool, error: Seq<char>) -> Seq<char> {
    (if hex {
        "invalid hex byte '"@
    } else {
        "invalid byte '"@
    }) + s + "': "@ + error
}

/// The message for a text that is no byte, from the explanation why.
pub fn describe_bad_byte(s: &str, hex: bool, error: &str) -> (message: String)
    ensures
        message@ == bad_byte_message(s@, hex, error@),
        hex ==> message@ == "invalid hex byte '"@ + s@ + "': "@ + error@,
        !hex ==> message@ == "invalid byte '"@ + s@ + "': "@ + error@,
{
    let mut message: String = (if hex {
        "invalid hex byte '"
    } else {
        "invalid byte '"
    }).to_owned();
    message.append(s);
    message.append("': ");
    message.append(error);
    message
}

/// Reads a byte, in hexadecimal behind `0x` or `0X`, else in decimal.
pub fn parse_hex_byte(s: &str) -> (byte: Result<u8, String>)
    ensures
        match byte {
            Ok(byte) => written_byte(s@) == Some(byte),
            Err(message) => {
                &&& written_byte(s@) is None
                &&& message@ == match hex_part(s@) {
                    Some(digits) => bad_byte_message(s@, true, byte_error(digits, 16)),
                    None => bad_byte_message(s@, false, byte_error(s@, 10)),
                }
                &&& "0x"@.is_prefix_of(s@) || "0X"@.is_prefix_of(s@) ==> message@
                    == "invalid hex byte '"@ + s@ + "': "@ + byte_error(s@.skip(2), 16)
                &&& !("0x"@.is_prefix_of(s@) || "0X"@.is_prefix_of(s@)) ==> message@
                    == "invalid byte '"@ + s@ + "': "@ + byte_error(s@, 10)
            },
        },
{
    proof {
        reveal_strlit("0x");
        reveal_strlit("0X");
    }
    let rest: Option<&str> = match text::without_prefix(s, "0x") {
        Some(rest) => Some(rest),
        None => text::without_prefix(s, "0X"),
    };
    match rest {
        Some(digits) => {
            assert("0x"@.is_prefix_of(s@) || "0X"@.is_prefix_of(s@));
            assert(digits@ =~= s@.skip(2));
            match byte_from_str_radix(digits, 16) {
                Ok(byte) => Ok(byte),
                Err(error) => Err(describe_bad_byte(s, true, error.as_str())),
            }
        },
        None => match byte_from_str_radix(s, 10) {
            Ok(byte) => Ok(byte),
            Err(error) => Err(describe_bad_byte(s, false, error.as_str())),
        },
    }
}

/// A command byte, and what to call it.
#[derive(Debug)]
pub struct Choice {
    pub cmd: u8,
    pub label: String,
}

/// What to call the command of a button, where there is one, and of a byte that
/// was given in its place.
pub open spec fn choice_label(button: Option<Button>, overridden: bool) -> Seq<char> {
    match button {
        Some(button) => if overridden {
            button.name_spec() + " [cmd override]"@
        } else {
            button.name_spec()
        },
        None => "raw"@,
    }
}

/// Resolves a button name and a command byte, of which one at least is given.
/// The byte wins, but the name has to be one that there is.
pub fn resolve_command(name: Option<&str>, cmd: Option<u8>) -> (choice: Result<Choice, String>)
    requires
        name is Some || cmd is Some,
    ensures
        match name {
            Some(name) => match choice {
                Ok(choice) => exists|button: Button|
                    {
                        &&& #[trigger] button.name_spec() == name@
                        &&& choice.cmd == match cmd {
                            Some(cmd) => cmd,
                            None => button.command_spec(),
                        }
                        &&& choice.label@ == choice_label(Some(button), cmd is Some)
                        &&& choice.label@ == if cmd is Some {
                            name@ + " [cmd override]"@
                        } else {
                            name@
                        }
                    },
                Err(message) => {
                    &&& forall|button: Button| #[trigger] button.name_spec() != name@
                    &&& message@ == button::unknown_button_message(name@)
                },
            },
            None => {
                &&& choice matches Ok(choice)
                &&& cmd == Some(choice.cmd)
                &&& choice.label@ == choice_label(None, true)
                &&& choice.label@ == "raw"@
            },
        },
{
    match name {
        None => Ok(Choice { cmd: cmd.unwrap(), label: "raw".to_owned() }),
        Some(name) => match Button::from_name(name) {
            Err(message) => Err(message),
            Ok(button) => {
                let mut label: String = button.name().to_owned();
                assert(button.name_spec() == name@);
                match cmd {
                    Some(cmd) => {
                        label.append(" [cmd override]");
                        Ok(Choice { cmd, label })
                    },
                    None => Ok(Choice { cmd: button.command(), label }),
                }
            },
        },
    }
}

/// The remark on where the counter of a press comes from: the state file, or the user.
pub fn counter_note(state: Option<&str>) -> (note: String)
    ensures
        note@ == match state {
            Some(path) => " [auto, state="@ + path@ + "]"@,
            None => " [-c override, state untouched]"@,
        },
{
    match state {
        Some(path) => {
            let mut note: String = " [auto, state=".to_owned();
            note.append(path);
            note.append("]");
            note
        },
        None => " [-c override, state untouched]".to_owned(),
    }
}

/// Digits of a base stand for a number, and one more digit multiplies it by the base
/// and adds to it.
proof fn lemma_digits_grow(s: Seq<char>, c: char, radix: nat)
    ensures
        digits_value(s.push(c), radix) == match (digits_value(s, radix), digit_value(c)) {
            (Some(before), Some(digit)) if digit < radix => Some(before * radix + digit),
            _ => None,
        },
{
    assert(s.push(c).drop_last() =~= s);
}

/// Digits that are all below the base stand for a number.
proof fn lemma_digits_have_value(s: Seq<char>, radix: nat)
    requires
        forall|i: int|
            0 <= i < s.len() ==> (#[trigger] digit_value(s[i]) matches Some(digit) && digit
                < radix),
    ensures
        digits_value(s, radix) is Some,
    decreases s.len(),
{
    if s.len() > 0 {
        let before = s.drop_last();
        assert forall|i: int| 0 <= i < before.len() implies (#[trigger] digit_value(
            before[i],
        ) matches Some(digit) && digit < radix) by {
            assert(digit_value(s[i]) is Some);
        }
        lemma_digits_have_value(before, radix);
        assert(digit_value(s[s.len() - 1]) is Some);
    }
}

/// One more digit behind a numeral of the bases ten and sixteen.
proof fn lemma_byte_grows(s: Seq<char>, c: char, digit: nat, radix: nat)
    requires
        radix == 10 || radix == 16,
        s.len() > 0,
        s[0] != '+',
        digits_value(s, radix) is Some,
        digit_value(c) == Some(digit),
        digit < radix,
    ensures
        byte_value(s.push(c), radix) == match byte_value(s, radix) {
            Some(byte) if radix * byte + digit <= 255 => Some((radix * byte + digit) as u8),
            _ => None,
        },
{
    lemma_digits_grow(s, c, radix);
    assert(s.push(c)[0] == s[0]);
    let before = digits_value(s, radix)->Some_0;
    assert(before * radix == if radix == 10 {
        10 * before
    } else {
        16 * before
    }) by (nonlinear_arith)
        requires
            radix == 10 || radix == 16,
    ;
}

/// A character that is no digit of the base spoils the number.
proof fn lemma_digits_spoilt(s: Seq<char>, radix: nat, i: int)
    requires
        0 <= i < s.len(),
        !(digit_value(s[i]) matches Some(digit) && digit < radix),
    ensures
        digits_value(s, radix) is None,
    decreases s.len(),
{
    if i < s.len() - 1 {
        lemma_digits_spoilt(s.drop_last(), radix, i);
    }
}

/// The texts that begin with a hexadecimal prefix, by their first two characters.
pub(crate) proof fn lemma_prefix(s: Seq<char>)
    ensures
        "0x"@ == seq!['0', 'x'],
        "0X"@ == seq!['0', 'X'],
        hex_part(s) is Some <==> s.len() >= 2 && s[0] == '0' && (s[1] == 'x' || s[1] == 'X'),
        hex_part("0x"@ + s) == Some(s),
        hex_part("0X"@ + s) == Some(s),
{
    reveal_strlit("0x");
    reveal_strlit("0X");
    assert("0x"@ =~= seq!['0', 'x']);
    assert("0X"@ =~= seq!['0', 'X']);
    if s.len() >= 2 && s[0] == '0' && s[1] == 'x' {
        assert("0x"@ =~= s.subrange(0, 2));
    }
    if s.len() >= 2 && s[0] == '0' && s[1] == 'X' {
        assert("0X"@ =~= s.subrange(0, 2));
    }
    let low = "0x"@ + s;
    let high = "0X"@ + s;
    assert("0x"@ =~= low.subrange(0, 2));
    assert("0X"@ =~= high.subrange(0, 2));
    assert(low.skip(2) =~= s);
    assert(high.skip(2) =~= s);
}

/// A decimal digit alone is the byte that it says.
pub proof fn decimal_digit_is_read(c: char, digit: nat)
    requires
        digit < 10,
        c as u32 == 48 + digit,
    ensures
        written_byte(seq![c]) == Some(digit as u8),
{
    lemma_prefix(seq![c]);
    assert(seq![c].drop_last() =~= Seq::<char>::empty());
    assert(digits_value(Seq::<char>::empty(), 10) == Some(0nat));
    assert(digits_value(seq![c], 10) == Some(digit));
}

/// One more digit behind a decimal numeral multiplies the byte by ten and adds to it,
/// as long as there is room in a byte; beyond that, no digit makes it a byte again.
pub proof fn decimal_numeral_grows(s: Seq<char>, c: char, digit: nat)
    requires
        s.len() > 0,
        forall|i: int| 0 <= i < s.len() ==> 48 <= #[trigger] s[i] as u32 <= 57,
        digit < 10,
        c as u32 == 48 + digit,
    ensures
        written_byte(s.push(c)) == match written_byte(s) {
            Some(byte) if 10 * byte + digit <= 255 => Some((10 * byte + digit) as u8),
            _ => None,
        },
{
    let longer = s.push(c);
    assert(48 <= s[0] as u32 <= 57);
    if s.len() > 1 {
        assert(48 <= s[1] as u32 <= 57);
    }
    lemma_prefix(s);
    lemma_prefix(longer);
    assert(longer[0] == s[0]);
    assert(longer.len() > 2 ==> longer[1] == s[1]);
    assert forall|i: int| 0 <= i < s.len() implies (#[trigger] digit_value(s[i]) matches Some(d)
        && d < 10) by {
        assert(48 <= s[i] as u32 <= 57);
    }
    lemma_digits_have_value(s, 10);
    lemma_byte_grows(s, c, digit, 10);
}

/// A plus sign in front of a decimal numeral changes nothing.
pub proof fn plus_sign_is_ignored(s: Seq<char>)
    requires
        s.len() > 0,
        forall|i: int| 0 <= i < s.len() ==> 48 <= #[trigger] s[i] as u32 <= 57,
    ensures
        written_byte(seq!['+'] + s) == written_byte(s),
{
    let signed = seq!['+'] + s;
    assert(48 <= s[0] as u32 <= 57);
    if s.len() > 1 {
        assert(48 <= s[1] as u32 <= 57);
    }
    lemma_prefix(s);
    lemma_prefix(signed);
    assert(signed.skip(1) =~= s);
}

/// A text without a hexadecimal prefix in which anything but a decimal digit stands, a
/// plus sign in front apart, is no byte; nor is an empty one, nor a plus sign alone.
pub proof fn other_texts_are_no_bytes(s: Seq<char>, i: int)
    requires
        !(s.len() >= 2 && s[0] == '0' && (s[1] == 'x' || s[1] == 'X')),
        s.len() == 0 || s == seq!['+'] || (0 <= i < s.len() && !(48 <= s[i] as u32 <= 57) && !(i
            == 0 && s[i] == '+')),
    ensures
        written_byte(s) is None,
{
    lemma_prefix(s);
    if s == seq!['+'] {
        assert(s.skip(1) =~= Seq::empty());
    } else if s.len() > 0 {
        if s[0] == '+' {
            assert(s.skip(1)[i - 1] == s[i]);
            lemma_digits_spoilt(s.skip(1), 10, i - 1);
        } else {
            lemma_digits_spoilt(s, 10, i);
        }
    }
}

/// `c` is a hexadecimal digit, in either case, that stands for `digit`.
pub open spec fn hex_digit_is(c: char, digit: nat) -> bool {
    ||| digit < 10 && c as u32 == 48 + digit
    ||| 10 <= digit < 16 && c as u32 == 87 + digit
    ||| 10 <= digit < 16 && c as u32 == 55 + digit
}

/// A hexadecimal digit behind a prefix is the byte that it says.
pub proof fn hex_digit_is_read(c: char, digit: nat)
    requires
        hex_digit_is(c, digit),
    ensures
        written_byte("0x"@ + seq![c]) == Some(digit as u8),
        written_byte("0X"@ + seq![c]) == Some(digit as u8),
{
    lemma_prefix(seq![c]);
    assert(seq![c].drop_last() =~= Seq::<char>::empty());
    assert(digits_value(Seq::<char>::empty(), 16) == Some(0nat));
    assert(digits_value(seq![c], 16) == Some(digit));
}

/// One more digit behind a hexadecimal numeral multiplies the byte by sixteen and adds
/// to it, as long as there is room in a byte. It does not matter which prefix it has.
pub proof fn hex_numeral_grows(s: Seq<char>, c: char, digit: nat)
    requires
        s.len() > 0,
        forall|i: int|
            0 <= i < s.len() ==> 48 <= #[trigger] s[i] as u32 <= 57 || 65 <= s[i] as u32 <= 70 || 97
                <= s[i] as u32 <= 102,
        hex_digit_is(c, digit),
    ensures
        written_byte("0x"@ + s.push(c)) == match written_byte("0x"@ + s) {
            Some(byte) if 16 * byte + digit <= 255 => Some((16 * byte + digit) as u8),
            _ => None,
        },
        written_byte("0X"@ + s) == written_byte("0x"@ + s),
{
    lemma_prefix(s);
    lemma_prefix(s.push(c));
    assert(48 <= s[0] as u32);
    assert forall|i: int| 0 <= i < s.len() implies (#[trigger] digit_value(s[i]) matches Some(d)
        && d < 16) by {
        assert(48 <= s[i] as u32);
    }
    lemma_digits_have_value(s, 16);
    lemma_byte_grows(s, c, digit, 16);
}

/// A plus sign between a hexadecimal prefix and its digits changes nothing.
pub proof fn hex_plus_sign_is_ignored(s: Seq<char>)
    requires
        s.len() > 0,
        s[0] != '+',
    ensures
        written_byte("0x"@ + (seq!['+'] + s)) == written_byte("0x"@ + s),
        written_byte("0X"@ + (seq!['+'] + s)) == written_byte("0x"@ + s),
{
    lemma_prefix(s);
    lemma_prefix(seq!['+'] + s);
    assert((seq!['+'] + s).skip(1) =~= s);
}

/// A hexadecimal numeral in which anything but a hexadecimal digit stands, a plus sign
/// in front apart, is no byte; nor is a prefix alone, or with a plus sign behind it.
pub proof fn other_hex_texts_are_no_bytes(s: Seq<char>, i: int)
    requires
        s.len() == 0 || s == seq!['+'] || (0 <= i < s.len() && !(48 <= s[i] as u32 <= 57) && !(65
            <= s[i] as u32 <= 70) && !(97 <= s[i] as u32 <= 102) && !(i == 0 && s[i] == '+')),
    ensures
        written_byte("0x"@ + s) is None,
        written_byte("0X"@ + s) is None,
{
    lemma_prefix(s);
    if s == seq!['+'] {
        assert(s.skip(1) =~= Seq::empty());
    } else if s.len() > 0 {
        if s[0] == '+' {
            assert(s.skip(1)[i - 1] == s[i]);
            lemma_digits_spoilt(s.skip(1), 16, i - 1);
        } else {
            lemma_digits_spoilt(s, 16, i);
        }
    }
}

proof fn lemma_decimal_byte(byte: u8)
    ensures
        written_byte(text::decimal(byte as nat)) == Some(byte),
{
    let n = byte as nat;
    let high = n / 100;
    let mid = n / 10 % 10;
    let low = n % 10;
    text::digit_is_shown(high);
    text::digit_is_shown(mid);
    text::digit_is_shown(low);
    if n < 10 {
        assert(low == n);
        text::decimal_grows(0, n);
        decimal_digit_is_read(text::digit_char(n), n);
    } else if n < 100 {
        let one = seq![text::digit_char(mid)];
        assert(n / 10 == mid);
        text::decimal_grows(0, mid);
        text::decimal_grows(mid, low);
        decimal_digit_is_read(text::digit_char(mid), mid);
        decimal_numeral_grows(one, text::digit_char(low), low);
    } else {
        let one = seq![text::digit_char(high)];
        let two = one.push(text::digit_char(mid));
        text::decimal_grows(0, high);
        text::decimal_grows(high, mid);
        text::decimal_grows(10 * high + mid, low);
        decimal_digit_is_read(text::digit_char(high), high);
        decimal_numeral_grows(one, text::digit_char(mid), mid);
        decimal_numeral_grows(two, text::digit_char(low), low);
    }
}

proof fn lemma_hex_byte(byte: u8)
    ensures
        written_byte("0x"@ + text::hex_digits(byte as nat, 2)) == Some(byte),
        written_byte("0X"@ + text::hex_digits(byte as nat, 2)) == Some(byte),
{
    let high = byte as nat / 16;
    let low = byte as nat % 16;
    text::digit_is_shown(high);
    text::digit_is_shown(low);
    let first = seq![text::digit_char(high)];
    let both = first.push(text::digit_char(low));
    text::hex_digits_grow(0, high, 0);
    text::hex_digits_grow(high, low, 1);
    assert(text::hex_digits(high, 1) =~= first);
    hex_digit_is_read(text::digit_char(high), high);
    hex_numeral_grows(first, text::digit_char(low), low);
    hex_numeral_grows(both, '0', 0);
}

/// Every byte is read from its decimal text, and from its two hexadecimal digits behind
/// either prefix.
pub proof fn every_byte_is_read(byte: u8)
    ensures
        written_byte(text::decimal(byte as nat)) == Some(byte),
        written_byte("0x"@ + text::hex_digits(byte as nat, 2)) == Some(byte),
        written_byte("0X"@ + text::hex_digits(byte as nat, 2)) == Some(byte),
{
    lemma_decimal_byte(byte);
    lemma_hex_byte(byte);
}

} // verus!
