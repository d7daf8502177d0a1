//! Text that the library reads and writes.

use vstd::prelude::*;

verus! {

/// The character of a digit below 16; letters are upper case.
pub open spec fn digit_char(digit: nat) -> char {
    if digit == 0 {
        '0'
    } else if digit == 1 {
        '1'
    } else if digit == 2 {
        '2'
    } else if digit == 3 {
        '3'
    } else if digit == 4 {
        '4'
    } else if digit == 5 {
        '5'
    } else if digit == 6 {
        '6'
    } else if digit == 7 {
        '7'
    } else if digit == 8 {
        '8'
    } else if digit == 9 {
        '9'
    } else if digit == 10 {
        'A'
    } else if digit == 11 {
        'B'
    } else if digit == 12 {
        'C'
    } else if digit == 13 {
        'D'
    } else if digit == 14 {
        'E'
    } else {
        'F'
    }
}

/// `n` in decimal, without leading zeros.
pub open spec fn decimal(n: nat) -> Seq<char>
    decreases n,
{
    if n < 10 {
        seq![digit_char(n)]
    } else {
        decimal(n / 10).push(digit_char(n % 10))
    }
}

/// The low hexadecimal digits of `n`, upper case: `width` of them.
pub open spec fn hex_digits(n: nat, width: nat) -> Seq<char>
    decreases width,
{
    if width == 0 {
        Seq::empty()
    } else {
        hex_digits(n / 16, (width - 1) as nat).push(digit_char(n % 16))
    }
}

/// `text` with blanks behind it, as many as it takes to fill `width` places.
pub open spec fn padded(text: Seq<char>, width: nat) -> Seq<char> {
    text + Seq::new(
        if text.len() < width {
            (width - text.len()) as nat
        } else {
            0
        },
        |i: int| ' ',
    )
}

/// The items, with `separator` between each two.
pub open spec fn joined(items: Seq<Seq<char>>, separator: Seq<char>) -> Seq<char>
    decreases items.len(),
{
    if items.len() == 0 {
        Seq::empty()
    } else if items.len() == 1 {
        items[0]
    } else {
        joined(items.drop_last(), separator) + separator + items.last()
    }
}

/// The text of a digit below 16.
fn digit_text(digit: u8) -> (text: &'static str)
    requires
        digit < 16,
    ensures
        text@ == seq![digit_char(digit as nat)],
{
    proof {
        reveal_strlit("0");
        reveal_strlit("1");
        reveal_strlit("2");
        reveal_strlit("3");
        reveal_strlit("4");
        reveal_strlit("5");
        reveal_strlit("6");
        reveal_strlit("7");
        reveal_strlit("8");
        reveal_strlit("9");
        reveal_strlit("A");
        reveal_strlit("B");
        reveal_strlit("C");
        reveal_strlit("D");
        reveal_strlit("E");
        reveal_strlit("F");
    }
    match digit {
        0 => "0",
        1 => "1",
        2 => "2",
        3 => "3",
        4 => "4",
        5 => "5",
        6 => "6",
        7 => "7",
        8 => "8",
        9 => "9",
        10 => "A",
        11 => "B",
        12 => "C",
        13 => "D",
        14 => "E",
        _ => "F",
    }
}

/// Appends `n` in decimal to `out`.
pub fn push_decimal(out: &mut String, n: u64)
    ensures
        final(out)@ == old(out)@ + decimal(n as nat),
    decreases n,
{
    if n >= 10 {
        push_decimal(out, n / 10);
    }
    out.append(digit_text((n % 10) as u8));
}

/// Appends the low `width` hexadecimal digits of `n`, upper case, to `out`.
pub fn push_hex_digits(out: &mut String, n: u64, width: u32)
    ensures
        final(out)@ == old(out)@ + hex_digits(n as nat, width as nat),
    decreases width,
{
    if width > 0 {
        push_hex_digits(out, n / 16, width - 1);
        out.append(digit_text((n % 16) as u8));
    }
}

/// Appends `text` to `out`, with blanks behind it that fill `width` places.
pub fn push_padded(out: &mut String, text: &str, width: usize)
    ensures
        final(out)@ == old(out)@ + padded(text@, width as nat),
{
    let ghost start = out@;
    out.append(text);
    let mut n: usize = text.unicode_len();
    assert(out@ =~= start + padded(text@, n as nat));
    while n < width
        invariant
            n >= text@.len(),
            n <= width || n == text@.len(),
            out@ == start + padded(text@, n as nat),
        decreases width - n,
    {
        out.append(" ");
        proof {
            reveal_strlit(" ");
        }
        n = n + 1;
        assert(out@ =~= start + padded(text@, n as nat));
    }
    assert(out@ =~= start + padded(text@, width as nat));
}

/// Whether two texts are the same.
pub fn same_text(a: &str, b: &str) -> (same: bool)
    ensures
        same == (a@ == b@),
{
    a.to_owned() == b.to_owned()
}

/// The part of `text` behind `prefix`, where `text` begins with it.
pub fn without_prefix<'a>(text: &'a str, prefix: &str) -> (rest: Option<&'a str>)
    ensures
        match rest {
            Some(rest) => text@ == prefix@ + rest@,
            None => !prefix@.is_prefix_of(text@),
        },
{
    let text_len: usize = text.unicode_len();
    let prefix_len: usize = prefix.unicode_len();
    if prefix_len <= text_len && same_text(text.substring_char(0, prefix_len), prefix) {
        let rest = text.substring_char(prefix_len, text_len);
        assert(text@ =~= prefix@ + rest@);
        Some(rest)
    } else {
        None
    }
}

/// Whether `wanted` occurs in `text`.
pub fn contains_char(text: &str, wanted: char) -> (found: bool)
    ensures
        found == text@.contains(wanted),
{
    for c in it: text.chars()
        invariant
            it.seq() == text@,
            forall|i: int| 0 <= i < it.index() ==> text@[i] != wanted,
    {
        if c == wanted {
            assert(text@[it.index() as int] == wanted);
            return true;
        }
    }
    false
}

/// Digits are the characters from `0` to `9` and from `A` to `F`, in their order.
pub proof fn digit_is_shown(digit: nat)
    requires
        digit < 16,
    ensures
        digit < 10 ==> digit_char(digit) as u32 == 48 + digit,
        10 <= digit ==> digit_char(digit) as u32 == 55 + digit,
{
}

/// A decimal numeral has the digits of a tenth of the number, and then its last digit;
/// it has no leading zeros.
pub proof fn decimal_grows(n: nat, digit: nat)
    requires
        digit < 10,
    ensures
        decimal(digit) == seq![digit_char(digit)],
        n > 0 ==> decimal(10 * n + digit) == decimal(n).push(digit_char(digit)),
{
    if n > 0 {
        assert((10 * n + digit) / 10 == n);
        assert((10 * n + digit) % 10 == digit);
    }
}

/// Hexadecimal digits are those of a sixteenth of the number, and then its last digit.
pub proof fn hex_digits_grow(n: nat, digit: nat, width: nat)
    requires
        digit < 16,
    ensures
        hex_digits(n, 0) == Seq::<char>::empty(),
        hex_digits(16 * n + digit, width + 1) == hex_digits(n, width).push(digit_char(digit)),
{
    assert((16 * n + digit) / 16 == n);
    assert((16 * n + digit) % 16 == digit);
}

/// A text that is padded stands at the left, with blanks up to the width; it is never
/// cut.
pub proof fn padding_fills_the_width(text: Seq<char>, width: nat, i: int)
    ensures
        padded(text, width).len() == if text.len() < width {
            width
        } else {
            text.len()
        },
        0 <= i < text.len() ==> padded(text, width)[i] == text[i],
        text.len() <= i < width ==> padded(text, width)[i] == ' ',
{
}

/// A separator stands between each two items, and nowhere else.
pub proof fn items_are_joined(items: Seq<Seq<char>>, item: Seq<char>, separator: Seq<char>)
    ensures
        joined(Seq::<Seq<char>>::empty(), separator) == Seq::<char>::empty(),
        joined(seq![item], separator) == item,
        items.len() > 0 ==> joined(items.push(item), separator) == joined(items, separator)
            + separator + item,
{
    assert(items.push(item).drop_last() =~= items);
}

} // verus!
