//! The text of numbers and labels, as the description of a unit shows them.

use vstd::prelude::*;
use vstd::string::StringExecFns;

verus! {

/// The digit `d` of a number in base 10 or 16, in lower case.
pub open spec fn digit_text(d: int) -> Seq<char> {
    if d == 0 {
        "0"@
    } else if d == 1 {
        "1"@
    } else if d == 2 {
        "2"@
    } else if d == 3 {
        "3"@
    } else if d == 4 {
        "4"@
    } else if d == 5 {
        "5"@
    } else if d == 6 {
        "6"@
    } else if d == 7 {
        "7"@
    } else if d == 8 {
        "8"@
    } else if d == 9 {
        "9"@
    } else if d == 10 {
        "a"@
    } else if d == 11 {
        "b"@
    } else if d == 12 {
        "c"@
    } else if d == 13 {
        "d"@
    } else if d == 14 {
        "e"@
    } else {
        "f"@
    }
}

/// The number `n` in decimal, without leading zeros.
pub open spec fn decimal_text(n: nat) -> Seq<char>
    decreases n,
{
    if n < 10 {
        digit_text(n as int)
    } else {
        decimal_text(n / 10) + digit_text((n % 10) as int)
    }
}

/// The number `n` in hexadecimal, in lower case and without leading zeros.
pub open spec fn hex_text(n: nat) -> Seq<char>
    decreases n,
{
    if n < 16 {
        digit_text(n as int)
    } else {
        hex_text(n / 16) + digit_text((n % 16) as int)
    }
}

/// The character with the code `label`, escaped as a character literal is:
/// tab, carriage return, line feed, the two quotes and the backslash with a
/// backslash before them, the other printable ASCII characters as they are,
/// and every other character as `\u{..}` with its code in hexadecimal.
pub open spec fn escaped_text(label: u8) -> Seq<char> {
    if label == 0x09 {
        "\\t"@
    } else if label == 0x0D {
        "\\r"@
    } else if label == 0x0A {
        "\\n"@
    } else if label == 0x27 {
        "\\'"@
    } else if label == 0x22 {
        "\\\""@
    } else if label == 0x5C {
        "\\\\"@
    } else if 0x20 <= label <= 0x7E {
        seq![label as char]
    } else {
        "\\u{"@ + hex_text(label as nat) + "}"@
    }
}

/// Appends one character to the text. This is `String::push` of the
/// standard library, which is trusted to append the character and to leave
/// the text before it as it is.
#[verifier::external_body]
fn push_char(text: &mut String, c: char)
    ensures
        final(text)@ == old(text)@.push(c),
{
    text.push(c);
}

/// Appends the digit `d` to the text.
fn push_digit(text: &mut String, d: u32)
    requires
        d < 16,
    ensures
        final(text)@ == old(text)@ + digit_text(d as int),
{
    if d == 0 {
        text.append("0");
    } else if d == 1 {
        text.append("1");
    } else if d == 2 {
        text.append("2");
    } else if d == 3 {
        text.append("3");
    } else if d == 4 {
        text.append("4");
    } else if d == 5 {
        text.append("5");
    } else if d == 6 {
        text.append("6");
    } else if d == 7 {
        text.append("7");
    } else if d == 8 {
        text.append("8");
    } else if d == 9 {
        text.append("9");
    } else if d == 10 {
        text.append("a");
    } else if d == 11 {
        text.append("b");
    } else if d == 12 {
        text.append("c");
    } else if d == 13 {
        text.append("d");
    } else if d == 14 {
        text.append("e");
    } else {
        text.append("f");
    }
}

/// Appends the number `n` in decimal to the text.
pub fn push_decimal(text: &mut String, n: u32)
    ensures
        final(text)@ == old(text)@ + decimal_text(n as nat),
    decreases n,
{
    if n >= 10 {
        push_decimal(text, n / 10);
    }
    push_digit(text, n % 10);
    proof {
        if n >= 10 {
            assert(text@ =~= old(text)@ + (decimal_text((n / 10) as nat) + digit_text(
                (n % 10) as int,
            )));
        }
    }
}

/// Appends the number `n` in hexadecimal to the text.
pub fn push_hex(text: &mut String, n: u32)
    ensures
        final(text)@ == old(text)@ + hex_text(n as nat),
    decreases n,
{
    if n >= 16 {
        push_hex(text, n / 16);
    }
    push_digit(text, n % 16);
    proof {
        if n >= 16 {
            assert(text@ =~= old(text)@ + (hex_text((n / 16) as nat) + digit_text(
                (n % 16) as int,
            )));
        }
    }
}

/// Appends the character with the code `label` to the text, escaped.
pub fn push_escaped(text: &mut String, label: u8)
    ensures
        final(text)@ == old(text)@ + escaped_text(label),
{
    if label == 0x09 {
        text.append("\\t");
    } else if label == 0x0D {
        text.append("\\r");
    } else if label == 0x0A {
        text.append("\\n");
    } else if label == 0x27 {
        text.append("\\'");
    } else if label == 0x22 {
        text.append("\\\"");
    } else if label == 0x5C {
        text.append("\\\\");
    } else if 0x20 <= label && label <= 0x7E {
        push_char(text, label as char);
        assert(text@ =~= old(text)@ + seq![label as char]);
    } else {
        text.append("\\u{");
        push_hex(text, label as u32);
        text.append("}");
        assert(text@ =~= old(text)@ + ("\\u{"@ + hex_text(label as nat) + "}"@));
    }
}

} // verus!
