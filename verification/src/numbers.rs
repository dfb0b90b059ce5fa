//! Numbers as text: decimal and fixed-width hexadecimal formatting, hexadecimal parsing.

use vstd::prelude::*;

verus! {

/// The decimal digit of a value below ten.
pub open spec fn decimal_digit(value: nat) -> char {
    (48 + value) as char
}

/// A number in decimal, without leading zeros.
pub open spec fn decimal(value: nat) -> Seq<char>
    decreases value,
{
    if value < 10 {
        seq![decimal_digit(value)]
    } else {
        decimal(value / 10).push(decimal_digit(value % 10))
    }
}

/// Writes a number in decimal.
pub fn format_decimal(value: u64) -> (text: String)
    ensures
        text@ == decimal(value as nat),
    decreases value,
{
    let last: char = (48u8 + (value % 10) as u8) as char;
    let mut text = if value < 10 {
        String::new()
    } else {
        format_decimal(value / 10)
    };
    text.push(last);
    text
}

/// The lower-case hexadecimal digit of a value below sixteen.
pub open spec fn hex_digit(value: nat) -> u8 {
    if value < 10 {
        (48 + value) as u8
    } else {
        (87 + value) as u8
    }
}

/// The `width` lowest hexadecimal digits of a number, highest first.
pub open spec fn hex_digits(value: nat, width: nat) -> Seq<u8>
    decreases width,
{
    if width == 0 {
        Seq::empty()
    } else {
        hex_digits(value / 16, (width - 1) as nat).push(hex_digit(value % 16))
    }
}

/// Writes the `width` lowest hexadecimal digits of a number, padded with zeros.
pub fn format_hex(value: u128, width: u8) -> (digits: Vec<u8>)
    ensures
        digits@ == hex_digits(value as nat, width as nat),
    decreases width,
{
    if width == 0 {
        Vec::new()
    } else {
        let mut digits = format_hex(value / 16, width - 1);
        let last: u8 = (value % 16) as u8;
        digits.push(
            if last < 10 {
                48 + last
            } else {
                87 + last
            },
        );
        digits
    }
}

/// Why a text is not a hexadecimal number of 64 bits.
#[derive(Clone, Copy, Debug, PartialEq, Eq, Structural)]
pub enum HexError {
    /// There is no text.
    Empty,
    /// A character is not a digit.
    InvalidDigit,
    /// The number does not fit.
    Overflow,
}

/// The value of a hexadecimal digit in either case.
pub open spec fn hex_digit_value(byte: u8) -> Option<nat> {
    if 48 <= byte <= 57 {
        Some((byte - 48) as nat)
    } else if 97 <= byte <= 102 {
        Some((byte - 87) as nat)
    } else if 65 <= byte <= 70 {
        Some((byte - 55) as nat)
    } else {
        None
    }
}

/// The number that a run of digits stands for; the leftmost fault counts.
pub open spec fn digits_value(digits: Seq<u8>) -> Result<nat, HexError>
    decreases digits.len(),
{
    if digits.len() == 0 {
        Ok(0)
    } else {
        match digits_value(digits.drop_last()) {
            Err(error) => Err(error),
            Ok(value) => match hex_digit_value(digits.last()) {
                None => Err(HexError::InvalidDigit),
                Some(digit) => if value * 16 + digit > u64::MAX {
                    Err(HexError::Overflow)
                } else {
                    Ok(value * 16 + digit)
                },
            },
        }
    }
}

/// The number that a text stands for: digits, with at most one `+` before them.
pub open spec fn hex_number(text: Seq<u8>) -> Result<nat, HexError> {
    if text.len() == 0 {
        Err(HexError::Empty)
    } else if text[0] == 43 {
        if text.len() == 1 {
            Err(HexError::InvalidDigit)
        } else {
            digits_value(text.drop_first())
        }
    } else {
        digits_value(text)
    }
}

/// A fault in the first digits is a fault of the whole run.
proof fn lemma_fault_stays(digits: Seq<u8>, end: int)
    requires
        0 <= end <= digits.len(),
        digits_value(digits.take(end)) is Err,
    ensures
        digits_value(digits) == digits_value(digits.take(end)),
    decreases digits.len() - end,
{
    if end == digits.len() {
        assert(digits.take(end) == digits);
    } else {
        assert(digits.take(end + 1).drop_last() == digits.take(end));
        lemma_fault_stays(digits, end + 1);
    }
}

/// Reads the digits of a text from an index on.
fn parse_digits(text: &[u8], start: usize) -> (result: Result<u64, HexError>)
    requires
        start <= text@.len(),
    ensures
        match result {
            Ok(value) => digits_value(text@.skip(start as int)) == Ok::<nat, HexError>(value as nat),
            Err(error) => digits_value(text@.skip(start as int)) == Err::<nat, HexError>(error),
        },
{
    let ghost digits = text@.skip(start as int);
    let mut value: u64 = 0;
    let mut i: usize = start;
    while i < text.len()
        invariant
            start <= i <= text@.len(),
            digits == text@.skip(start as int),
            digits_value(digits.take(i - start)) == Ok::<nat, HexError>(value as nat),
        decreases text@.len() - i,
    {
        let byte: u8 = text[i];
        assert(digits.take(i + 1 - start).drop_last() == digits.take(i - start));
        let digit: u64 = if byte >= 48 && byte <= 57 {
            (byte - 48) as u64
        } else if byte >= 97 && byte <= 102 {
            (byte - 87) as u64
        } else if byte >= 65 && byte <= 70 {
            (byte - 55) as u64
        } else {
            proof {
                lemma_fault_stays(digits, i + 1 - start);
            }
            return Err(HexError::InvalidDigit);
        };
        if value > u64::MAX / 16 {
            proof {
                lemma_fault_stays(digits, i + 1 - start);
            }
            return Err(HexError::Overflow);
        }
        value = value * 16 + digit;
        i += 1;
    }
    assert(digits.take(text@.len() - start) == digits);
    Ok(value)
}

/// Reads a hexadecimal number of 64 bits.
pub fn parse_hex(text: &[u8]) -> (result: Result<u64, HexError>)
    ensures
        match result {
            Ok(value) => hex_number(text@) == Ok::<nat, HexError>(value as nat),
            Err(error) => hex_number(text@) == Err::<nat, HexError>(error),
        },
{
    if text.len() == 0 {
        Err(HexError::Empty)
    } else if text[0] == 43 {
        if text.len() == 1 {
            Err(HexError::InvalidDigit)
        } else {
            assert(text@.skip(1) == text@.drop_first());
            parse_digits(text, 1)
        }
    } else {
        assert(text@.skip(0) == text@);
        parse_digits(text, 0)
    }
}

/// Sixteen to the given power.
pub open spec fn power_of_16(exponent: nat) -> nat
    decreases exponent,
{
    if exponent == 0 {
        1
    } else {
        16 * power_of_16((exponent - 1) as nat)
    }
}

/// Formatting in hexadecimal gives `width` digits, and none of them is a sign, a dot or a slash.
pub proof fn lemma_hex_digits_shape(value: nat, width: nat)
    ensures
        hex_digits(value, width).len() == width,
        forall|i: int|
            0 <= i < width ==> {
                ||| 48 <= #[trigger] hex_digits(value, width)[i] <= 57
                ||| 97 <= hex_digits(value, width)[i] <= 102
            },
    decreases width,
{
    if width > 0 {
        lemma_hex_digits_shape(value / 16, (width - 1) as nat);
    }
}

/// Digits written for a number that they can hold and that has 64 bits stand for that number.
pub proof fn lemma_hex_round_trip(value: nat, width: nat)
    requires
        value < power_of_16(width),
        value <= u64::MAX,
        width > 0,
    ensures
        hex_number(hex_digits(value, width)) == Ok::<nat, HexError>(value),
{
    lemma_digits_round_trip(value, width);
    lemma_hex_digits_shape(value, width);
    assert(hex_digits(value, width)[0] != 43);
}

proof fn lemma_digits_round_trip(value: nat, width: nat)
    requires
        value < power_of_16(width),
        value <= u64::MAX,
    ensures
        digits_value(hex_digits(value, width)) == Ok::<nat, HexError>(value),
    decreases width,
{
    if width > 0 {
        lemma_digits_round_trip(value / 16, (width - 1) as nat);
        assert(hex_digits(value, width).drop_last() == hex_digits(value / 16, (width - 1) as nat));
        assert(hex_digit_value(hex_digit(value % 16)) == Some(value % 16));
    }
}

/// Digits of the same width tell apart any two numbers that they can hold.
pub proof fn lemma_hex_digits_injective(left: nat, right: nat, width: nat)
    requires
        left < power_of_16(width),
        right < power_of_16(width),
        hex_digits(left, width) == hex_digits(right, width),
    ensures
        left == right,
    decreases width,
{
    if width > 0 {
        let narrow = (width - 1) as nat;
        let l = hex_digits(left, width);
        let r = hex_digits(right, width);
        assert(l.drop_last() == hex_digits(left / 16, narrow));
        assert(r.drop_last() == hex_digits(right / 16, narrow));
        assert(l.last() == hex_digit(left % 16));
        assert(r.last() == hex_digit(right % 16));
        lemma_hex_digits_injective(left / 16, right / 16, narrow);
    }
}

/// Decimal text holds decimal digits only.
pub proof fn lemma_decimal_shape(value: nat)
    ensures
        decimal(value).len() > 0,
        forall|i: int| 0 <= i < decimal(value).len() ==> '0' <= #[trigger] decimal(value)[i] <= '9',
    decreases value,
{
    if value >= 10 {
        lemma_decimal_shape(value / 10);
    }
}

/// Decimal text tells apart any two numbers.
pub proof fn lemma_decimal_injective(left: nat, right: nat)
    requires
        decimal(left) == decimal(right),
    ensures
        left == right,
    decreases left,
{
    lemma_decimal_shape(left / 10);
    lemma_decimal_shape(right / 10);
    let l = decimal(left);
    let r = decimal(right);
    assert(l.last() == decimal_digit(left % 10));
    assert(r.last() == decimal_digit(right % 10));
    if left >= 10 && right >= 10 {
        assert(l.drop_last() == decimal(left / 10));
        assert(r.drop_last() == decimal(right / 10));
        lemma_decimal_injective(left / 10, right / 10);
    } else if left >= 10 {
        assert(l.len() >= 2);
    } else if right >= 10 {
        assert(r.len() >= 2);
    }
}

} // verus!
