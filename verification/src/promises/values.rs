//! What holds of JSON values, numbers and failures.

use vstd::prelude::*;

use crate::error::{ensure_scan_time_remaining, is_timeout_error, Cause, Deadline, ScanError};
use crate::json::{member, write_array, Json};
use crate::numbers::{
    decimal, digits_value, format_decimal, format_hex, hex_digits, parse_hex, HexError,
};
use crate::text::{joined, views};

verus! {

/// Whether the i-th member of an object is the first under a key.
pub open spec fn is_first_member(members: Seq<(String, Json)>, key: Seq<char>, i: int) -> bool {
    &&& 0 <= i < members.len()
    &&& members[i].0@ == key
    &&& forall|j: int| 0 <= j < i ==> (#[trigger] members[j]).0@ != key
}

/// Whether no member of an object stands under a key.
pub open spec fn has_no_member(members: Seq<(String, Json)>, key: Seq<char>) -> bool {
    forall|j: int| 0 <= j < members.len() ==> (#[trigger] members[j]).0@ != key
}

pub proof fn lemma_member(members: Seq<(String, Json)>, key: Seq<char>)
    ensures
        match member(members, key) {
            Some(value) => exists|i: int| #[trigger]
                is_first_member(members, key, i) && members[i].1 == value,
            None => has_no_member(members, key),
        },
    decreases members.len(),
{
    if members.len() > 0 {
        if members[0].0@ == key {
            assert(is_first_member(members, key, 0));
        } else {
            let rest = members.drop_first();
            lemma_member(rest, key);
            match member(members, key) {
                Some(value) => {
                    let i = choose|i: int| #[trigger]
                        is_first_member(rest, key, i) && rest[i].1 == value;
                    assert forall|j: int| 0 <= j < i + 1 implies (#[trigger] members[j]).0@
                        != key by {
                        if j > 0 {
                            assert(rest[j - 1] == members[j]);
                        }
                    }
                    assert(is_first_member(members, key, i + 1));
                },
                None => {
                    assert forall|j: int| 0 <= j < members.len() implies (
                    #[trigger] members[j]).0@ != key by {
                        if j > 0 {
                            assert(rest[j - 1] == members[j]);
                        }
                    }
                },
            }
        }
    }
}

/// The member under a key is the first one that stands under it, and there is one wherever the
/// value is an object with such a member.
pub proof fn law_members_are_found(value: &Json, key: &str, result: Option<&Json>)
    requires
        call_ensures(Json::get, (value, key), result),
    ensures
        match result {
            Some(found) => {
                &&& value matches Json::Object(members)
                &&& exists|i: int| #[trigger]
                    is_first_member(members@, key@, i) && members@[i].1 == *found
            },
            None => value matches Json::Object(members) ==> has_no_member(members@, key@),
        },
{
    if let Json::Object(members) = *value {
        lemma_member(members@, key@);
    }
}

/// The text under a key is that of the member, where the member is a text; the first text under a
/// key is that of the first item, where the member is an array that starts with a text.
pub proof fn law_texts_are_read(
    value: &Json,
    key: &str,
    found: Option<&Json>,
    text: Option<&str>,
    first: Option<&str>,
)
    requires
        call_ensures(Json::get, (value, key), found),
        call_ensures(Json::get_text, (value, key), text),
        call_ensures(Json::get_first_text, (value, key), first),
    ensures
        match text {
            Some(text) => found matches Some(Json::Text(held)) && held@ == text@,
            None => !(found matches Some(Json::Text(_))),
        },
        match first {
            Some(text) => {
                &&& found matches Some(Json::Array(items))
                &&& items@.len() > 0
                &&& items@[0] matches Json::Text(held)
                &&& held@ == text@
            },
            None => found matches Some(Json::Array(items)) ==> items@.len() == 0 || !(items@[0]
                is Text),
        },
{
}

/// An array is written with its items in order, commas between them and brackets around them.
pub proof fn law_arrays_are_written(items: &[String], text: String)
    requires
        call_ensures(write_array, (items,), text),
    ensures
        text@ == seq!['['] + joined(views(items@), seq![',']) + seq![']'],
{
    reveal_strlit("[");
    reveal_strlit("]");
    reveal_strlit(",");
    assert("["@ =~= seq!['[']);
    assert("]"@ =~= seq![']']);
    assert(","@ =~= seq![',']);
}

/// The number that decimal digits stand for.
pub open spec fn decimal_value(digits: Seq<char>) -> int
    decreases digits.len(),
{
    if digits.len() == 0 {
        0
    } else {
        10 * decimal_value(digits.drop_last()) + (digits.last() as int - 48)
    }
}

/// The number that lower-case hexadecimal digits stand for.
pub open spec fn lower_hex_value(digits: Seq<u8>) -> int
    decreases digits.len(),
{
    if digits.len() == 0 {
        0
    } else {
        let last = digits.last() as int;
        16 * lower_hex_value(digits.drop_last()) + (if last <= 57 {
            last - 48
        } else {
            last - 87
        })
    }
}

pub proof fn lemma_decimal_value(value: nat)
    ensures
        decimal_value(decimal(value)) == value,
        decimal(value).len() > 0,
        forall|i: int| 0 <= i < decimal(value).len() ==> '0' <= #[trigger] decimal(value)[i] <= '9',
        decimal(value).len() > 1 ==> decimal(value)[0] != '0',
        value > 0 ==> decimal(value)[0] != '0',
    decreases value,
{
    let all = decimal(value);
    if value >= 10 {
        lemma_decimal_value(value / 10);
        assert(all.drop_last() =~= decimal(value / 10));
        assert(all[0] == decimal(value / 10)[0]);
        assert forall|i: int| 0 <= i < all.len() implies '0' <= #[trigger] all[i] <= '9' by {
            if i < all.len() - 1 {
                assert(all[i] == decimal(value / 10)[i]);
            }
        }
    } else {
        assert(all.drop_last() =~= Seq::<char>::empty());
        assert(decimal_value(all.drop_last()) == 0);
    }
}

/// A number in decimal is made of digits that stand for it, without a zero before others.
pub proof fn law_decimals_stand_for_the_number(value: u64, text: String)
    requires
        call_ensures(format_decimal, (value,), text),
    ensures
        decimal_value(text@) == value,
        text@.len() > 0,
        forall|i: int| 0 <= i < text@.len() ==> '0' <= #[trigger] text@[i] <= '9',
        text@.len() > 1 ==> text@[0] != '0',
{
    lemma_decimal_value(value as nat);
}

/// How many numbers a run of hexadecimal digits can stand for.
pub open spec fn hex_range(width: nat) -> nat
    decreases width,
{
    if width == 0 {
        1
    } else {
        16 * hex_range((width - 1) as nat)
    }
}

pub proof fn lemma_hex_value(value: nat, width: nat)
    ensures
        hex_digits(value, width).len() == width,
        forall|i: int|
            0 <= i < width ==> {
                let digit = #[trigger] hex_digits(value, width)[i];
                48 <= digit <= 57 || 97 <= digit <= 102
            },
        value < hex_range(width) ==> lower_hex_value(hex_digits(value, width)) == value,
    decreases width,
{
    let all = hex_digits(value, width);
    if width > 0 {
        let before = (width - 1) as nat;
        lemma_hex_value(value / 16, before);
        assert(all.drop_last() =~= hex_digits(value / 16, before));
        assert forall|i: int| 0 <= i < width implies {
            let digit = #[trigger] all[i];
            48 <= digit <= 57 || 97 <= digit <= 102
        } by {
            if i < before {
                assert(all[i] == hex_digits(value / 16, before)[i]);
            }
        }
    }
}

/// A number in hexadecimal has as many lower-case digits as are asked for, which stand for it
/// where it fits.
pub proof fn law_hex_digits_stand_for_the_number(value: u128, width: u8, digits: Vec<u8>)
    requires
        call_ensures(format_hex, (value, width), digits),
    ensures
        digits@.len() == width,
        forall|i: int|
            0 <= i < width ==> 48 <= #[trigger] digits@[i] <= 57 || 97 <= digits@[i] <= 102,
        value < hex_range(width as nat) ==> lower_hex_value(digits@) == value,
{
    lemma_hex_value(value as nat, width as nat);
    assert forall|i: int| 0 <= i < width implies 48 <= #[trigger] digits@[i] <= 57 || 97
        <= digits@[i] <= 102 by {
        let digit = hex_digits(value as nat, width as nat)[i];
    }
}

/// Whether a byte is a hexadecimal digit, in either case.
pub open spec fn is_hex_digit(byte: u8) -> bool {
    48 <= byte <= 57 || 65 <= byte <= 70 || 97 <= byte <= 102
}

/// Whether bytes are hexadecimal digits, in either case.
pub open spec fn are_hex_digits(bytes: Seq<u8>) -> bool {
    forall|i: int| 0 <= i < bytes.len() ==> is_hex_digit(#[trigger] bytes[i])
}

/// A text without a plus sign at its start.
pub open spec fn without_plus(text: Seq<u8>) -> Seq<u8> {
    if text.len() > 0 && text[0] == 43 {
        text.skip(1)
    } else {
        text
    }
}

/// The number that hexadecimal digits stand for, in either case.
pub open spec fn hex_value(digits: Seq<u8>) -> int
    decreases digits.len(),
{
    if digits.len() == 0 {
        0
    } else {
        let last = digits.last() as int;
        16 * hex_value(digits.drop_last()) + (if last <= 57 {
            last - 48
        } else if last <= 70 {
            last - 55
        } else {
            last - 87
        })
    }
}

proof fn lemma_hex_value_grows(digits: Seq<u8>)
    requires
        forall|i: int| 0 <= i < digits.len() ==> is_hex_digit(#[trigger] digits[i]),
    ensures
        hex_value(digits) >= 0,
        digits.len() > 0 ==> hex_value(digits) >= 16 * hex_value(digits.drop_last()),
    decreases digits.len(),
{
    if digits.len() > 0 {
        let before = digits.drop_last();
        assert forall|i: int| 0 <= i < before.len() implies is_hex_digit(#[trigger] before[i]) by {
            assert(is_hex_digit(digits[i]));
        }
        lemma_hex_value_grows(before);
        assert(is_hex_digit(digits[digits.len() - 1]));
    }
}

pub proof fn lemma_digits_value(digits: Seq<u8>)
    ensures
        match digits_value(digits) {
            Ok(value) => {
                &&& are_hex_digits(digits)
                &&& value == hex_value(digits)
                &&& value <= u64::MAX
            },
            Err(HexError::InvalidDigit) => exists|i: int|
                0 <= i < digits.len() && !is_hex_digit(#[trigger] digits[i]),
            Err(HexError::Overflow) => exists|i: int|
                0 <= i <= digits.len() && hex_value(#[trigger] digits.take(i)) > u64::MAX,
            Err(HexError::Empty) => false,
        },
        are_hex_digits(digits) && hex_value(digits) <= u64::MAX ==> digits_value(digits) is Ok,
    decreases digits.len(),
{
    if digits.len() > 0 {
        let before = digits.drop_last();
        lemma_digits_value(before);
        assert(digits.take(digits.len() as int) =~= digits);
        match digits_value(before) {
            Ok(value) => {
                assert forall|i: int| 0 <= i < before.len() implies is_hex_digit(
                    #[trigger] digits[i],
                ) by {
                    assert(is_hex_digit(before[i]));
                }
                assert(digits[digits.len() - 1] == digits.last());
                assert(digits.take(digits.len() as int) =~= digits);
            },
            Err(HexError::InvalidDigit) => {
                let i = choose|i: int|
                    0 <= i < before.len() && !is_hex_digit(#[trigger] before[i]);
                assert(!is_hex_digit(digits[i]));
            },
            Err(HexError::Overflow) => {
                let i = choose|i: int|
                    0 <= i <= before.len() && hex_value(#[trigger] before.take(i)) > u64::MAX;
                assert(digits.take(i) =~= before.take(i));
                if are_hex_digits(digits) {
                    lemma_hex_value_grows(digits);
                    assert forall|k: int| 0 <= k < before.len() implies is_hex_digit(
                        #[trigger] before[k],
                    ) by {
                        assert(is_hex_digit(digits[k]));
                    }
                    lemma_hex_value_grows(before);
                }
            },
            Err(HexError::Empty) => {},
        }
    }
}

/// A text is read as a hexadecimal number just where it is digits, in either case, with at most one
/// plus sign before them, that stand for a number of 64 bits; it is read as that number.
pub proof fn law_hex_numbers_are_read(text: &[u8], result: Result<u64, HexError>)
    requires
        call_ensures(parse_hex, (text,), result),
    ensures
        result is Ok <==> {
            &&& without_plus(text@).len() > 0
            &&& are_hex_digits(without_plus(text@))
            &&& hex_value(without_plus(text@)) <= u64::MAX
        },
        result matches Ok(value) ==> value == hex_value(without_plus(text@)),
        text@.len() == 0 <==> result == Err::<u64, HexError>(HexError::Empty),
{
    lemma_digits_value(text@);
    lemma_digits_value(text@.skip(1));
    if text@.len() > 0 {
        assert(text@.drop_first() =~= text@.skip(1));
    }
}

/// A failure is a timeout where a deadline was missed, or where any of its causes outside is a
/// timeout of any kind; nothing else is.
pub proof fn law_timeouts_are_recognised(error: &ScanError, result: bool)
    requires
        call_ensures(is_timeout_error, (error,), result),
    ensures
        error is Timeout ==> result,
        error matches ScanError::Outside { text, causes } ==> (result <==> exists|i: int|
            0 <= i < causes@.len() && {
                ||| #[trigger] causes@[i] == Cause::ScanTimeout
                ||| causes@[i] == Cause::HttpTimeout
                ||| causes@[i] == Cause::IoTimeout
            }),
        !(error is Timeout) && !(error is Outside) ==> !result,
{
}

/// There is time left just before a deadline, and none from it on.
pub proof fn law_deadlines_are_kept(
    now: u128,
    deadline: u128,
    result: Result<(), ScanError>,
)
    requires
        call_ensures(ensure_scan_time_remaining, (now, deadline), result),
    ensures
        result is Ok <==> now < deadline,
        result matches Err(error) ==> error == ScanError::Timeout(Deadline::Preparation),
{
}

} // verus!
