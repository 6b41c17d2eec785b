//! Integers as they are written on a command line: decimal, or hexadecimal
//! behind `0x`.

use vstd::prelude::*;
use vstd::slice::slice_subrange;

use crate::text::{
    chars_of, decimal, hex_digits, law_written_numbers_read_back, number_up_to, parse_number,
};

verus! {

/// Why a text is not an integer of the wanted size.
#[derive(Debug, Clone, Copy, PartialEq, Eq, Structural)]
pub enum IntegerError {
    /// There are no digits.
    NotAnInteger,
    /// A character is not a digit, or the value does not fit 64 bits.
    Invalid,
    /// The value does not fit the wanted size.
    TooLarge,
}

/// A text is written in hexadecimal.
pub open spec fn is_hexadecimal(text: Seq<char>) -> bool {
    text.len() >= 2 && text[0] == '0' && (text[1] == 'x' || text[1] == 'X')
}

/// The part of a text that states the value.
pub open spec fn value_part(text: Seq<char>) -> Seq<char> {
    if is_hexadecimal(text) {
        text.skip(2)
    } else {
        text
    }
}

/// The value that a text states, in at most 64 bits.
pub open spec fn integer_of(text: Seq<char>) -> Result<nat, IntegerError> {
    let radix: nat = if is_hexadecimal(text) {
        16
    } else {
        10
    };
    if value_part(text).len() == 0 {
        Err(IntegerError::NotAnInteger)
    } else {
        match number_up_to(value_part(text), radix, u64::MAX as nat) {
            Some(value) => Ok(value),
            None => Err(IntegerError::Invalid),
        }
    }
}

/// The value that a text states, up to a limit.
pub open spec fn integer_up_to(text: Seq<char>, limit: nat) -> Result<nat, IntegerError> {
    match integer_of(text) {
        Ok(value) => if value <= limit {
            Ok(value)
        } else {
            Err(IntegerError::TooLarge)
        },
        Err(error) => Err(error),
    }
}

/// Reads an integer.
///
/// # Errors
///
/// Returns [`IntegerError`] for a text without digits, with other characters,
/// or with a value beyond 64 bits.
pub fn parse_integer(value: &str) -> (result: Result<u64, IntegerError>)
    ensures
        match (result, integer_of(value@)) {
            (Ok(number), Ok(expected)) => number == expected,
            (Err(error), Err(reason)) => error == reason,
            _ => false,
        },
{
    let letters: Vec<char> = chars_of(value);
    let hexadecimal: bool = letters.len() >= 2 && letters[0] == '0' && (letters[1] == 'x'
        || letters[1] == 'X');
    let start: usize = if hexadecimal {
        2
    } else {
        0
    };
    let digits: &[char] = slice_subrange(letters.as_slice(), start, letters.len());
    proof {
        assert(letters@.subrange(2, letters@.len() as int) =~= letters@.skip(2));
        assert(letters@.subrange(0, letters@.len() as int) =~= letters@);
    }
    if digits.len() == 0 {
        return Err(IntegerError::NotAnInteger);
    }
    let radix: u8 = if hexadecimal {
        16
    } else {
        10
    };
    match parse_number(digits, radix, u64::MAX) {
        Some(number) => Ok(number),
        None => Err(IntegerError::Invalid),
    }
}

fn parse_up_to(value: &str, limit: u64) -> (result: Result<u64, IntegerError>)
    ensures
        match (result, integer_up_to(value@, limit as nat)) {
            (Ok(number), Ok(expected)) => number == expected && number <= limit,
            (Err(error), Err(reason)) => error == reason,
            _ => false,
        },
{
    let number: u64 = parse_integer(value)?;
    if number <= limit {
        Ok(number)
    } else {
        Err(IntegerError::TooLarge)
    }
}

/// Reads an 8-bit integer.
///
/// # Errors
///
/// Returns [`IntegerError`] as [`parse_integer`] does, and for a larger value.
pub fn parse_u8(value: &str) -> (result: Result<u8, IntegerError>)
    ensures
        match (result, integer_up_to(value@, u8::MAX as nat)) {
            (Ok(number), Ok(expected)) => number == expected,
            (Err(error), Err(reason)) => error == reason,
            _ => false,
        },
{
    let number: u64 = parse_up_to(value, 0xff)?;
    Ok(number as u8)
}

/// Reads a 16-bit integer.
///
/// # Errors
///
/// Returns [`IntegerError`] as [`parse_integer`] does, and for a larger value.
pub fn parse_u16(value: &str) -> (result: Result<u16, IntegerError>)
    ensures
        match (result, integer_up_to(value@, u16::MAX as nat)) {
            (Ok(number), Ok(expected)) => number == expected,
            (Err(error), Err(reason)) => error == reason,
            _ => false,
        },
{
    let number: u64 = parse_up_to(value, 0xffff)?;
    Ok(number as u16)
}

/// Reads a 32-bit integer.
///
/// # Errors
///
/// Returns [`IntegerError`] as [`parse_integer`] does, and for a larger value.
pub fn parse_u32(value: &str) -> (result: Result<u32, IntegerError>)
    ensures
        match (result, integer_up_to(value@, u32::MAX as nat)) {
            (Ok(number), Ok(expected)) => number == expected,
            (Err(error), Err(reason)) => error == reason,
            _ => false,
        },
{
    let number: u64 = parse_up_to(value, 0xffff_ffff)?;
    Ok(number as u32)
}

/// Reads an integer of the size of an address.
///
/// # Errors
///
/// Returns [`IntegerError`] as [`parse_integer`] does, and for a larger value.
pub fn parse_usize(value: &str) -> (result: Result<usize, IntegerError>)
    ensures
        match (result, integer_up_to(value@, usize::MAX as nat)) {
            (Ok(number), Ok(expected)) => number == expected,
            (Err(error), Err(reason)) => error == reason,
            _ => false,
        },
{
    let number: u64 = parse_up_to(value, usize::MAX as u64)?;
    Ok(number as usize)
}

/// An integer in decimal digits, or in hexadecimal ones behind `0x` or `0X`, is read
/// as its value, if it fits.
pub proof fn law_written_integers_are_read(value: u64, limit: nat, width: nat)
    requires
        0 < width,
        value < vstd::arithmetic::power::pow(16, width),
    ensures
        integer_up_to(decimal(value as nat), limit) == if value <= limit {
            Ok::<nat, IntegerError>(value as nat)
        } else {
            Err(IntegerError::TooLarge)
        },
        integer_up_to(seq!['0', 'x'] + hex_digits(value as nat, width), limit) == if value
            <= limit {
            Ok::<nat, IntegerError>(value as nat)
        } else {
            Err(IntegerError::TooLarge)
        },
        integer_up_to(seq!['0', 'X'] + hex_digits(value as nat, width), limit) == if value
            <= limit {
            Ok::<nat, IntegerError>(value as nat)
        } else {
            Err(IntegerError::TooLarge)
        },
{
    law_written_numbers_read_back(value as nat, width);
    let digits = hex_digits(value as nat, width);
    let small = seq!['0', 'x'] + digits;
    let large = seq!['0', 'X'] + digits;
    assert(small.skip(2) =~= digits);
    assert(large.skip(2) =~= digits);
    let plain = decimal(value as nat);
    lemma_decimal_digits(value as nat);
}

proof fn lemma_decimal_digits(value: nat)
    ensures
        decimal(value).len() > 0,
        forall|i: int|
            0 <= i < decimal(value).len() ==> '0' <= #[trigger] decimal(value)[i] && decimal(
                value,
            )[i] <= '9',
    decreases value,
{
    if value >= 10 {
        lemma_decimal_digits(value / 10);
        let digits = decimal(value);
        assert forall|i: int| 0 <= i < digits.len() implies '0' <= #[trigger] digits[i] && digits[i]
            <= '9' by {
            if i < digits.len() - 1 {
                assert(digits[i] == decimal(value / 10)[i]);
            }
        }
    }
}

} // verus!
