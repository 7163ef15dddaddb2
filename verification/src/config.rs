use vstd::prelude::*;
use crate::numbers::{all_digits, dec_value, numeral_digits};

verus! {

/// The value a configuration variable denotes: a decimal numeral (an
/// optional leading `+`, then at least one digit) that fits a `usize`
/// stands for itself; anything else falls back.
pub open spec fn parsed_or(s: Seq<u8>, fallback: int) -> int {
    let digits = numeral_digits(s);
    if digits.len() > 0 && all_digits(digits) && dec_value(digits) <= usize::MAX {
        dec_value(digits)
    } else {
        fallback
    }
}

fn parse_usize_or(v: &Vec<u8>, fallback: usize) -> (n: usize)
    ensures
        n == parsed_or(v@, fallback as int),
{
    match crate::numbers::parse_u64(v) {
        Some(value) => {
            if value <= usize::MAX as u64 {
                value as usize
            } else {
                fallback
            }
        },
        None => fallback,
    }
}

/// How many attempts to perform, from the raw `RUNS` variable: unset
/// means 100; set but malformed means 10; otherwise the value itself.
pub fn attempts_config(raw: Option<Vec<u8>>) -> (n: usize)
    ensures
        match raw {
            None => n == 100,
            Some(v) => n == parsed_or(v@, 10),
        },
{
    match raw {
        None => 100,
        Some(v) => parse_usize_or(&v, 10),
    }
}

/// The retention set's capacity, from the raw `MAX_SAVED_RUNS` variable:
/// 10 unless set to a well-formed value.
pub fn capacity_config(raw: Option<Vec<u8>>) -> (n: usize)
    ensures
        match raw {
            None => n == 10,
            Some(v) => n == parsed_or(v@, 10),
        },
{
    match raw {
        None => 10,
        Some(v) => parse_usize_or(&v, 10),
    }
}

} // verus!
