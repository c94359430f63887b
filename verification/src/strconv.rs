//! Decimal parsing of configuration strings into `usize` values, together
//! with the identifier trait used by device front-ends.

use vstd::pervasive::unreached;
use vstd::prelude::*;
use vstd::string::StringSliceAdditionalSpecFns;

verus! {

/// Something that can report a textual identifier.
pub trait Uuid {
    type T;

    type Error;

    fn uuid(&self) -> Result<Self::T, Self::Error>;
}

/// Why a string failed to parse as a decimal `usize`.
#[derive(Clone, Copy, Debug)]
pub enum ParseIntError {
    InvalidDigit,
    Overflow,
}

/// Longest digit string the parser accepts.
pub const POW_LENGTH: usize = 20;

/// Whether `b` is the code of a decimal digit.
pub open spec fn is_digit(b: u8) -> bool {
    48 <= b <= 57
}

/// Numeric value of the digit code `b`.
pub open spec fn digit_val(b: u8) -> int {
    b - 48
}

/// Whether every byte of `s` is a decimal digit.
pub open spec fn all_digits(s: Seq<u8>) -> bool {
    forall|k: int| 0 <= k < s.len() ==> is_digit(#[trigger] s[k])
}

/// The number that the digit string `s` denotes, most significant digit
/// first.
pub open spec fn str_value(s: Seq<u8>) -> int
    decreases s.len(),
{
    if s.len() == 0 {
        0
    } else {
        str_value(s.drop_last()) * 10 + digit_val(s.last())
    }
}

/// Ten to the power `n`.
pub open spec fn pow10(n: nat) -> int
    decreases n,
{
    if n == 0 {
        1
    } else {
        10 * pow10((n - 1) as nat)
    }
}

proof fn lemma_pow10_pos(n: nat)
    ensures
        pow10(n) >= 1,
    decreases n,
{
    if n > 0 {
        lemma_pow10_pos((n - 1) as nat);
    }
}

proof fn lemma_pow10_increases(a: nat, b: nat)
    requires
        a <= b,
    ensures
        pow10(a) <= pow10(b),
    decreases b,
{
    if a < b {
        lemma_pow10_increases(a, (b - 1) as nat);
        lemma_pow10_pos((b - 1) as nat);
    }
}

proof fn lemma_pow10_concrete()
    ensures
        pow10(20) == 100000000000000000000,
{
    reveal_with_fuel(pow10, 21);
}

/// A digit string of length `n` denotes a value below ten to the `n`.
proof fn lemma_str_value_bound(s: Seq<u8>)
    requires
        all_digits(s),
    ensures
        0 <= str_value(s) < pow10(s.len()),
    decreases s.len(),
{
    if s.len() > 0 {
        assert(all_digits(s.drop_last())) by {
            assert(forall|k: int|
                0 <= k < s.len() - 1 ==> #[trigger] s.drop_last()[k] == s[k]);
        }
        lemma_str_value_bound(s.drop_last());
    }
}

/// What parsing the byte string `s` returns: too long strings overflow, a
/// non-digit is rejected, and a plain digit string gives its value.
pub open spec fn parse_result(s: Seq<u8>) -> Result<usize, ParseIntError> {
    if s.len() > POW_LENGTH {
        Err(ParseIntError::Overflow)
    } else if !all_digits(s) {
        Err(ParseIntError::InvalidDigit)
    } else {
        Ok(str_value(s) as usize)
    }
}

/// Value of one decimal digit code, or the code's rejection.
pub fn parse_byte(b: u8) -> (r: Result<usize, ParseIntError>)
    ensures
        r == if is_digit(b) {
            Result::<usize, ParseIntError>::Ok(digit_val(b) as usize)
        } else {
            Result::<usize, ParseIntError>::Err(ParseIntError::InvalidDigit)
        },
{
    let r = b.wrapping_sub(48);
    if r > 9 {
        Err(ParseIntError::InvalidDigit)
    } else {
        Ok(r as usize)
    }
}

fn parse_inner(bytes: &[u8]) -> (r: Result<usize, ParseIntError>)
    requires
        bytes@.len() >= 1,
        all_digits(bytes@) && bytes@.len() <= POW_LENGTH ==> str_value(bytes@) <= usize::MAX,
    ensures
        r == parse_result(bytes@),
{
    let n: usize = bytes.len();
    if n > POW_LENGTH {
        return Err(ParseIntError::Overflow);
    }
    let mut acc: u128 = 0;
    let mut k: usize = 0;
    while k < n
        invariant
            k <= n,
            n == bytes@.len(),
            n <= POW_LENGTH,
            all_digits(bytes@.take(k as int)),
            acc as int == str_value(bytes@.take(k as int)),
            (acc as int) < pow10(k as nat),
        decreases n - k,
    {
        let b = bytes[k];
        match parse_byte(b) {
            Err(e) => {
                proof {
                    assert(!is_digit(bytes@[k as int]));
                }
                return Err(e);
            },
            Ok(d) => {
                proof {
                    lemma_pow10_increases((k + 1) as nat, POW_LENGTH as nat);
                    lemma_pow10_concrete();
                    assert(bytes@.take(k + 1).drop_last() =~= bytes@.take(k as int));
                    assert(bytes@.take(k + 1).last() == bytes@[k as int]);
                    assert(forall|j: int|
                        0 <= j < k + 1 ==> is_digit(#[trigger] bytes@.take(k + 1)[j]));
                }
                acc = acc * 10 + (d as u128);
                k = k + 1;
            },
        }
    }
    proof {
        assert(bytes@.take(n as int) =~= bytes@);
    }
    Ok(acc as usize)
}

/// Parses a decimal string into a `usize`; strings longer than `POW_LENGTH`
/// bytes overflow, and any non-digit byte is an invalid digit.
pub fn parse(b: &str) -> (r: Result<usize, ParseIntError>)
    requires
        b.spec_bytes().len() >= 1,
        all_digits(b.spec_bytes()) && b.spec_bytes().len() <= POW_LENGTH ==> str_value(
            b.spec_bytes(),
        ) <= usize::MAX,
    ensures
        r == parse_result(b.spec_bytes()),
{
    parse_inner(b.as_bytes())
}

/// Parses a decimal string that is known to denote a `usize` value.
pub fn parse_unwrap(b: &str) -> (r: usize)
    requires
        b.spec_bytes().len() >= 1,
        b.spec_bytes().len() <= POW_LENGTH,
        all_digits(b.spec_bytes()),
        str_value(b.spec_bytes()) <= usize::MAX,
    ensures
        r as int == str_value(b.spec_bytes()),
{
    proof {
        lemma_str_value_bound(b.spec_bytes());
    }
    match parse(b) {
        Ok(t) => t,
        _ => unreached(),
    }
}

} // verus!
