//! Reading and writing numbers as decimal text, byte by byte.

use crate::decimal::{decimal_digits, digit_char};
use vstd::prelude::*;

verus! {

/// The value of `b` where it is a decimal digit.
pub fn parse_digit(b: u8) -> (digit: Option<u64>)
    ensures
        digit == if 48 <= b <= 57 {
            Some((b - 48) as u64)
        } else {
            None
        },
{
    if 48 <= b && b <= 57 {
        Some((b - 48) as u64)
    } else {
        None
    }
}

/// How far a number has been read.
#[derive(Clone, Copy, Debug, PartialEq, Eq, Structural)]
pub enum Scan {
    /// No digit was seen yet.
    Leading,
    /// The digits seen so far spell this number.
    Number(u64),
}

/// What a byte makes of a number that is being read.
#[derive(Clone, Copy, Debug, PartialEq, Eq, Structural)]
pub enum Step {
    /// The number may go on: read the next byte.
    More(Scan),
    /// The number is complete.
    Done(u64),
}

/// What the byte `b` makes of `scan`.
pub open spec fn fed(scan: Scan, b: u8) -> Step {
    match scan {
        Scan::Leading => if 48 <= b <= 57 {
            Step::More(Scan::Number((b - 48) as u64))
        } else {
            Step::More(Scan::Leading)
        },
        Scan::Number(n) => if 48 <= b <= 57 {
            Step::More(Scan::Number((n * 10 + (b - 48)) as u64))
        } else {
            Step::Done(n)
        },
    }
}

/// Whether the byte `b` can be added to `scan`: a further digit does not
/// make the number too large for 64 bits.
pub open spec fn fits(scan: Scan, b: u8) -> bool {
    match scan {
        Scan::Leading => true,
        Scan::Number(n) => 48 <= b <= 57 ==> n * 10 + (b - 48) <= u64::MAX,
    }
}

/// Whether the byte `b` can be added to `scan`.
pub fn can_feed(scan: Scan, b: u8) -> (yes: bool)
    ensures
        yes == fits(scan, b),
{
    match scan {
        Scan::Leading => true,
        Scan::Number(n) => {
            if 48 <= b && b <= 57 {
                let d = (b - 48) as u64;
                n <= (u64::MAX - d) / 10
            } else {
                true
            }
        },
    }
}

/// Takes the next byte of the input: bytes before the first digit are
/// passed over, digits add to the number, and the first byte behind the
/// digits completes it.
pub fn feed(scan: Scan, b: u8) -> (step: Step)
    requires
        fits(scan, b),
    ensures
        step == fed(scan, b),
{
    match scan {
        Scan::Leading => match parse_digit(b) {
            Some(d) => Step::More(Scan::Number(d)),
            None => Step::More(Scan::Leading),
        },
        Scan::Number(n) => match parse_digit(b) {
            Some(d) => Step::More(Scan::Number(n * 10 + d)),
            None => Step::Done(n),
        },
    }
}

/// The byte of the digit with value `d`.
pub open spec fn digit_byte(d: nat) -> u8 {
    (48 + d) as u8
}

/// The decimal notation of `n` in bytes, without leading zeros.
pub open spec fn decimal_bytes(n: nat) -> Seq<u8>
    decreases n,
{
    if n < 10 {
        seq![digit_byte(n)]
    } else {
        decimal_bytes(n / 10).push(digit_byte(n % 10))
    }
}

/// The bytes of a number are the bytes of its digits.
pub proof fn lemma_decimal_bytes(n: nat)
    ensures
        decimal_bytes(n).len() == decimal_digits(n).len(),
        forall|i: int|
            0 <= i < decimal_bytes(n).len() ==> #[trigger] decimal_bytes(n)[i] as u32
                == decimal_digits(n)[i] as u32,
    decreases n,
{
    if n >= 10 {
        lemma_decimal_bytes(n / 10);
        assert(digit_byte(n % 10) as u32 == digit_char(n % 10) as u32);
    } else {
        assert(digit_byte(n) as u32 == digit_char(n) as u32);
    }
}

/// Appends the decimal notation of `n` to `out`.
pub fn push_decimal(out: &mut Vec<u8>, n: u64)
    ensures
        final(out)@ == old(out)@ + decimal_bytes(n as nat),
    decreases n,
{
    if n >= 10 {
        push_decimal(out, n / 10);
    }
    out.push(48 + (n % 10) as u8);
    proof {
        assert(out@ =~= old(out)@ + decimal_bytes(n as nat));
    }
}

/// The decimal notation of `n`.
pub fn print_bytes(n: u64) -> (bytes: Vec<u8>)
    ensures
        bytes@ == decimal_bytes(n as nat),
{
    let mut bytes: Vec<u8> = Vec::new();
    push_decimal(&mut bytes, n);
    bytes
}

} // verus!
