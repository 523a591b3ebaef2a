//! Decimal integers as the command line spells them.

use vstd::prelude::*;

verus! {

/// Why a decimal integer could not be read.
#[derive(Debug, Clone, Copy, PartialEq, Eq, Structural)]
pub enum IntErrorKind {
    /// The text is empty.
    Empty,
    /// A character is not a decimal digit (or the text is a lone sign).
    InvalidDigit,
    /// The number is above `i32::MAX`.
    PosOverflow,
    /// The number is below `i32::MIN`.
    NegOverflow,
}

/// The largest magnitude that a positive `i32` can hold.
pub const POS_BOUND: u32 = 0x7fff_ffff;

/// The largest magnitude that a negative `i32` can hold.
pub const NEG_BOUND: u32 = 0x8000_0000;

/// An ASCII decimal digit.
pub open spec fn is_digit(c: char) -> bool {
    '0' as u32 <= c as u32 && c as u32 <= '9' as u32
}

/// The value of a decimal digit.
pub open spec fn digit_value(c: char) -> int {
    c as u32 - '0' as u32
}

/// Reads the digits `s` from left to right as a magnitude that may not exceed
/// `bound`. The first character that is not a digit gives `InvalidDigit`; the
/// first digit that takes the magnitude past `bound` gives `None` as the error
/// (an overflow), whichever comes first.
pub open spec fn scan_magnitude(s: Seq<char>, bound: int) -> Result<int, Option<IntErrorKind>>
    decreases s.len(),
{
    if s.len() == 0 {
        Ok(0)
    } else {
        match scan_magnitude(s.drop_last(), bound) {
            Err(e) => Err(e),
            Ok(v) => if !is_digit(s.last()) {
                Err(Some(IntErrorKind::InvalidDigit))
            } else if v * 10 + digit_value(s.last()) > bound {
                Err(None)
            } else {
                Ok(v * 10 + digit_value(s.last()))
            },
        }
    }
}

/// The `i32` that the text `s` spells in decimal: an optional `+` or `-`,
/// then at least one digit, with no other character.
pub open spec fn parse_i32_spec(s: Seq<char>) -> Result<i32, IntErrorKind> {
    if s.len() == 0 {
        Err(IntErrorKind::Empty)
    } else if (s[0] == '+' || s[0] == '-') && s.len() == 1 {
        Err(IntErrorKind::InvalidDigit)
    } else if s[0] == '-' {
        match scan_magnitude(s.drop_first(), NEG_BOUND as int) {
            Ok(v) => Ok((-v) as i32),
            Err(Some(e)) => Err(e),
            Err(None) => Err(IntErrorKind::NegOverflow),
        }
    } else {
        let digits = if s[0] == '+' { s.drop_first() } else { s };
        match scan_magnitude(digits, POS_BOUND as int) {
            Ok(v) => Ok(v as i32),
            Err(Some(e)) => Err(e),
            Err(None) => Err(IntErrorKind::PosOverflow),
        }
    }
}

/// A magnitude that `scan_magnitude` accepts lies within its bound.
proof fn lemma_scan_bounded(s: Seq<char>, bound: int)
    requires
        bound >= 0,
    ensures
        scan_magnitude(s, bound) matches Ok(v) ==> 0 <= v <= bound,
    decreases s.len(),
{
    if s.len() > 0 {
        lemma_scan_bounded(s.drop_last(), bound);
    }
}

/// Once a prefix of the digits fails, the whole text fails the same way.
proof fn lemma_scan_error_sticks(s: Seq<char>, k: int, bound: int)
    requires
        0 <= k <= s.len(),
        scan_magnitude(s.subrange(0, k), bound) is Err,
    ensures
        scan_magnitude(s, bound) == scan_magnitude(s.subrange(0, k), bound),
    decreases s.len(),
{
    if k < s.len() {
        assert(s.drop_last().subrange(0, k) =~= s.subrange(0, k));
        lemma_scan_error_sticks(s.drop_last(), k, bound);
    } else {
        assert(s.subrange(0, k) =~= s);
    }
}

/// Runs `scan_magnitude` on the characters of `s` from position `start` on.
fn scan_digits(s: &str, start: usize, bound: u32) -> (r: Result<u32, Option<IntErrorKind>>)
    requires
        start <= s@.len(),
        bound >= 10,
    ensures
        match r {
            Ok(v) => scan_magnitude(s@.subrange(start as int, s@.len() as int), bound as int) == Ok::<
                int,
                Option<IntErrorKind>,
            >(v as int),
            Err(e) => scan_magnitude(s@.subrange(start as int, s@.len() as int), bound as int)
                == Err::<int, Option<IntErrorKind>>(e),
        },
{
    let n = s.unicode_len();
    let mut value: u32 = 0;
    let mut i: usize = start;
    while i < n
        invariant
            n == s@.len(),
            start <= i <= n,
            bound >= 10,
            value <= bound,
            scan_magnitude(s@.subrange(start as int, i as int), bound as int) == Ok::<
                int,
                Option<IntErrorKind>,
            >(value as int),
        decreases n - i,
    {
        let c = s.get_char(i);
        let ghost prefix = s@.subrange(start as int, i + 1);
        proof {
            assert(prefix.drop_last() =~= s@.subrange(start as int, i as int));
            assert(prefix.last() == c);
        }
        let code = c as u32;
        if !('0' as u32 <= code && code <= '9' as u32) {
            proof {
                let all = s@.subrange(start as int, n as int);
                assert(prefix =~= all.subrange(0, i + 1 - start));
                lemma_scan_error_sticks(all, i + 1 - start, bound as int);
            }
            return Err(Some(IntErrorKind::InvalidDigit));
        }
        let d = code - '0' as u32;
        if value > (bound - d) / 10 {
            proof {
                assert(value * 10 + d > bound) by (nonlinear_arith)
                    requires
                        value > (bound - d) / 10,
                        d <= bound || d > bound,
                ;
                let all = s@.subrange(start as int, n as int);
                assert(prefix =~= all.subrange(0, i + 1 - start));
                lemma_scan_error_sticks(all, i + 1 - start, bound as int);
            }
            return Err(None);
        }
        proof {
            assert(value * 10 + d <= bound) by (nonlinear_arith)
                requires
                    value <= (bound - d) / 10,
                    d <= 9,
                    value <= bound,
            ;
        }
        value = value * 10 + d;
        i = i + 1;
    }
    proof {
        assert(s@.subrange(start as int, n as int) =~= s@.subrange(start as int, i as int));
    }
    Ok(value)
}

/// Reads `s` as a decimal `i32`: an optional `+` or `-`, then digits only.
pub fn parse_i32(s: &str) -> (r: Result<i32, IntErrorKind>)
    ensures
        r == parse_i32_spec(s@),
{
    let n = s.unicode_len();
    if n == 0 {
        return Err(IntErrorKind::Empty);
    }
    let first = s.get_char(0);
    if (first == '+' || first == '-') && n == 1 {
        return Err(IntErrorKind::InvalidDigit);
    }
    let negative = first == '-';
    let start: usize = if first == '+' || first == '-' { 1 } else { 0 };
    let bound = if negative { NEG_BOUND } else { POS_BOUND };
    proof {
        assert(s@.drop_first() =~= s@.subrange(1, n as int));
        assert(s@ =~= s@.subrange(0, n as int));
        lemma_scan_bounded(s@.subrange(start as int, n as int), bound as int);
    }
    match scan_digits(s, start, bound) {
        Ok(v) => {
            if negative {
                Ok((0i64 - v as i64) as i32)
            } else {
                Ok(v as i32)
            }
        },
        Err(Some(e)) => Err(e),
        Err(None) => {
            if negative {
                Err(IntErrorKind::NegOverflow)
            } else {
                Err(IntErrorKind::PosOverflow)
            }
        },
    }
}

} // verus!
