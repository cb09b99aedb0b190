//! Coordinate parsing: a column letter `A`..`J` (either case)
//! followed by a 1-based row number `1`..`10`, mapped to zero-based
//! `(column, row)` indices.

use vstd::prelude::*;
use vstd::string::StrSliceExecFns;

verus! {

/// Why a coordinate string was rejected.
#[derive(Clone, Copy, PartialEq, Eq, Structural, Debug)]
pub enum ParseError {
    /// Fewer than two characters.
    TooShort,
    /// The first character is not a letter `A`..`J` in either case.
    LetterOutOfRange,
    /// What follows the letter is not a decimal number.
    BadNumber,
    /// The row number is not in `1`..`10`.
    NumberOutOfRange,
}

/// Code point of `c` with an ASCII lowercase letter folded to its
/// uppercase form.
pub open spec fn upper_val(c: char) -> int {
    if 'a' as int <= c as int && c as int <= 'z' as int {
        c as int - 32
    } else {
        c as int
    }
}

pub open spec fn is_digit(c: char) -> bool {
    '0' as int <= c as int && c as int <= '9' as int
}

pub open spec fn digit_val(c: char) -> int {
    c as int - '0' as int
}

/// `s` is one or more decimal digits.
pub open spec fn all_digits(s: Seq<char>) -> bool {
    s.len() >= 1 && forall|k: int| 0 <= k < s.len() ==> is_digit(#[trigger] s[k])
}

/// The number the digit string `s` denotes.
pub open spec fn digits_val(s: Seq<char>) -> int
    decreases s.len(),
{
    if s.len() == 0 {
        0
    } else {
        digits_val(s.drop_last()) * 10 + digit_val(s.last())
    }
}

/// The digits of a number token: an optional leading `+` sign is
/// dropped.
pub open spec fn num_body(s: Seq<char>) -> Seq<char> {
    if s.len() >= 1 && s[0] == '+' {
        s.skip(1)
    } else {
        s
    }
}

/// `s` is a decimal number a `usize` can hold, as `str::parse`
/// accepts it: an optional `+`, then digits, no larger than the type's
/// maximum.
pub open spec fn parses_as_number(s: Seq<char>) -> bool {
    all_digits(num_body(s)) && digits_val(num_body(s)) <= usize::MAX
}

pub open spec fn number_value(s: Seq<char>) -> int {
    digits_val(num_body(s))
}

/// What parsing a coordinate string returns: each rejection tied to
/// exactly the inputs that cause it, and a valid
/// `<letter><number>` mapped to zero-based column and row.
pub open spec fn parse_spec(s: Seq<char>) -> Result<(usize, usize), ParseError> {
    if s.len() < 2 {
        Err(ParseError::TooShort)
    } else {
        let u = upper_val(s[0]);
        if u < 'A' as int || u > 'J' as int {
            Err(ParseError::LetterOutOfRange)
        } else {
            let rest = s.skip(1);
            if !parses_as_number(rest) {
                Err(ParseError::BadNumber)
            } else if number_value(rest) < 1 || number_value(rest) > 10 {
                Err(ParseError::NumberOutOfRange)
            } else {
                Ok((((u - 'A' as int) as usize), ((number_value(rest) - 1) as usize)))
            }
        }
    }
}

proof fn lemma_digits_val_nonneg(s: Seq<char>)
    requires
        forall|k: int| 0 <= k < s.len() ==> is_digit(#[trigger] s[k]),
    ensures
        digits_val(s) >= 0,
    decreases s.len(),
{
    if s.len() > 0 {
        lemma_digits_val_nonneg(s.drop_last());
    }
}

/// A digit string denotes at least what any of its prefixes denotes.
proof fn lemma_digits_val_prefix(s: Seq<char>, k: int)
    requires
        forall|m: int| 0 <= m < s.len() ==> is_digit(#[trigger] s[m]),
        0 <= k <= s.len(),
    ensures
        digits_val(s.take(k)) <= digits_val(s),
    decreases s.len() - k,
{
    if k < s.len() {
        assert(s.take(k + 1).drop_last() =~= s.take(k));
        assert(s.take(k + 1).last() == s[k]);
        lemma_digits_val_nonneg(s.take(k));
        lemma_digits_val_prefix(s, k + 1);
    } else {
        assert(s.take(k) =~= s);
    }
}

/// Parses a coordinate such as `A5` or `j10`: the column letter
/// `A`..`J` (case-insensitive), then the row number `1`..`10`,
/// mapped to the zero-based `(column, row)` pair.
#[verifier::loop_isolation(false)]
pub fn parse_input(input: &str) -> (r: Result<(usize, usize), ParseError>)
    ensures
        r == parse_spec(input@),
{
    let n = input.unicode_len();
    if n < 2 {
        return Err(ParseError::TooShort);
    }
    let c0 = input.get_char(0);
    let cu = c0 as u32;
    let u: u32 = if cu >= 'a' as u32 && cu <= 'z' as u32 {
        cu - 32
    } else {
        cu
    };
    assert(u as int == upper_val(input@[0]));
    if u < 'A' as u32 || u > 'J' as u32 {
        return Err(ParseError::LetterOutOfRange);
    }
    let col = (u - 'A' as u32) as usize;
    let ghost rest = input@.skip(1);
    let c1 = input.get_char(1);
    let start: usize = if c1 == '+' {
        2
    } else {
        1
    };
    let ghost body = input@.skip(start as int);
    proof {
        assert(body =~= num_body(rest));
    }
    if start >= n {
        assert(!all_digits(body));
        return Err(ParseError::BadNumber);
    }
    let mut acc: usize = 0;
    let mut i: usize = start;
    while i < n
        invariant
            start <= i <= n,
            forall|k: int| 0 <= k < i - start ==> is_digit(#[trigger] body[k]),
            acc as int == digits_val(body.take(i - start)),
        decreases n - i,
    {
        let c = input.get_char(i);
        let d32 = c as u32;
        if d32 < '0' as u32 || d32 > '9' as u32 {
            assert(!is_digit(body[i - start]));
            return Err(ParseError::BadNumber);
        }
        let d = (d32 - '0' as u32) as usize;
        proof {
            assert(body.take(i - start + 1).drop_last() =~= body.take(i - start));
            assert(body.take(i - start + 1).last() == body[i - start]);
        }
        if acc > (usize::MAX - d) / 10 {
            proof {
                if all_digits(body) {
                    assert(digits_val(body.take(i - start + 1)) > usize::MAX);
                    lemma_digits_val_prefix(body, i - start + 1);
                }
            }
            return Err(ParseError::BadNumber);
        }
        acc = acc * 10 + d;
        i = i + 1;
    }
    proof {
        assert(body.take(n - start) =~= body);
    }
    if acc < 1 || acc > 10 {
        return Err(ParseError::NumberOutOfRange);
    }
    Ok((col, acc - 1))
}

} // verus!
