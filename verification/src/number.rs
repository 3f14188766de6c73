//! Unsigned numbers in decimal notation.

use vstd::prelude::*;

use crate::text::chars_of;

verus! {

/// The character of a decimal digit.
pub open spec fn digit(d: nat) -> char {
    (48 + d) as char
}

/// A number in decimal notation, without leading zeros.
pub open spec fn decimal(n: nat) -> Seq<char>
    decreases n,
{
    if n < 10 {
        seq![digit(n)]
    } else {
        decimal(n / 10).push(digit(n % 10))
    }
}

/// Renders a number in decimal notation.
pub fn to_decimal(n: u64) -> (r: String)
    ensures
        r@ == decimal(n as nat),
    decreases n,
{
    let last: char = (48u8 + (n % 10) as u8) as char;
    if n < 10 {
        let mut s: String = String::new();
        s.push(last);
        assert(s@ == decimal(n as nat));
        s
    } else {
        let mut s: String = to_decimal(n / 10);
        s.push(last);
        s
    }
}

/// Why a text is no number.
#[derive(Clone, Copy, PartialEq, Eq, Structural, Debug)]
pub enum NumberError {
    /// The text is empty.
    Empty,
    /// A character is not a decimal digit.
    InvalidDigit,
    /// The number is above the largest one that is allowed.
    TooLarge,
}

impl NumberError {
    /// The message for this error.
    pub open spec fn text(self) -> Seq<char> {
        match self {
            NumberError::Empty => "cannot parse integer from empty string"@,
            NumberError::InvalidDigit => "invalid digit found in string"@,
            NumberError::TooLarge => "number too large to fit in target type"@,
        }
    }

    /// Renders the message for this error.
    pub fn message(&self) -> (r: String)
        ensures
            r@ == self.text(),
    {
        match self {
            NumberError::Empty => "cannot parse integer from empty string".to_owned(),
            NumberError::InvalidDigit => "invalid digit found in string".to_owned(),
            NumberError::TooLarge => "number too large to fit in target type".to_owned(),
        }
    }
}

/// The value of a run of digits read from the left, or the first thing that is wrong with it.
pub open spec fn digits_value(s: Seq<char>, max: nat) -> Result<nat, NumberError>
    decreases s.len(),
{
    if s.len() == 0 {
        Ok(0)
    } else {
        match digits_value(s.drop_last(), max) {
            Err(e) => Err(e),
            Ok(v) => if !('0' <= s.last() <= '9') {
                Err(NumberError::InvalidDigit)
            } else if v * 10 + (s.last() as nat - 48) > max {
                Err(NumberError::TooLarge)
            } else {
                Ok((v * 10 + (s.last() as nat - 48)) as nat)
            },
        }
    }
}

/// The number that a text stands for: digits, after an optional plus sign.
pub open spec fn number_value(s: Seq<char>, max: nat) -> Result<nat, NumberError> {
    if s.len() == 0 {
        Err(NumberError::Empty)
    } else if s == seq!['+'] {
        Err(NumberError::InvalidDigit)
    } else if s[0] == '+' {
        digits_value(s.drop_first(), max)
    } else {
        digits_value(s, max)
    }
}

proof fn digits_error_stays(s: Seq<char>, i: int, max: nat)
    requires
        0 <= i <= s.len(),
        digits_value(s.take(i), max) is Err,
    ensures
        digits_value(s, max) == digits_value(s.take(i), max),
    decreases s.len(),
{
    if i == s.len() {
        assert(s.take(i) == s);
    } else {
        assert(s.drop_last().take(i) == s.take(i));
        digits_error_stays(s.drop_last(), i, max);
    }
}

/// Reads a number that is at most `max`.
pub fn parse_number(s: &str, max: u64) -> (r: Result<u64, NumberError>)
    ensures
        match number_value(s@, max as nat) {
            Ok(v) => r == Ok::<u64, NumberError>(v as u64) && v <= max,
            Err(e) => r == Err::<u64, NumberError>(e),
        },
{
    let chars = chars_of(s);
    let n: usize = chars.len();
    if n == 0 {
        return Err(NumberError::Empty);
    }
    let start: usize = if chars[0] == '+' {
        if n == 1 {
            assert(s@ == seq!['+']);
            return Err(NumberError::InvalidDigit);
        }
        1
    } else {
        0
    };
    let ghost body = s@.skip(start as int);
    assert(s@ != seq!['+']) by {
        if s@ == seq!['+'] {
            assert(s@.len() == 1 && s@[0] == '+');
        }
    }
    assert(s@.skip(0) == s@);
    assert(s@.skip(1) == s@.drop_first());
    assert(number_value(s@, max as nat) == digits_value(body, max as nat));
    let mut value: u64 = 0;
    for i in start..n
        invariant
            n == chars@.len(),
            chars@ == s@,
            start <= n,
            body == s@.skip(start as int),
            value <= max,
            digits_value(body.take(i - start), max as nat) == Ok::<nat, NumberError>(value as nat),
            number_value(s@, max as nat) == digits_value(body, max as nat),
    {
        let c: char = chars[i];
        let ghost k = i - start;
        assert(body.take(k + 1).drop_last() == body.take(k));
        assert(body.take(k + 1).last() == c);
        if c < '0' || c > '9' {
            proof {
                digits_error_stays(body, k + 1, max as nat);
            }
            return Err(NumberError::InvalidDigit);
        }
        let d: u64 = c as u64 - 48;
        match value.checked_mul(10) {
            None => {
                proof {
                    digits_error_stays(body, k + 1, max as nat);
                }
                return Err(NumberError::TooLarge);
            },
            Some(tens) => {
                if max < d || tens > max - d {
                    proof {
                        digits_error_stays(body, k + 1, max as nat);
                    }
                    return Err(NumberError::TooLarge);
                }
                value = tens + d;
            },
        }
    }
    assert(body.take(n - start) == body);
    Ok(value)
}

/// Reading the decimal notation of a number gives the number back.
pub proof fn decimal_reads_back(n: nat, max: nat)
    requires
        n <= max,
    ensures
        number_value(decimal(n), max) == Ok::<nat, NumberError>(n),
{
    decimal_digits_read_back(n, max);
    decimal_is_digits(n);
    assert(decimal(n)[0] != '+');
}

proof fn decimal_digits_read_back(n: nat, max: nat)
    requires
        n <= max,
    ensures
        digits_value(decimal(n), max) == Ok::<nat, NumberError>(n),
    decreases n,
{
    if n < 10 {
        reveal_with_fuel(digits_value, 2);
        assert(decimal(n).drop_last() == Seq::<char>::empty());
    } else {
        decimal_digits_read_back(n / 10, max);
        assert(decimal(n).drop_last() == decimal(n / 10));
        assert(decimal(n).last() == digit(n % 10));
    }
}

/// Decimal notation is never empty and holds decimal digits only.
pub proof fn decimal_is_digits(n: nat)
    ensures
        decimal(n).len() > 0,
        forall|i: int| 0 <= i < decimal(n).len() ==> '0' <= #[trigger] decimal(n)[i] <= '9',
    decreases n,
{
    if n >= 10 {
        decimal_is_digits(n / 10);
    }
}

/// A number below `10^k` has at most `k` digits.
pub proof fn decimal_width(n: nat, k: nat)
    requires
        k > 0,
        n < vstd::arithmetic::power::pow(10, k),
    ensures
        decimal(n).len() <= k,
    decreases k,
{
    reveal(vstd::arithmetic::power::pow);
    if n >= 10 {
        if k == 1 {
            assert(vstd::arithmetic::power::pow(10, 0) == 1);
        } else {
            decimal_width(n / 10, (k - 1) as nat);
        }
    }
}

/// Decimal notation is written from the left: a number times ten and a digit is the number and the
/// digit behind it. A number that is not zero does not begin with a zero.
pub proof fn decimal_goes_digit_by_digit(n: nat, d: nat)
    requires
        d < 10,
    ensures
        n > 0 ==> decimal(10 * n + d) == decimal(n) + seq![(48 + d) as char],
        decimal(d) == seq![(48 + d) as char],
        n > 0 ==> decimal(n)[0] != '0',
    decreases n,
{
    if n > 0 {
        assert((10 * n + d) / 10 == n);
        assert((10 * n + d) % 10 == d);
        assert(decimal(10 * n + d) =~= decimal(n) + seq![(48 + d) as char]);
        if n >= 10 {
            decimal_goes_digit_by_digit(n / 10, n % 10);
            decimal_is_digits(n / 10);
        }
    }
}

/// Reading a number goes digit by digit: a digit behind a number that was read makes ten times the
/// number and the digit, or is too much. Nothing but digits behind at most one plus sign is a number.
pub proof fn reading_goes_digit_by_digit(s: Seq<char>, d: nat, max: nat)
    requires
        d < 10,
    ensures
        number_value(s, max) matches Ok(v) ==> v <= max && number_value(
            s.push((48 + d) as char),
            max,
        ) == if v * 10 + d <= max {
            Ok::<nat, NumberError>(v * 10 + d)
        } else {
            Err::<nat, NumberError>(NumberError::TooLarge)
        },
        d <= max ==> number_value(seq![(48 + d) as char], max) == Ok::<nat, NumberError>(d),
        number_value(s, max) is Ok ==> s.len() > 0 && forall|i: int|
            0 <= i < s.len() ==> '0' <= #[trigger] s[i] <= '9' || (i == 0 && s[i] == '+' && s.len()
                > 1),
        s.len() == 0 ==> number_value(s, max) == Err::<nat, NumberError>(NumberError::Empty),
{
    let c = (48 + d) as char;
    reveal_with_fuel(digits_value, 2);
    assert(seq![c].drop_last() == Seq::<char>::empty());
    assert(seq![c][0] == c);
    if number_value(s, max) is Ok {
        let t = s.push(c);
        let body = if s[0] == '+' {
            s.drop_first()
        } else {
            s
        };
        digits_are_digits(body, max);
        assert(t[0] == s[0]);
        if s[0] == '+' {
            assert(t.drop_first() == body.push(c));
            assert forall|i: int| 0 <= i < s.len() implies '0' <= #[trigger] s[i] <= '9' || (i == 0
                && s[i] == '+' && s.len() > 1) by {
                if i > 0 {
                    assert(s[i] == body[i - 1]);
                } else if s.len() == 1 {
                    assert(s =~= seq!['+']);
                }
            }
        }
        assert(body.push(c).drop_last() == body);
        assert(t != seq!['+']) by {
            if t == seq!['+'] {
                assert(t.len() == 1);
            }
        }
    }
}

proof fn digits_are_digits(s: Seq<char>, max: nat)
    requires
        digits_value(s, max) is Ok,
    ensures
        s.len() > 0 ==> digits_value(s, max).unwrap() <= max,
        digits_value(s, max).unwrap() <= max,
        forall|i: int| 0 <= i < s.len() ==> '0' <= #[trigger] s[i] <= '9',
    decreases s.len(),
{
    if s.len() > 0 {
        digits_are_digits(s.drop_last(), max);
        assert forall|i: int| 0 <= i < s.len() implies '0' <= #[trigger] s[i] <= '9' by {
            if i < s.len() - 1 {
                assert(s.drop_last()[i] == s[i]);
            }
        }
    }
}

/// What is said of a text that is no number.
pub proof fn refused_numbers_are_told()
    ensures
        NumberError::Empty.text() == "cannot parse integer from empty string"@,
        NumberError::InvalidDigit.text() == "invalid digit found in string"@,
        NumberError::TooLarge.text() == "number too large to fit in target type"@,
{
}

}
