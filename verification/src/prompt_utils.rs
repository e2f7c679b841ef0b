use crate::fake::number::{
    decimal_at_most, decimal_display_text, decimal_le, decimal_parse, parse_decimal, DecimalNumber,
};
use std::ops::{Range, RangeInclusive};
use vstd::prelude::*;

verus! {

/// `RangeInclusive::start`: the lower bound of the range, which is the one
/// it was made with as long as it has not been iterated to exhaustion.
#[verifier::external_body]
fn inclusive_start(range: &RangeInclusive<usize>) -> (r: usize)
    requires
        !range@.exhausted,
    ensures
        r == range@.start,
{
    *range.start()
}

/// `RangeInclusive::end`: the upper bound of the range, which is the one it
/// was made with as long as it has not been iterated to exhaustion.
#[verifier::external_body]
fn inclusive_end(range: &RangeInclusive<usize>) -> (r: usize)
    requires
        !range@.exhausted,
    ensures
        r == range@.end,
{
    *range.end()
}

/// The range `start..end + 1`, which holds the same numbers as
/// `start..=end`; `None` where `end + 1` does not fit in a `usize`.
pub fn inclusive_to_exclusive(range: RangeInclusive<usize>) -> (r: Option<Range<usize>>)
    requires
        !range@.exhausted,
    ensures
        r is None <==> range@.end == usize::MAX,
        r matches Some(e) ==> e.start == range@.start && e.end == range@.end + 1,
{
    let start = inclusive_start(&range);
    let end = inclusive_end(&range);
    match end.checked_add(1) {
        Some(next) => Some(start..next),
        None => None,
    }
}

/// The answer to an entry that is checked before it is accepted.
#[derive(Debug, Clone, PartialEq, Eq)]
pub enum Validation {
    /// The entry is accepted
    Valid,
    /// The entry is refused, for the reason given
    Invalid(String),
}

/// The decimal digit with the value `d`.
pub open spec fn digit_char(d: int) -> char {
    if d == 0 {
        '0'
    } else if d == 1 {
        '1'
    } else if d == 2 {
        '2'
    } else if d == 3 {
        '3'
    } else if d == 4 {
        '4'
    } else if d == 5 {
        '5'
    } else if d == 6 {
        '6'
    } else if d == 7 {
        '7'
    } else if d == 8 {
        '8'
    } else {
        '9'
    }
}

/// The decimal text of a natural number, without leading zeros.
pub open spec fn decimal_text(n: nat) -> Seq<char>
    decreases n,
{
    if n < 10 {
        seq![digit_char(n as int)]
    } else {
        decimal_text(n / 10).push(digit_char((n % 10) as int))
    }
}

fn digit(d: usize) -> (c: char)
    requires
        d < 10,
    ensures
        c == digit_char(d as int),
{
    match d {
        0 => '0',
        1 => '1',
        2 => '2',
        3 => '3',
        4 => '4',
        5 => '5',
        6 => '6',
        7 => '7',
        8 => '8',
        _ => '9',
    }
}

/// Writes the decimal text of `n` at the end of `out`.
fn write_decimal(out: &mut String, n: usize)
    ensures
        final(out)@ == old(out)@ + decimal_text(n as nat),
    decreases n,
{
    if n >= 10 {
        write_decimal(out, n / 10);
    }
    crate::data::key::push_char(out, digit(n % 10));
    assert(final(out)@ =~= old(out)@ + decimal_text(n as nat));
}

/// The decimal text of a number.
pub fn usize_text(n: usize) -> (r: String)
    ensures
        r@ == decimal_text(n as nat),
{
    let mut out = String::new();
    write_decimal(&mut out, n);
    assert(out@ =~= decimal_text(n as nat));
    out
}

/// Whether every character of a text is a decimal digit.
pub open spec fn all_digits(s: Seq<char>) -> bool {
    forall|i: int| 0 <= i < s.len() ==> '0' <= #[trigger] s[i] <= '9'
}

/// The value of a text of decimal digits.
pub open spec fn digits_value(s: Seq<char>) -> nat
    decreases s.len(),
{
    if s.len() == 0 {
        0
    } else {
        digits_value(s.drop_last()) * 10 + (s.last() as nat - '0' as nat) as nat
    }
}

/// The number a text stands for as written for `usize::from_str`: an
/// optional `+` and at least one decimal digit, of a value that fits.
pub open spec fn usize_text_value(s: Seq<char>) -> Option<usize> {
    let digits = if s.len() > 0 && s[0] == '+' {
        s.drop_first()
    } else {
        s
    };
    if digits.len() > 0 && all_digits(digits) && digits_value(digits) <= usize::MAX {
        Some(digits_value(digits) as usize)
    } else {
        None
    }
}

/// The value of a text of digits is at least the value of any of its
/// beginnings.
proof fn lemma_digits_value_prefix(s: Seq<char>, k: int)
    requires
        0 <= k <= s.len(),
        all_digits(s),
    ensures
        digits_value(s) >= digits_value(s.take(k)),
    decreases s.len(),
{
    if k < s.len() {
        let init = s.drop_last();
        assert(init.take(k) =~= s.take(k));
        assert forall|i: int| 0 <= i < init.len() implies '0' <= #[trigger] init[i] <= '9' by {
            assert(init[i] == s[i]);
        }
        lemma_digits_value_prefix(init, k);
    } else {
        assert(s.take(k) =~= s);
    }
}

/// The number written as an optional `+` followed by decimal digits, where
/// it fits in a `usize`, as `usize::from_str` reads it.
fn parse_usize(s: &str) -> (r: Option<usize>)
    ensures
        r == usize_text_value(s@),
{
    let n = s.unicode_len();
    let start: usize = if n > 0 && s.get_char(0) == '+' {
        1
    } else {
        0
    };
    let ghost digits = if s@.len() > 0 && s@[0] == '+' {
        s@.drop_first()
    } else {
        s@
    };
    assert(digits =~= s@.skip(start as int));
    if start == n {
        return None;
    }
    let mut value: usize = 0;
    let mut i: usize = start;
    assert(digits.take(0) =~= Seq::<char>::empty());
    while i < n
        invariant
            n == s@.len(),
            start <= i <= n,
            digits == s@.skip(start as int),
            digits == (if s@.len() > 0 && s@[0] == '+' {
                s@.drop_first()
            } else {
                s@
            }),
            digits.len() == n - start,
            all_digits(digits.take(i - start)),
            value == digits_value(digits.take(i - start)),
        decreases n - i,
    {
        let c = s.get_char(i);
        let ghost k = i - start;
        assert(digits[k] == c);
        if !('0' <= c && c <= '9') {
            assert(!all_digits(digits));
            return None;
        }
        let ghost next = digits.take(k + 1);
        assert(next.drop_last() =~= digits.take(k));
        assert(next.last() == c);
        assert forall|j: int| 0 <= j < next.len() implies '0' <= #[trigger] next[j] <= '9' by {
            if j < k {
                assert(next[j] == digits.take(k)[j]);
            }
        }
        let d = (c as u32 - '0' as u32) as usize;
        let grown = match value.checked_mul(10) {
            Some(v) => v.checked_add(d),
            None => None,
        };
        match grown {
            Some(v) => {
                value = v;
            },
            None => {
                proof {
                    if all_digits(digits) {
                        lemma_digits_value_prefix(digits, k + 1);
                    }
                }
                return None;
            },
        }
        i = i + 1;
    }
    assert(digits.take(n - start) =~= digits);
    Some(value)
}

/// Accepts entries that are numbers from `min` to `max`.
pub struct RangeNumberValidator {
    pub min: usize,
    pub max: usize,
}

/// Why an entry is refused by a validator accepting the numbers from `min`
/// to `max`; `None` where it is accepted.
pub open spec fn range_refusal(input: Seq<char>, min: usize, max: usize) -> Option<Seq<char>> {
    match usize_text_value(input) {
        None => Some("value is not a valid number"@),
        Some(v) => if v < min {
            Some("value cannot be less than "@ + decimal_text(min as nat))
        } else if v > max {
            Some("value cannot be greater than "@ + decimal_text(max as nat))
        } else {
            None
        },
    }
}

/// A range validator accepts an entry exactly when it is a number from
/// `min` to `max`, both bounds included; it refuses a number below `min` as
/// too small and a number above `max`, not below `min`, as too large.
pub proof fn lemma_range_accepts_exactly(input: Seq<char>, min: usize, max: usize)
    ensures
        range_refusal(input, min, max) is None <==> (usize_text_value(input) matches Some(v) && min
            <= v && v <= max),
        (usize_text_value(input) matches Some(v) && v < min) ==> range_refusal(input, min, max)
            == Some("value cannot be less than "@ + decimal_text(min as nat)),
        (usize_text_value(input) matches Some(v) && min <= v && max < v) ==> range_refusal(
            input,
            min,
            max,
        ) == Some("value cannot be greater than "@ + decimal_text(max as nat)),
{
}

/// The reason an answer refuses its entry for, if it refuses it.
pub open spec fn refusal_of(v: Validation) -> Option<Seq<char>> {
    match v {
        Validation::Valid => None,
        Validation::Invalid(m) => Some(m@),
    }
}

/// A refusal: `message` followed by the decimal text of `n`.
fn refusal_with_number(message: &str, n: usize) -> (r: Validation)
    ensures
        refusal_of(r) == Some(message@ + decimal_text(n as nat)),
{
    let mut text = String::from_str(message);
    let number = usize_text(n);
    text.append(number.as_str());
    Validation::Invalid(text)
}

impl RangeNumberValidator {
    /// Refuses an entry that is no number, or a number below `min` or above
    /// `max`, saying why; accepts any other.
    pub fn validate(&self, input: &str) -> (r: Validation)
        ensures
            refusal_of(r) == range_refusal(input@, self.min, self.max),
    {
        let value = match parse_usize(input) {
            Some(v) => v,
            None => {
                let text = String::from_str("value is not a valid number");
                proof {
                    reveal_strlit("value is not a valid number");
                }
                return Validation::Invalid(text);
            },
        };
        if value < self.min {
            return refusal_with_number("value cannot be less than ", self.min);
        }
        if value > self.max {
            return refusal_with_number("value cannot be greater than ", self.max);
        }
        Validation::Valid
    }
}

/// Whether a text holds the character `c`.
fn text_contains(text: &str, c: char) -> (r: bool)
    ensures
        r == text@.contains(c),
{
    let n = text.unicode_len();
    let mut i: usize = 0;
    while i < n
        invariant
            n == text@.len(),
            0 <= i <= n,
            forall|j: int| 0 <= j < i ==> text@[j] != c,
        decreases n - i,
    {
        if text.get_char(i) == c {
            assert(text@[i as int] == c);
            return true;
        }
        i = i + 1;
    }
    false
}

/// An entered decimal number together with whether it was written with a
/// decimal point; `None` where the text is no number.
pub fn read_decimal(text: &str) -> (r: Option<(DecimalNumber, bool)>)
    ensures
        r is Some <==> decimal_parse(text@) is Some,
        r matches Some((d, point)) ==> decimal_parse(text@) == Some((d.digits@, d.scale)) && point
            == text@.contains('.'),
{
    let point = text_contains(text, '.');
    match parse_decimal(text) {
        Some(d) => Some((d, point)),
        None => None,
    }
}

/// Why an entry is refused by a validator accepting the decimal numbers
/// between optional bounds; `None` where it is accepted.
pub open spec fn decimal_refusal(
    input: Seq<char>,
    min: Option<DecimalNumber>,
    max: Option<DecimalNumber>,
) -> Option<Seq<char>> {
    match decimal_parse(input) {
        None => Some("value is not a valid number"@),
        Some(v) => {
            let value = (v.0, v.1 as int);
            if min is Some && !decimal_le(min->0@, value) {
                Some(
                    "value cannot be less than "@ + decimal_display_text(
                        min->0.digits@,
                        min->0.scale,
                    ),
                )
            } else if max is Some && !decimal_le(value, max->0@) {
                Some(
                    "value cannot be greater than "@ + decimal_display_text(
                        max->0.digits@,
                        max->0.scale,
                    ),
                )
            } else {
                None
            }
        },
    }
}

/// A decimal validator accepts an entry exactly when it is a decimal number
/// that is at least its lower bound, where there is one, and at most its
/// upper bound, where there is one, both bounds included.
pub proof fn lemma_decimal_accepts_exactly(
    input: Seq<char>,
    min: Option<DecimalNumber>,
    max: Option<DecimalNumber>,
)
    ensures
        decimal_refusal(input, min, max) is None <==> (decimal_parse(input) matches Some(v) && (min
            matches Some(lo) ==> decimal_le(lo@, (v.0, v.1 as int))) && (max matches Some(hi)
            ==> decimal_le((v.0, v.1 as int), hi@))),
{
}

/// A refusal: `message` followed by the text of the decimal number `d`.
fn refusal_with_decimal(message: &str, d: &DecimalNumber) -> (r: Validation)
    ensures
        refusal_of(r) == Some(message@ + decimal_display_text(d.digits@, d.scale)),
{
    let mut text = String::from_str(message);
    let number = d.display();
    text.append(number.as_str());
    Validation::Invalid(text)
}

/// Accepts entries that are decimal numbers between optional bounds.
pub struct DecimalNumberValidator {
    pub min: Option<DecimalNumber>,
    pub max: Option<DecimalNumber>,
}

impl DecimalNumberValidator {
    /// Refuses an entry that is no number, or a number below `min` or above
    /// `max`, saying why; accepts any other.
    pub fn validate(&self, input: &str) -> (r: Validation)
        ensures
            refusal_of(r) == decimal_refusal(input@, self.min, self.max),
    {
        let value = match parse_decimal(input) {
            Some(v) => v,
            None => {
                let text = String::from_str("value is not a valid number");
                proof {
                    reveal_strlit("value is not a valid number");
                }
                return Validation::Invalid(text);
            },
        };
        if let Some(min) = &self.min {
            if !decimal_at_most(min, &value) {
                return refusal_with_decimal("value cannot be less than ", min);
            }
        }
        if let Some(max) = &self.max {
            if !decimal_at_most(&value, max) {
                return refusal_with_decimal("value cannot be greater than ", max);
            }
        }
        Validation::Valid
    }
}

/// The answer for an entered file path, given whether it names a
/// directory and whether it names a file: a directory or a path naming no
/// file is refused, saying why.
pub fn file_path_validation(is_dir: bool, is_file: bool) -> (r: Validation)
    ensures
        refusal_of(r) == (if is_dir {
            Some("path must be to a file"@)
        } else if !is_file {
            Some("file does not exist"@)
        } else {
            None::<Seq<char>>
        }),
{
    if is_dir {
        return Validation::Invalid(String::from_str("path must be to a file"));
    }
    if !is_file {
        return Validation::Invalid(String::from_str("file does not exist"));
    }
    Validation::Valid
}

} // verus!
