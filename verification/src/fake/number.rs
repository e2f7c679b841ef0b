use crate::data::value::{DataValue, DataValueItem, DataValueNumber, DataValueRef, Scalar};
use crate::fake::{FakeDataError, FakeDataProducer, FakeDataProducerData, FakeDataProducerFactory};
use crate::prompt_utils::{
    all_digits, decimal_text, digit_char, digits_value, refusal_of, usize_text, Validation,
};
use num_bigint::RandBigInt;
use vstd::prelude::*;

verus! {

/// Describes the producer of numbers.
pub struct NumberFakeDataFactory;

impl FakeDataProducerFactory for NumberFakeDataFactory {
    fn name(&self) -> (r: String)
        ensures
            r@ == "Number"@,
    {
        String::from_str("Number")
    }

    fn is_allowed_for(&self, item: &DataValueItem<'_>) -> (r: bool)
        ensures
            r == exists|i: int|
                0 <= i < item.values@.len() && (#[trigger] item.values@[i]@ is Number
                    || item.values@[i]@ is Null),
    {
        item.is_any_number_or_null()
    }
}

/// The digits of an integer text, without its sign.
pub open spec fn magnitude_digits(s: Seq<char>) -> Seq<char> {
    if s.len() > 0 && s[0] == '-' {
        s.drop_first()
    } else {
        s
    }
}

/// The text of an integer: an optional `-` and at least one decimal digit.
pub open spec fn is_int_text(s: Seq<char>) -> bool {
    magnitude_digits(s).len() > 0 && all_digits(magnitude_digits(s))
}

/// The text of an integer as a formatter writes it: no leading zero, and no
/// sign on zero.
pub open spec fn is_canonical_int_text(s: Seq<char>) -> bool {
    &&& is_int_text(s)
    &&& magnitude_digits(s).len() > 1 ==> magnitude_digits(s)[0] != '0'
    &&& s != seq!['-', '0']
}

/// The integer an integer text stands for.
pub open spec fn int_text_value(s: Seq<char>) -> int {
    if s.len() > 0 && s[0] == '-' {
        -(digits_value(s.drop_first()) as int)
    } else {
        digits_value(s) as int
    }
}

/// Ten to the power `k`.
pub open spec fn pow10(k: nat) -> int
    decreases k,
{
    if k == 0 {
        1
    } else {
        10 * pow10((k - 1) as nat)
    }
}

pub proof fn lemma_pow10_positive(k: nat)
    ensures
        pow10(k) >= 1,
    decreases k,
{
    if k > 0 {
        lemma_pow10_positive((k - 1) as nat);
    }
}

/// An integer of any size, kept as its decimal text.
#[derive(Debug, PartialEq, Eq)]
pub struct WholeNumber {
    text: String,
}

impl Clone for WholeNumber {
    fn clone(&self) -> (r: Self)
        ensures
            r == *self,
    {
        proof {
            use_type_invariant(self);
        }
        WholeNumber { text: self.text.clone() }
    }
}

impl View for WholeNumber {
    type V = int;

    closed spec fn view(&self) -> int {
        int_text_value(self.text@)
    }
}

impl WholeNumber {
    #[verifier::type_invariant]
    spec fn wf(&self) -> bool {
        is_int_text(self.text@)
    }

    /// The text the number is kept as.
    pub closed spec fn spec_text(&self) -> Seq<char> {
        self.text@
    }

    /// The text the number is kept as.
    pub fn text(&self) -> (r: &str)
        ensures
            r@ == self.spec_text(),
            is_int_text(r@),
            int_text_value(r@) == self@,
    {
        proof {
            use_type_invariant(self);
        }
        self.text.as_str()
    }

    /// The number written as `text`, where it is the text of an integer.
    pub fn from_text(text: &str) -> (r: Option<WholeNumber>)
        ensures
            r is Some <==> is_int_text(text@),
            r matches Some(w) ==> w.spec_text() == text@ && w@ == int_text_value(text@),
    {
        let n = text.unicode_len();
        if n == 0 {
            return None;
        }
        let start: usize = if text.get_char(0) == '-' {
            1
        } else {
            0
        };
        if start == n {
            assert(magnitude_digits(text@).len() == 0);
            return None;
        }
        let ghost digits = magnitude_digits(text@);
        assert(digits =~= text@.skip(start as int));
        let mut i: usize = start;
        while i < n
            invariant
                n == text@.len(),
                start <= i <= n,
                digits == text@.skip(start as int),
                digits == magnitude_digits(text@),
                forall|j: int| 0 <= j < i - start ==> '0' <= #[trigger] digits[j] <= '9',
            decreases n - i,
        {
            let c = text.get_char(i);
            if !('0' <= c && c <= '9') {
                assert(text@.skip(start as int)[i - start] == text@[i as int]);
                assert(digits[i - start] == c);
                assert(!all_digits(digits));
                return None;
            }
            i = i + 1;
        }
        Some(WholeNumber { text: text.to_owned() })
    }

    /// The number `n`.
    pub fn from_usize(n: usize) -> (r: WholeNumber)
        ensures
            r@ == n,
            r.spec_text() == decimal_text(n as nat),
    {
        let text = usize_text(n);
        proof {
            lemma_decimal_text(n as nat);
        }
        WholeNumber { text }
    }
}

proof fn lemma_digits_value_push(s: Seq<char>, c: char)
    ensures
        digits_value(s.push(c)) == digits_value(s) * 10 + (c as nat - '0' as nat) as nat,
{
    assert(s.push(c).drop_last() =~= s);
}

/// The decimal text of a number is a text of that integer.
proof fn lemma_decimal_text(n: nat)
    ensures
        is_int_text(decimal_text(n)),
        decimal_text(n).len() > 0 && decimal_text(n)[0] != '-',
        int_text_value(decimal_text(n)) == n,
    decreases n,
{
    let t = decimal_text(n);
    if n < 10 {
        assert(t == seq![digit_char(n as int)]);
        assert(t =~= Seq::<char>::empty().push(digit_char(n as int)));
        lemma_digits_value_push(Seq::<char>::empty(), digit_char(n as int));
        assert(magnitude_digits(t) == t);
    } else {
        lemma_decimal_text(n / 10);
        let p = decimal_text(n / 10);
        let d = digit_char((n % 10) as int);
        assert(t == p.push(d));
        lemma_digits_value_push(p, d);
        assert(p[0] != '-');
        assert(t[0] == p[0]);
        assert(magnitude_digits(t) == t);
        assert(magnitude_digits(p) == p);
        assert forall|j: int| 0 <= j < t.len() implies '0' <= #[trigger] t[j] <= '9' by {
            if j < p.len() {
                assert(t[j] == p[j]);
            }
        }
    }
}

/// A decimal number: its digits as an integer, and the number of those
/// digits that stand after the decimal point (a negative scale stands for
/// trailing zeros).
#[derive(Debug, PartialEq, Eq)]
pub struct DecimalNumber {
    pub digits: WholeNumber,
    pub scale: i64,
}

impl Clone for DecimalNumber {
    fn clone(&self) -> (r: Self)
        ensures
            r == *self,
    {
        DecimalNumber { digits: self.digits.clone(), scale: self.scale }
    }
}

impl View for DecimalNumber {
    type V = (int, int);

    open spec fn view(&self) -> (int, int) {
        (self.digits@, self.scale as int)
    }
}

/// The numerator of a decimal number given by its digits and scale, over
/// `decimal_den`.
pub open spec fn decimal_num(d: (int, int)) -> int {
    if d.1 >= 0 {
        d.0
    } else {
        d.0 * pow10((-d.1) as nat)
    }
}

/// The denominator of a decimal number given by its digits and scale.
pub open spec fn decimal_den(d: (int, int)) -> int {
    if d.1 >= 0 {
        pow10(d.1 as nat)
    } else {
        1
    }
}

/// Whether the decimal number `a` is at most `b`.
pub open spec fn decimal_le(a: (int, int), b: (int, int)) -> bool {
    decimal_num(a) * decimal_den(b) <= decimal_num(b) * decimal_den(a)
}

/// The quotient of `n` by `d`, rounded toward zero.
pub open spec fn trunc_div(n: int, d: int) -> int {
    if n >= 0 {
        n / d
    } else {
        -((-n) / d)
    }
}

/// The integer part of a decimal number, rounded toward zero.
pub open spec fn decimal_trunc(d: (int, int)) -> int {
    trunc_div(decimal_num(d), decimal_den(d))
}

/// Whether the decimal number `r` is `d` times the integer `n`.
pub open spec fn is_decimal_product(r: (int, int), d: (int, int), n: int) -> bool {
    decimal_num(r) * decimal_den(d) == decimal_num(d) * n * decimal_den(r)
}

/// What `bigdecimal::BigDecimal`'s `to_string` gives for the decimal number
/// with the digits `digits` and the scale `scale`.
pub uninterp spec fn decimal_display_text(digits: int, scale: i64) -> Seq<char>;

/// What `bigdecimal::BigDecimal::from_str` reads from a text: the digits
/// and scale of the number, where the text is a number.
pub uninterp spec fn decimal_parse(text: Seq<char>) -> Option<(int, i64)>;

/// `num_bigint::BigInt`'s `<=`: whether `a` is at most `b`.
#[verifier::external_body]
fn whole_le(a: &WholeNumber, b: &WholeNumber) -> (r: bool)
    ensures
        r == (a@ <= b@),
{
    a.text.parse::<num_bigint::BigInt>().unwrap_or_default() <= b.text.parse::<num_bigint::BigInt>().unwrap_or_default()
}

/// `num_bigint::BigInt`'s `+`: the sum of `a` and `b`.
#[verifier::external_body]
fn whole_add(a: &WholeNumber, b: &WholeNumber) -> (r: WholeNumber)
    ensures
        r@ == a@ + b@,
{
    let sum = a.text.parse::<num_bigint::BigInt>().unwrap_or_default() + b.text.parse::<num_bigint::BigInt>().unwrap_or_default();
    WholeNumber { text: sum.to_string() }
}

/// `num_bigint::BigInt::pow` on ten: ten to the power `k`.
#[verifier::external_body]
fn ten_to_the(k: u32) -> (r: WholeNumber)
    ensures
        r@ == pow10(k as nat),
{
    WholeNumber { text: num_bigint::BigInt::from(10u32).pow(k).to_string() }
}

/// `num_bigint::RandBigInt::gen_bigint_range`: a random integer from `low`
/// up to but not including `high`, written as a formatter writes it.
#[verifier::external_body]
fn random_whole(rng: &mut rand::rngs::StdRng, low: &WholeNumber, high: &WholeNumber) -> (r:
    WholeNumber)
    requires
        low@ < high@,
    ensures
        low@ <= r@ < high@,
        is_canonical_int_text(r.spec_text()),
{
    let low = low.text.parse::<num_bigint::BigInt>().unwrap_or_default();
    let high = high.text.parse::<num_bigint::BigInt>().unwrap_or_default();
    WholeNumber { text: rng.gen_bigint_range(&low, &high).to_string() }
}

/// `bigdecimal::BigDecimal`'s `<=`: whether `a` is at most `b`, by value.
#[verifier::external_body]
pub(crate) fn decimal_at_most(a: &DecimalNumber, b: &DecimalNumber) -> (r: bool)
    ensures
        r == decimal_le(a@, b@),
{
    bigdecimal::BigDecimal::new(a.digits.text.parse::<num_bigint::BigInt>().unwrap_or_default(), a.scale) <= bigdecimal::BigDecimal::new(b.digits.text.parse::<num_bigint::BigInt>().unwrap_or_default(), b.scale)
}

/// `bigdecimal::BigDecimal`'s `*` by an integer: the decimal number `d`
/// times `n`. The source shows that the product keeps the scale of `d`,
/// or has scale zero where it is `n` itself (when `d` is one), and that the
/// product of zero has zero digits.
#[verifier::external_body]
fn decimal_times(d: &DecimalNumber, n: &WholeNumber) -> (r: DecimalNumber)
    ensures
        is_decimal_product(r@, d@, n@),
        r.scale == d.scale || r.scale == 0,
        d.digits@ == 0 ==> r.digits@ == 0,
{
    let value = bigdecimal::BigDecimal::new(d.digits.text.parse::<num_bigint::BigInt>().unwrap_or_default(), d.scale);
    let factor = bigdecimal::BigDecimal::from(n.text.parse::<num_bigint::BigInt>().unwrap_or_default());
    let (digits, scale) = (value * factor).into_bigint_and_scale();
    DecimalNumber { digits: WholeNumber { text: digits.to_string() }, scale }
}

/// Whether the decimal crate can take the integer part of `d`: `d` is zero
/// or its scale is above the least `i64` (rescaling to zero from that scale
/// overflows).
pub open spec fn whole_part_fits(d: DecimalNumber) -> bool {
    d.digits@ == 0 || d.scale > i64::MIN
}

/// `num_bigint::ToBigInt::to_bigint` on a decimal number: its integer part,
/// rounded toward zero; the decimal crate always gives one. It rescales the
/// number to scale zero, which overflows for a nonzero number of the least
/// scale, so such a number is left out.
#[verifier::external_body]
fn decimal_to_whole(d: &DecimalNumber) -> (r: Option<WholeNumber>)
    requires
        whole_part_fits(*d),
    ensures
        r is Some,
        r matches Some(w) ==> w@ == decimal_trunc(d@),
{
    match num_bigint::ToBigInt::to_bigint(&bigdecimal::BigDecimal::new(d.digits.text.parse::<num_bigint::BigInt>().unwrap_or_default(), d.scale)) {
        Some(v) => Some(WholeNumber { text: v.to_string() }),
        None => None,
    }
}

/// `bigdecimal::BigDecimal`'s `to_string` on the number with the digits
/// `digits` and the scale `scale`.
#[verifier::external_body]
fn decimal_display(digits: &WholeNumber, scale: i64) -> (r: String)
    ensures
        r@ == decimal_display_text(digits@, scale),
{
    bigdecimal::BigDecimal::new(digits.text.parse::<num_bigint::BigInt>().unwrap_or_default(), scale).to_string()
}

/// `bigdecimal::BigDecimal::from_str`: the decimal number written as
/// `text`, where it is one.
#[verifier::external_body]
pub(crate) fn parse_decimal(text: &str) -> (r: Option<DecimalNumber>)
    ensures
        r is Some <==> decimal_parse(text@) is Some,
        r matches Some(d) ==> decimal_parse(text@) == Some((d.digits@, d.scale)),
{
    match text.parse::<bigdecimal::BigDecimal>() {
        Ok(v) => {
            let (digits, scale) = v.into_bigint_and_scale();
            Some(DecimalNumber { digits: WholeNumber { text: digits.to_string() }, scale })
        },
        Err(_) => None,
    }
}

proof fn lemma_den_positive(d: (int, int))
    ensures
        decimal_den(d) >= 1,
{
    if d.1 >= 0 {
        lemma_pow10_positive(d.1 as nat);
    }
}

/// For non-negative numerators, floor division is monotone in the quotient.
proof fn lemma_floor_div_monotone(n1: int, d1: int, n2: int, d2: int)
    requires
        n1 >= 0,
        n2 >= 0,
        d1 > 0,
        d2 > 0,
        n1 * d2 <= n2 * d1,
    ensures
        n1 / d1 <= n2 / d2,
{
    let q = n1 / d1;
    assert(q * d1 <= n1) by (nonlinear_arith)
        requires
            d1 > 0,
            n1 >= 0,
            q == n1 / d1,
    ;
    assert(q * d2 <= n2) by (nonlinear_arith)
        requires
            q * d1 <= n1,
            n1 * d2 <= n2 * d1,
            d1 > 0,
            d2 > 0,
    ;
    assert(q <= n2 / d2) by (nonlinear_arith)
        requires
            q * d2 <= n2,
            d2 > 0,
            n2 >= 0,
    ;
}

/// Rounding toward zero is monotone: a smaller quotient does not round to
/// a greater integer.
pub proof fn lemma_trunc_div_monotone(n1: int, d1: int, n2: int, d2: int)
    requires
        d1 > 0,
        d2 > 0,
        n1 * d2 <= n2 * d1,
    ensures
        trunc_div(n1, d1) <= trunc_div(n2, d2),
{
    if n1 >= 0 && n2 >= 0 {
        lemma_floor_div_monotone(n1, d1, n2, d2);
    } else if n1 < 0 && n2 >= 0 {
        assert((-n1) / d1 >= 0) by (nonlinear_arith)
            requires
                -n1 > 0,
                d1 > 0,
        ;
        assert(n2 / d2 >= 0) by (nonlinear_arith)
            requires
                n2 >= 0,
                d2 > 0,
        ;
    } else if n1 >= 0 && n2 < 0 {
        assert(n1 * d2 >= 0) by (nonlinear_arith)
            requires
                n1 >= 0,
                d2 > 0,
        ;
        assert(n2 * d1 < 0) by (nonlinear_arith)
            requires
                n2 < 0,
                d1 > 0,
        ;
    } else {
        assert((-n2) * d1 <= (-n1) * d2) by (nonlinear_arith)
            requires
                n1 * d2 <= n2 * d1,
        ;
        lemma_floor_div_monotone(-n2, d2, -n1, d1);
    }
}

/// Rearranges `x * da == a * n * dx` into a comparison over the common
/// denominator of two products.
proof fn lemma_cross_scale(x: int, da: int, a: int, n: int, dx: int, dy: int, db: int)
    requires
        x * da == a * n * dx,
    ensures
        x * dy * (da * db) == a * db * (n * dx * dy),
{
    assert(x * dy * (da * db) == (x * da) * (dy * db)) by (nonlinear_arith);
    assert((x * da) * (dy * db) == (a * n * dx) * (dy * db));
    assert((a * n * dx) * (dy * db) == a * db * (n * dx * dy)) by (nonlinear_arith);
}

/// Multiplying both of two ordered decimal numbers by the same positive
/// integer keeps them ordered, and so keeps their integer parts ordered.
pub proof fn lemma_scaled_trunc_monotone(
    lo: (int, int),
    hi: (int, int),
    n: int,
    plo: (int, int),
    phi: (int, int),
)
    requires
        decimal_le(lo, hi),
        n >= 1,
        is_decimal_product(plo, lo, n),
        is_decimal_product(phi, hi, n),
    ensures
        decimal_trunc(plo) <= decimal_trunc(phi),
{
    lemma_den_positive(lo);
    lemma_den_positive(hi);
    lemma_den_positive(plo);
    lemma_den_positive(phi);
    let a = decimal_num(lo);
    let b = decimal_num(hi);
    let da = decimal_den(lo);
    let db = decimal_den(hi);
    let x = decimal_num(plo);
    let y = decimal_num(phi);
    let dx = decimal_den(plo);
    let dy = decimal_den(phi);
    let k = n * dx * dy;
    assert(k > 0) by (nonlinear_arith)
        requires
            n >= 1,
            dx >= 1,
            dy >= 1,
            k == n * dx * dy,
    ;
    assert(a * db * k <= b * da * k) by (nonlinear_arith)
        requires
            a * db <= b * da,
            k > 0,
    ;
    lemma_cross_scale(x, da, a, n, dx, dy, db);
    lemma_cross_scale(y, db, b, n, dy, dx, da);
    assert(n * dy * dx == k) by (nonlinear_arith)
        requires
            k == n * dx * dy,
    ;
    assert(y * dx * (db * da) == y * dx * (da * db)) by (nonlinear_arith);
    assert(x * dy <= y * dx) by (nonlinear_arith)
        requires
            x * dy * (da * db) <= y * dx * (da * db),
            da >= 1,
            db >= 1,
    ;
    lemma_trunc_div_monotone(x, dx, y, dy);
}

/// Two fractions of the same value have the same integer part.
proof fn lemma_trunc_div_same(n1: int, d1: int, n2: int, d2: int)
    requires
        d1 > 0,
        d2 > 0,
        n1 * d2 == n2 * d1,
    ensures
        trunc_div(n1, d1) == trunc_div(n2, d2),
{
    lemma_trunc_div_monotone(n1, d1, n2, d2);
    lemma_trunc_div_monotone(n2, d2, n1, d1);
}

/// The integer part, rounded toward zero, of the decimal number `d` times
/// ten to the power `k`.
pub open spec fn scaled_trunc(d: (int, int), k: nat) -> int {
    trunc_div(decimal_num(d) * pow10(k), decimal_den(d))
}

proof fn lemma_scaled_trunc_of_product(d: (int, int), k: nat, p: (int, int))
    requires
        is_decimal_product(p, d, pow10(k)),
    ensures
        decimal_trunc(p) == scaled_trunc(d, k),
{
    lemma_den_positive(d);
    lemma_den_positive(p);
    let x = decimal_num(p);
    let dx = decimal_den(p);
    let y = decimal_num(d) * pow10(k);
    let dy = decimal_den(d);
    assert(x * dy == y * dx) by (nonlinear_arith)
        requires
            x * dy == decimal_num(d) * pow10(k) * dx,
            y == decimal_num(d) * pow10(k),
    ;
    lemma_trunc_div_same(x, dx, y, dy);
}

/// Whether the number is zero.
fn is_zero_whole(w: &WholeNumber) -> (r: bool)
    ensures
        r == (w@ == 0),
{
    let zero = WholeNumber::from_usize(0);
    whole_le(w, &zero) && whole_le(&zero, w)
}

/// A random integer from `min` to `max`, both included, written as a
/// formatter writes it.
pub fn random_bigint_between(rng: &mut rand::rngs::StdRng, min: &WholeNumber, max: &WholeNumber) -> (r:
    WholeNumber)
    requires
        min@ <= max@,
    ensures
        min@ <= r@ <= max@,
        is_canonical_int_text(r.spec_text()),
{
    let one = WholeNumber::from_usize(1);
    let upper = whole_add(max, &one);
    random_whole(rng, min, &upper)
}

/// A random decimal number of scale `scale` from `min` to `max`: its
/// digits are a random integer from the integer part of `min` times ten to
/// the power `scale` to that of `max` times it (the power taken as the
/// scale cast to `u32`); an error where `min` is greater than `max`, or
/// where the integer part of a bound times that power cannot be taken.
pub fn random_decimal_between(
    rng: &mut rand::rngs::StdRng,
    min: &DecimalNumber,
    max: &DecimalNumber,
    scale: i64,
) -> (r: Result<DecimalNumber, FakeDataError>)
    ensures
        r is Ok <==> decimal_le(min@, max@) && whole_part_fits(*min) && whole_part_fits(*max),
        r matches Err(e) ==> (e == FakeDataError::MinGreaterThanMax <==> !decimal_le(min@, max@)),
        r matches Err(e) ==> e == FakeDataError::MinGreaterThanMax || e
            == FakeDataError::ScaledConversion,
        r matches Ok(v) ==> v.scale == scale && scaled_trunc(min@, (scale as u32) as nat) <= v.digits@
            <= scaled_trunc(max@, (scale as u32) as nat) && is_canonical_int_text(
            v.digits.spec_text(),
        ),
{
    if !decimal_at_most(min, max) {
        return Err(FakeDataError::MinGreaterThanMax);
    }
    if (min.scale == i64::MIN && !is_zero_whole(&min.digits)) || (max.scale == i64::MIN
        && !is_zero_whole(&max.digits)) {
        return Err(FakeDataError::ScaledConversion);
    }
    let k = scale as u32;
    let factor = ten_to_the(k);
    proof {
        lemma_pow10_positive(k as nat);
    }
    let low_scaled = decimal_times(min, &factor);
    let high_scaled = decimal_times(max, &factor);
    let low = match decimal_to_whole(&low_scaled) {
        Some(w) => w,
        None => {
            return Err(FakeDataError::ScaledConversion);
        },
    };
    let high = match decimal_to_whole(&high_scaled) {
        Some(w) => w,
        None => {
            return Err(FakeDataError::ScaledConversion);
        },
    };
    proof {
        lemma_scaled_trunc_monotone(min@, max@, pow10(k as nat), low_scaled@, high_scaled@);
        lemma_scaled_trunc_of_product(min@, k as nat, low_scaled@);
        lemma_scaled_trunc_of_product(max@, k as nat, high_scaled@);
    }
    let one = WholeNumber::from_usize(1);
    let upper = whole_add(&high, &one);
    let digits = random_whole(rng, &low, &upper);
    Ok(DecimalNumber { digits, scale })
}

/// The range a random number is drawn from: whole numbers, or decimal
/// numbers of a given scale.
#[derive(Debug, Clone)]
pub enum NumberRange {
    Integer { min: WholeNumber, max: WholeNumber },
    Decimal { min: DecimalNumber, max: DecimalNumber, scale: i64 },
}

/// Whether the lower bound of a range is at most its upper bound.
pub open spec fn range_ordered(range: NumberRange) -> bool {
    match range {
        NumberRange::Integer { min, max } => min@ <= max@,
        NumberRange::Decimal { min, max, .. } => decimal_le(min@, max@),
    }
}

/// Whether the decimal crate can scale the bounds of a range to integers.
pub open spec fn range_fits(range: NumberRange) -> bool {
    match range {
        NumberRange::Integer { .. } => true,
        NumberRange::Decimal { min, max, .. } => whole_part_fits(min) && whole_part_fits(max),
    }
}

/// Whether a random number of the range may fail with `e`: a lower bound
/// greater than the upper bound, or bounds of a decimal range that cannot be
/// scaled to integers.
pub open spec fn range_failure(range: NumberRange, e: FakeDataError) -> bool {
    ||| e == FakeDataError::MinGreaterThanMax && !range_ordered(range)
    ||| e == FakeDataError::ScaledConversion && range_ordered(range) && !range_fits(range)
}

/// Whether `text` is a number that a range may give: an integer of the
/// range written as a formatter writes it, or the text of a decimal number
/// of the range's scale whose digits lie between the scaled bounds.
pub open spec fn is_fake_number(range: NumberRange, text: Seq<char>) -> bool {
    match range {
        NumberRange::Integer { min, max } => is_canonical_int_text(text) && min@ <= int_text_value(
            text,
        ) <= max@,
        NumberRange::Decimal { min, max, scale } => exists|m: int|
            scaled_trunc(min@, (scale as u32) as nat) <= m <= scaled_trunc(
                max@,
                (scale as u32) as nat,
            ) && text == decimal_display_text(m, scale),
    }
}

impl DecimalNumber {
    /// The text of the number as the decimal crate writes it.
    pub fn display(&self) -> (r: String)
        ensures
            r@ == decimal_display_text(self.digits@, self.scale),
    {
        decimal_display(&self.digits, self.scale)
    }
}

/// The larger of two scales.
pub open spec fn max_scale(a: i64, b: i64) -> i64 {
    if a >= b {
        a
    } else {
        b
    }
}

impl NumberRange {
    /// The range between two entered bounds: decimal numbers of the larger
    /// of their scales when either was written with a decimal point, else
    /// the whole numbers between their integer parts.
    pub fn from_bounds(
        min: DecimalNumber,
        min_has_point: bool,
        max: DecimalNumber,
        max_has_point: bool,
    ) -> (r: NumberRange)
        requires
            !(min_has_point || max_has_point) ==> whole_part_fits(min) && whole_part_fits(max),
        ensures
            min_has_point || max_has_point ==> r == (NumberRange::Decimal {
                min,
                max,
                scale: max_scale(min.scale, max.scale),
            }),
            !(min_has_point || max_has_point) ==> (r matches NumberRange::Integer { min: lo, max: hi }
                && lo@ == decimal_trunc(min@) && hi@ == decimal_trunc(max@)),
    {
        if min_has_point || max_has_point {
            let scale = if min.scale >= max.scale {
                min.scale
            } else {
                max.scale
            };
            NumberRange::Decimal { min, max, scale }
        } else {
            let lo = match decimal_to_whole(&min) {
                Some(w) => w,
                None => WholeNumber::from_usize(0),
            };
            let hi = match decimal_to_whole(&max) {
                Some(w) => w,
                None => WholeNumber::from_usize(0),
            };
            NumberRange::Integer { min: lo, max: hi }
        }
    }

    /// A random number of the range, as number text; an error where the
    /// lower bound is greater than the upper bound, or where the bounds of a
    /// decimal range cannot be scaled to integers.
    pub fn fake(&self, rng: &mut rand::rngs::StdRng) -> (r: Result<DataValueNumber, FakeDataError>)
        ensures
            r is Ok <==> range_ordered(*self) && range_fits(*self),
            r matches Err(e) ==> (e == FakeDataError::MinGreaterThanMax <==> !range_ordered(*self)),
            r matches Err(e) ==> e == FakeDataError::MinGreaterThanMax || e
                == FakeDataError::ScaledConversion,
            r matches Ok(n) ==> is_fake_number(*self, n@),
    {
        match self {
            NumberRange::Integer { min, max } => {
                if !whole_le(min, max) {
                    return Err(FakeDataError::MinGreaterThanMax);
                }
                let value = random_bigint_between(rng, min, max);
                let text = value.text();
                Ok(DataValueNumber::new(text.to_owned()))
            },
            NumberRange::Decimal { min, max, scale } => {
                match random_decimal_between(rng, min, max, *scale) {
                    Ok(value) => {
                        let text = value.display();
                        Ok(DataValueNumber::new(text))
                    },
                    Err(e) => Err(e),
                }
            },
        }
    }
}

/// Producer of random numbers of a range.
#[derive(Debug)]
pub struct NumberFakeData {
    pub range: NumberRange,
}

impl FakeDataProducer for NumberFakeData {
    open spec fn fails_with(&self, lists: Map<Seq<char>, Seq<Seq<char>>>, original: Scalar, e: FakeDataError) -> bool {
        range_failure(self.range, e)
    }

    open spec fn produces(&self, lists: Map<Seq<char>, Seq<Seq<char>>>, original: Scalar, value: Scalar) -> bool {
        value matches Scalar::Number(t) && is_fake_number(self.range, t)
    }

    fn produce_fake(
        &self,
        original_value: DataValueRef<'_>,
        data: &mut FakeDataProducerData,
    ) -> (r: Result<DataValue, FakeDataError>)
        ensures
            r is Ok <==> range_ordered(self.range) && range_fits(self.range),
            r matches Err(e) ==> (e == FakeDataError::MinGreaterThanMax <==> !range_ordered(
                self.range,
            )),
            r matches Err(e) ==> e == FakeDataError::MinGreaterThanMax || e
                == FakeDataError::ScaledConversion,
            r matches Ok(v) ==> v@ matches Scalar::Number(t) && is_fake_number(self.range, t),
    {
        match self.range.fake(&mut data.rng_08) {
            Ok(n) => Ok(DataValue::Number(n)),
            Err(e) => Err(e),
        }
    }

    fn is_allowed_output(&self) -> (r: bool)
        ensures
            !r,
    {
        false
    }
}

} // verus!
