//! Arbitrary-precision decimal numbers.
//!
//! A `Decimal` holds the two's-complement bytes of an integer mantissa and a
//! scale, so that its value is `mantissa * 10^(-scale)`. The arithmetic is
//! done by the `bigdecimal` crate; every call goes through one small trusted
//! function whose contract states the result over the value of the operands.

use vstd::prelude::*;
use bigdecimal::num_bigint::BigInt;
use bigdecimal::BigDecimal;
use bigdecimal::RoundingMode;
use std::str::FromStr;

verus! {

/// `10^n`.
pub open spec fn pow10(n: nat) -> nat
    decreases n,
{
    if n == 0 {
        1
    } else {
        10 * pow10((n - 1) as nat)
    }
}

/// `256^n`.
pub open spec fn pow256(n: nat) -> nat
    decreases n,
{
    if n == 0 {
        1
    } else {
        256 * pow256((n - 1) as nat)
    }
}

/// The unsigned little-endian value of a byte string.
pub open spec fn bytes_unsigned(b: Seq<u8>) -> nat
    decreases b.len(),
{
    if b.len() == 0 {
        0
    } else {
        b[0] as nat + 256 * bytes_unsigned(b.drop_first())
    }
}

/// The two's-complement little-endian value of a byte string (the empty
/// string is zero).
pub open spec fn bytes_signed(b: Seq<u8>) -> int {
    if b.len() == 0 {
        0
    } else if b.last() >= 128 {
        bytes_unsigned(b) - pow256(b.len())
    } else {
        bytes_unsigned(b) as int
    }
}

/// A decimal value `mantissa * 10^(-scale)`. The values that `normalize`
/// produces are canonical: zero is `(0, 0)` and a nonzero mantissa has no
/// trailing decimal zero, so two canonical values are equal exactly when the
/// numbers they stand for are equal.
pub struct DecValue {
    pub mantissa: int,
    pub scale: int,
}

/// The canonical form of `m * 10^(-s)`.
pub open spec fn normalize(m: int, s: int) -> DecValue
    decreases (if m < 0 { -m } else { m }),
{
    if m == 0 {
        DecValue { mantissa: 0, scale: 0 }
    } else if m % 10 == 0 {
        proof {
            assert(m / 10 * 10 == m);
        }
        normalize(m / 10, s - 1)
    } else {
        DecValue { mantissa: m, scale: s }
    }
}

/// The decimal `n`.
pub open spec fn dec_int(n: int) -> DecValue {
    normalize(n, 0)
}

impl DecValue {
    /// The mantissa of this value written at scale `s >= self.scale`.
    pub open spec fn at_scale(self, s: int) -> int {
        self.mantissa * pow10((s - self.scale) as nat)
    }

    pub open spec fn max_scale(self, other: DecValue) -> int {
        if self.scale >= other.scale {
            self.scale
        } else {
            other.scale
        }
    }

    pub open spec fn add(self, other: DecValue) -> DecValue {
        let s = self.max_scale(other);
        normalize(self.at_scale(s) + other.at_scale(s), s)
    }

    pub open spec fn neg(self) -> DecValue {
        normalize(-self.mantissa, self.scale)
    }

    pub open spec fn sub(self, other: DecValue) -> DecValue {
        self.add(other.neg())
    }

    pub open spec fn mul(self, other: DecValue) -> DecValue {
        normalize(self.mantissa * other.mantissa, self.scale + other.scale)
    }

    /// `self < other`.
    pub open spec fn lt(self, other: DecValue) -> bool {
        let s = self.max_scale(other);
        self.at_scale(s) < other.at_scale(s)
    }

    pub open spec fn is_zero(self) -> bool {
        self.mantissa == 0
    }

    pub open spec fn is_positive(self) -> bool {
        self.mantissa > 0
    }

    /// Rounded to two decimal places, halves away from zero.
    pub open spec fn round2(self) -> DecValue {
        if self.scale <= 2 {
            normalize(self.at_scale(2), 2)
        } else {
            let d = pow10((self.scale - 2) as nat) as int;
            let a = if self.mantissa < 0 { -self.mantissa } else { self.mantissa };
            let q = a / d;
            let r = a % d;
            let q2 = if 2 * r >= d { q + 1 } else { q };
            normalize(if self.mantissa < 0 { -q2 } else { q2 }, 2)
        }
    }
}

/// `|x|`.
pub open spec fn abs(x: int) -> nat {
    if x < 0 {
        (-x) as nat
    } else {
        x as nat
    }
}

/// The number of decimal digits of `n` (one for zero).
pub open spec fn num_digits(n: nat) -> nat
    decreases n,
{
    if n < 10 {
        1
    } else {
        1 + num_digits(n / 10)
    }
}

/// The integer and the scale that `bigdecimal` reads from the decimal string
/// `s` (its representation: `123.40` is `(12340, 2)`), or `None` where it
/// refuses the string.
pub uninterp spec fn parsed_decimal(s: Seq<char>) -> Option<(int, int)>;

/// The representation `(integer, scale)` of the quotient that `bigdecimal`'s
/// division computes for the representations `num / den`: exact where the
/// expansion ends within about 100 digits, else cut and rounded there.
pub uninterp spec fn decimal_quotient(num: (int, int), den: (int, int)) -> (int, int);

/// The decimal a representation stands for.
pub open spec fn rep_value(r: (int, int)) -> DecValue {
    normalize(r.0, r.1)
}

/// A representation of one that `bigdecimal`'s multiplication recognizes
/// without work (`1`, `1.0`, ... up to 38 decimal places); it then hands the
/// other operand back unchanged.
pub open spec fn is_quick_one(r: (int, int)) -> bool {
    0 <= r.1 <= 38 && r.0 == pow10(r.1 as nat)
}

/// The representation of a product as `bigdecimal` builds it: an operand
/// that is a quick one gives the other back, else the integers are
/// multiplied and the scales added.
pub open spec fn rep_mul(a: (int, int), b: (int, int)) -> (int, int) {
    if is_quick_one(a) {
        b
    } else if is_quick_one(b) {
        a
    } else {
        (a.0 * b.0, a.1 + b.1)
    }
}

/// The scales of a product fit an `i64` where `bigdecimal` adds them.
pub open spec fn mul_fits(a: (int, int), b: (int, int)) -> bool {
    is_quick_one(a) || is_quick_one(b) || i64::MIN <= a.1 + b.1 <= i64::MAX
}

/// The largest scale, either way, of a decimal of the ledger (`2^59`): the
/// scales that sums, products of three amounts and divisions build from such
/// decimals then stay within `i64`.
pub open spec fn ledger_scale() -> int {
    0x0800_0000_0000_0000
}

/// The most digits of a decimal of the ledger (`2^59`, more than any
/// machine's memory holds).
pub open spec fn ledger_digits() -> nat {
    0x0800_0000_0000_0000
}

/// A representation `(integer, scale)` within the ledger's bounds.
pub open spec fn rep_in_range(r: (int, int)) -> bool {
    &&& -ledger_scale() <= r.1 <= ledger_scale()
    &&& num_digits(abs(r.0)) <= ledger_digits()
}

/// An arbitrary-precision decimal: two's-complement little-endian mantissa
/// bytes and a scale; its value is `mantissa * 10^(-scale)`.
#[derive(Clone, Debug)]
pub struct Decimal {
    pub mantissa: Vec<u8>,
    pub scale: i64,
}

impl View for Decimal {
    type V = DecValue;

    open spec fn view(&self) -> DecValue {
        normalize(bytes_signed(self.mantissa@), self.scale as int)
    }
}

impl Decimal {
    /// The integer of the representation.
    pub open spec fn int_val(&self) -> int {
        bytes_signed(self.mantissa@)
    }

    /// The representation: integer and scale.
    pub open spec fn rep(&self) -> (int, int) {
        (self.int_val(), self.scale as int)
    }

    /// The number of digits of the integer.
    pub open spec fn digit_count(&self) -> nat {
        num_digits(abs(self.int_val()))
    }

    /// The scale lies within the ledger's bounds.
    pub open spec fn small_scale(&self) -> bool {
        -ledger_scale() <= self.scale <= ledger_scale()
    }
}

/// The representation of a sum as `bigdecimal` builds it: both integers
/// written at the larger scale and added.
pub open spec fn rep_add(a: (int, int), b: (int, int)) -> (int, int) {
    let s = if a.1 >= b.1 { a.1 } else { b.1 };
    (a.0 * pow10((s - a.1) as nat) + b.0 * pow10((s - b.1) as nat), s)
}

/// The representation of a difference as `bigdecimal` builds it: a zero
/// subtrahend leaves the minuend, a zero minuend gives the negated
/// subtrahend, else both integers are written at the larger scale and
/// subtracted.
pub open spec fn rep_sub(a: (int, int), b: (int, int)) -> (int, int) {
    if b.0 == 0 {
        a
    } else if a.0 == 0 {
        (-b.0, b.1)
    } else {
        rep_add(a, (-b.0, b.1))
    }
}

/// The scales and digit counts for which `bigdecimal`'s division, with its
/// trailing-zero stripping, stays within `i64` scales.
pub open spec fn div_fits(a: Decimal, b: Decimal) -> bool {
    &&& -0x2000_0000_0000_0000 <= a.scale <= 0x2000_0000_0000_0000
    &&& -0x2000_0000_0000_0000 <= b.scale <= 0x2000_0000_0000_0000
    &&& a.digit_count() <= 0x0800_0000_0000_0000
    &&& b.digit_count() <= 0x0800_0000_0000_0000
}

/// The decimal that `bigdecimal`'s `from_str` reads from `s` (the result is
/// named, not stated: the accepted grammar takes pages).
#[verifier::external_body]
fn big_parse(s: &str) -> (r: Option<Decimal>)
    ensures
        r matches Some(d) ==> parsed_decimal(s@) == Some(d.rep()),
        r is None ==> parsed_decimal(s@) is None,
{
    match BigDecimal::from_str(s) {
        Ok(x) => {
            let (m, e) = x.into_bigint_and_exponent();
            Some(Decimal { mantissa: m.to_signed_bytes_le(), scale: e })
        },
        Err(_) => None,
    }
}

/// `bigdecimal`'s conversion from `i64`: the integer at scale zero.
#[verifier::external_body]
fn big_from_i64(n: i64) -> (r: Decimal)
    ensures
        r@ == dec_int(n as int),
        r.rep() == (n as int, 0int),
{
    let (m, e) = BigDecimal::from(n).into_bigint_and_exponent();
    Decimal { mantissa: m.to_signed_bytes_le(), scale: e }
}

/// `bigdecimal`'s `Add`: the exact sum, with both integers written at the
/// larger scale.
#[verifier::external_body]
fn big_add(a: &Decimal, b: &Decimal) -> (r: Decimal)
    ensures
        r@ == a@.add(b@),
        r.rep() == rep_add(a.rep(), b.rep()),
{
    let x = BigDecimal::new(BigInt::from_signed_bytes_le(&a.mantissa), a.scale);
    let y = BigDecimal::new(BigInt::from_signed_bytes_le(&b.mantissa), b.scale);
    let (m, e) = (x + y).into_bigint_and_exponent();
    Decimal { mantissa: m.to_signed_bytes_le(), scale: e }
}

/// `bigdecimal`'s `Sub`: the exact difference. A zero subtrahend gives the
/// minuend back, a zero minuend the negated subtrahend; otherwise both
/// integers are written at the larger scale and subtracted.
#[verifier::external_body]
fn big_sub(a: &Decimal, b: &Decimal) -> (r: Decimal)
    ensures
        r@ == a@.sub(b@),
        r.rep() == rep_sub(a.rep(), b.rep()),
{
    let x = BigDecimal::new(BigInt::from_signed_bytes_le(&a.mantissa), a.scale);
    let y = BigDecimal::new(BigInt::from_signed_bytes_le(&b.mantissa), b.scale);
    let (m, e) = (x - y).into_bigint_and_exponent();
    Decimal { mantissa: m.to_signed_bytes_le(), scale: e }
}

/// `bigdecimal`'s `Mul` on owned operands: a quick one gives the other
/// operand back; otherwise the integers are multiplied and the scales added
/// in `i64`, so their sum must fit.
#[verifier::external_body]
fn big_mul(a: &Decimal, b: &Decimal) -> (r: Decimal)
    requires
        mul_fits(a.rep(), b.rep()),
    ensures
        r.rep() == rep_mul(a.rep(), b.rep()),
{
    let x = BigDecimal::new(BigInt::from_signed_bytes_le(&a.mantissa), a.scale);
    let y = BigDecimal::new(BigInt::from_signed_bytes_le(&b.mantissa), b.scale);
    let (m, e) = (x * y).into_bigint_and_exponent();
    Decimal { mantissa: m.to_signed_bytes_le(), scale: e }
}

/// `bigdecimal`'s `Neg`: the negated integer at the same scale.
#[verifier::external_body]
fn big_neg(a: &Decimal) -> (r: Decimal)
    ensures
        r@ == a@.neg(),
        r.rep() == (-a.int_val(), a.scale as int),
{
    let x = BigDecimal::new(BigInt::from_signed_bytes_le(&a.mantissa), a.scale);
    let (m, e) = (-x).into_bigint_and_exponent();
    Decimal { mantissa: m.to_signed_bytes_le(), scale: e }
}

/// `bigdecimal`'s `Div`, which panics on a zero divisor. The quotient's
/// representation is named, not stated (the digit loop takes pages); where
/// the exact quotient has at most 100 digits (the crate's precision as built
/// by default; a build-time setting could change it), it is that quotient.
/// The scales are worked on in `i64`; `div_fits` keeps them in range, and the
/// quotient's scale then stays within the stated bound.
#[verifier::external_body]
fn big_div(a: &Decimal, b: &Decimal) -> (r: Decimal)
    requires
        !b@.is_zero(),
        div_fits(*a, *b),
    ensures
        r.rep() == decimal_quotient(a.rep(), b.rep()),
        forall|q: DecValue|
            is_normal(q) && #[trigger] q.mul(b@) == a@ && num_digits(abs(q.mantissa)) <= 100
                ==> r@ == q,
        -0x5000_0000_0000_0100 <= r.scale <= 0x5000_0000_0000_0100,
{
    let x = BigDecimal::new(BigInt::from_signed_bytes_le(&a.mantissa), a.scale);
    let y = BigDecimal::new(BigInt::from_signed_bytes_le(&b.mantissa), b.scale);
    let (m, e) = (x / y).into_bigint_and_exponent();
    Decimal { mantissa: m.to_signed_bytes_le(), scale: e }
}

/// `bigdecimal`'s `with_scale_round(2, RoundingMode::HalfUp)`: the value
/// rounded to two decimal places, halves away from zero, at scale two. It
/// computes `2 - scale` in `i64`, hence the lower bound on the scale.
#[verifier::external_body]
fn big_round2(a: &Decimal) -> (r: Decimal)
    requires
        a.scale >= -0x6000_0000_0000_0000,
    ensures
        r@ == a@.round2(),
        r.scale == 2,
{
    let x = BigDecimal::new(BigInt::from_signed_bytes_le(&a.mantissa), a.scale);
    let (m, e) = x.with_scale_round(2, RoundingMode::HalfUp).into_bigint_and_exponent();
    Decimal { mantissa: m.to_signed_bytes_le(), scale: e }
}

/// `bigdecimal`'s `digits`: the number of decimal digits of the integer.
#[verifier::external_body]
fn big_digits(a: &Decimal) -> (r: u64)
    ensures
        r == a.digit_count(),
{
    BigDecimal::new(BigInt::from_signed_bytes_le(&a.mantissa), a.scale).digits()
}

/// `bigdecimal`'s `is_zero`.
#[verifier::external_body]
fn big_is_zero(a: &Decimal) -> (r: bool)
    ensures
        r == a@.is_zero(),
{
    bigdecimal::Zero::is_zero(&BigDecimal::new(BigInt::from_signed_bytes_le(&a.mantissa), a.scale))
}

/// `bigdecimal`'s `<`, which compares values.
#[verifier::external_body]
fn big_lt(a: &Decimal, b: &Decimal) -> (r: bool)
    ensures
        r == a@.lt(b@),
{
    let x = BigDecimal::new(BigInt::from_signed_bytes_le(&a.mantissa), a.scale);
    let y = BigDecimal::new(BigInt::from_signed_bytes_le(&b.mantissa), b.scale);
    x < y
}

/// `bigdecimal`'s `==`, which compares values.
#[verifier::external_body]
fn big_eq(a: &Decimal, b: &Decimal) -> (r: bool)
    ensures
        r == (a@ == b@),
{
    let x = BigDecimal::new(BigInt::from_signed_bytes_le(&a.mantissa), a.scale);
    let y = BigDecimal::new(BigInt::from_signed_bytes_le(&b.mantissa), b.scale);
    x == y
}

/// A string of the ledger that is not a decimal.
#[derive(Clone, Copy, Debug, PartialEq, Eq, Structural)]
pub struct InvalidDecimal;

/// The decimal that `s` spells; `s` is assumed to parse.
pub open spec fn parsed(s: Seq<char>) -> DecValue {
    normalize(parsed_decimal(s).unwrap().0, parsed_decimal(s).unwrap().1)
}

/// `bigdecimal` reads `s` as a decimal.
pub open spec fn parses(s: Seq<char>) -> bool {
    parsed_decimal(s) is Some
}

/// An optional decimal string parses where it is there.
pub open spec fn parses_opt(s: Option<String>) -> bool {
    s matches Some(x) ==> parses(x@)
}

/// Whatever `bigdecimal` reads from `s` lies within the ledger's bounds
/// (`rep_in_range`), so that the arithmetic on it keeps its scales within
/// `i64`.
pub open spec fn in_range(s: Seq<char>) -> bool {
    parsed_decimal(s) matches Some(r) ==> rep_in_range(r)
}

/// An optional decimal string is within range where it is there.
pub open spec fn in_range_opt(s: Option<String>) -> bool {
    s matches Some(x) ==> in_range(x@)
}

/// The decimal that an optional string spells, zero where it is absent.
pub open spec fn parsed_or_zero(s: Option<String>) -> DecValue {
    match s {
        Some(x) => parsed(x@),
        None => dec_int(0),
    }
}

/// The representation that an optional string is read as, `(0, 0)` where
/// it is absent.
pub open spec fn parsed_rep_or_zero(s: Option<String>) -> (int, int) {
    match s {
        Some(x) => parsed_decimal(x@).unwrap(),
        None => (0, 0),
    }
}

/// Reads a decimal string as `bigdecimal` does, or fails with
/// `InvalidDecimal`.
pub fn parse_required(s: &String) -> (r: Result<Decimal, InvalidDecimal>)
    ensures
        r is Ok <==> parses(s@),
        r matches Ok(d) ==> d@ == parsed(s@) && d.rep() == parsed_decimal(s@).unwrap(),
{
    match Decimal::parse(s.as_str()) {
        Some(d) => Ok(d),
        None => Err(InvalidDecimal),
    }
}

/// Reads an optional decimal string; an absent one is zero.
pub fn parse_or_zero(s: &Option<String>) -> (r: Result<Decimal, InvalidDecimal>)
    ensures
        r is Ok <==> parses_opt(*s),
        r matches Ok(d) ==> d@ == parsed_or_zero(*s) && d.rep() == parsed_rep_or_zero(*s),
{
    match s {
        Some(x) => parse_required(x),
        None => Ok(Decimal::zero()),
    }
}

/// Whether `s` is a decimal string.
pub fn is_decimal(s: &String) -> (r: bool)
    ensures
        r == parses(s@),
{
    parse_required(s).is_ok()
}

/// Whether an optional string is a decimal string where it is there.
pub fn is_decimal_opt(s: &Option<String>) -> (r: bool)
    ensures
        r == parses_opt(*s),
{
    match s {
        Some(x) => is_decimal(x),
        None => true,
    }
}

/// Whether whatever `s` reads as lies within the ledger's bounds
/// (`in_range`).
pub fn is_within_range(s: &String) -> (r: bool)
    ensures
        r == in_range(s@),
{
    match Decimal::parse(s.as_str()) {
        Some(d) => d.is_in_range(),
        None => true,
    }
}

/// Whether an optional string is within range where it is there.
pub fn is_within_range_opt(s: &Option<String>) -> (r: bool)
    ensures
        r == in_range_opt(*s),
{
    match s {
        Some(x) => is_within_range(x),
        None => true,
    }
}

impl Decimal {
    /// Zero, at scale zero.
    pub fn zero() -> (r: Decimal)
        ensures
            r@ == dec_int(0),
            r.rep() == (0int, 0int),
    {
        Decimal { mantissa: Vec::new(), scale: 0 }
    }

    /// A copy of this decimal.
    pub fn copy(&self) -> (r: Decimal)
        ensures
            r@ == self@,
            r.mantissa@ == self.mantissa@,
            r.scale == self.scale,
    {
        Decimal { mantissa: self.mantissa.clone(), scale: self.scale }
    }

    /// The integer `n`, at scale zero.
    pub fn from_i64(n: i64) -> (r: Decimal)
        ensures
            r@ == dec_int(n as int),
            r.rep() == (n as int, 0int),
    {
        big_from_i64(n)
    }

    /// Reads a decimal string as `bigdecimal` does; `None` where it is not
    /// one.
    pub fn parse(s: &str) -> (r: Option<Decimal>)
        ensures
            r matches Some(d) ==> parsed_decimal(s@) == Some(d.rep()),
            r is None ==> parsed_decimal(s@) is None,
    {
        big_parse(s)
    }

    /// The number of decimal digits of the integer.
    pub fn digits(&self) -> (r: u64)
        ensures
            r == self.digit_count(),
    {
        big_digits(self)
    }

    /// Whether the scale and the digit count lie within the ledger's
    /// bounds.
    pub fn is_in_range(&self) -> (r: bool)
        ensures
            r == rep_in_range(self.rep()),
    {
        -0x0800_0000_0000_0000 <= self.scale && self.scale <= 0x0800_0000_0000_0000 && self.digits()
            <= 0x0800_0000_0000_0000
    }

    /// Whether the scale lies within the ledger's bounds.
    pub fn has_small_scale(&self) -> (r: bool)
        ensures
            r == self.small_scale(),
    {
        -0x0800_0000_0000_0000 <= self.scale && self.scale <= 0x0800_0000_0000_0000
    }

    /// Whether `self / other` stays within the scales that division
    /// handles.
    pub fn can_divide(&self, other: &Decimal) -> (r: bool)
        ensures
            r == div_fits(*self, *other),
    {
        -0x2000_0000_0000_0000 <= self.scale && self.scale <= 0x2000_0000_0000_0000
            && -0x2000_0000_0000_0000 <= other.scale && other.scale <= 0x2000_0000_0000_0000
            && self.digits() <= 0x0800_0000_0000_0000 && other.digits() <= 0x0800_0000_0000_0000
    }

    /// The exact sum, at the larger scale.
    pub fn add(&self, other: &Decimal) -> (r: Decimal)
        ensures
            r@ == self@.add(other@),
            r.rep() == rep_add(self.rep(), other.rep()),
    {
        big_add(self, other)
    }

    /// The exact difference (see `rep_sub` for its representation), at the
    /// scale of one of the operands.
    pub fn sub(&self, other: &Decimal) -> (r: Decimal)
        ensures
            r@ == self@.sub(other@),
            r.rep() == rep_sub(self.rep(), other.rep()),
            r.scale == self.scale || r.scale == other.scale,
    {
        big_sub(self, other)
    }

    /// The exact product: a quick one gives the other operand back, else the
    /// integers are multiplied and the scales added (their sum must then fit
    /// an `i64`).
    pub fn mul(&self, other: &Decimal) -> (r: Decimal)
        requires
            mul_fits(self.rep(), other.rep()),
        ensures
            r@ == self@.mul(other@),
            r.rep() == rep_mul(self.rep(), other.rep()),
    {
        let r = big_mul(self, other);
        proof {
            lemma_rep_mul_value(self.rep(), other.rep());
        }
        r
    }

    /// The negation, at the same scale.
    pub fn neg(&self) -> (r: Decimal)
        ensures
            r@ == self@.neg(),
            r.rep() == (-self.int_val(), self.scale as int),
    {
        big_neg(self)
    }

    /// The quotient, to about 100 significant digits; exact where the exact
    /// quotient has at most 100 digits.
    pub fn div(&self, other: &Decimal) -> (r: Decimal)
        requires
            !other@.is_zero(),
            div_fits(*self, *other),
        ensures
            r.rep() == decimal_quotient(self.rep(), other.rep()),
            r@ == rep_value(decimal_quotient(self.rep(), other.rep())),
            forall|q: DecValue|
                is_normal(q) && #[trigger] q.mul(other@) == self@ && num_digits(abs(q.mantissa)) <= 100
                    ==> r@ == q,
            -0x5000_0000_0000_0100 <= r.scale <= 0x5000_0000_0000_0100,
    {
        big_div(self, other)
    }

    /// Rounded to two decimal places, halves away from zero, at scale two.
    pub fn round2(&self) -> (r: Decimal)
        requires
            self.scale >= -0x6000_0000_0000_0000,
        ensures
            r@ == self@.round2(),
            r.scale == 2,
    {
        big_round2(self)
    }

    pub fn is_zero(&self) -> (r: bool)
        ensures
            r == self@.is_zero(),
            r == (self@ == dec_int(0)),
    {
        proof {
            lemma_normalize_zero(bytes_signed(self.mantissa@), self.scale as int);
        }
        big_is_zero(self)
    }

    pub fn is_positive(&self) -> (r: bool)
        ensures
            r == self@.is_positive(),
    {
        let z = Decimal::zero();
        let r = big_lt(&z, self);
        proof {
            lemma_lt_zero(self@);
        }
        r
    }

    /// `self < other`, by value.
    pub fn lt(&self, other: &Decimal) -> (r: bool)
        ensures
            r == self@.lt(other@),
    {
        big_lt(self, other)
    }

    /// Equality of values.
    pub fn eq_value(&self, other: &Decimal) -> (r: bool)
        ensures
            r == (self@ == other@),
    {
        big_eq(self, other)
    }
}

/// Zero is less than `a` exactly when `a`'s canonical mantissa is positive.
pub proof fn lemma_lt_zero(a: DecValue)
    ensures
        dec_int(0).lt(a) <==> a.is_positive(),
{
    let s = dec_int(0).max_scale(a);
    assert(dec_int(0) == DecValue { mantissa: 0, scale: 0 });
    lemma_pow10_positive((s - a.scale) as nat);
    assert(a.at_scale(s) == a.mantissa * pow10((s - a.scale) as nat));
    if a.mantissa > 0 {
        assert(a.mantissa * pow10((s - a.scale) as nat) > 0) by (nonlinear_arith)
            requires a.mantissa > 0, pow10((s - a.scale) as nat) > 0;
    } else {
        assert(a.mantissa * pow10((s - a.scale) as nat) <= 0) by (nonlinear_arith)
            requires a.mantissa <= 0, pow10((s - a.scale) as nat) > 0;
    }
}

/// `d` is canonical: zero is `(0, 0)`, any other mantissa has no trailing
/// decimal zero.
pub open spec fn is_normal(d: DecValue) -> bool {
    (d.mantissa == 0 && d.scale == 0) || d.mantissa % 10 != 0
}

/// `10^(a + b) == 10^a * 10^b`.
pub proof fn lemma_pow10_add(a: nat, b: nat)
    ensures
        pow10(a + b) == pow10(a) * pow10(b),
    decreases a,
{
    if a > 0 {
        let a1 = (a - 1) as nat;
        lemma_pow10_add(a1, b);
        assert(a + b == (a1 + b) + 1);
        assert(pow10(a + b) == 10 * pow10(a1 + b));
        assert(pow10(a) == 10 * pow10(a1));
        let x = pow10(a1);
        let y = pow10(b);
        assert(10 * (x * y) == (10 * x) * y) by (nonlinear_arith);
    } else {
        assert(pow10(0) == 1);
        assert(a + b == b);
    }
}

/// `normalize(m, s)` is canonical, and `m * 10^(-s)` written at its scale:
/// `m` is its mantissa times `10^(s - scale)`.
pub proof fn lemma_normalize(m: int, s: int)
    ensures
        is_normal(normalize(m, s)),
        m == 0 ==> normalize(m, s) == (DecValue { mantissa: 0, scale: 0 }),
        m != 0 ==> normalize(m, s).scale <= s && m == normalize(m, s).mantissa * pow10(
            (s - normalize(m, s).scale) as nat,
        ),
    decreases (if m < 0 { -m } else { m }),
{
    if m != 0 && m % 10 == 0 {
        assert(m / 10 * 10 == m);
        assert(m / 10 != 0);
        lemma_normalize(m / 10, s - 1);
        let r = normalize(m / 10, s - 1);
        assert(normalize(m, s) == r);
        let k = (s - 1 - r.scale) as nat;
        assert((s - r.scale) as nat == k + 1);
        assert(pow10(k + 1) == 10 * pow10(k));
        assert(m / 10 == r.mantissa * pow10(k));
        assert(m == r.mantissa * (10 * pow10(k))) by (nonlinear_arith)
            requires
                m / 10 == r.mantissa * pow10(k),
                m / 10 * 10 == m,
        ;
        assert(pow10((s - r.scale) as nat) == 10 * pow10(k));
        assert(m == r.mantissa * pow10((s - r.scale) as nat));
        assert(r.scale <= s);
        assert(normalize(m, s).scale <= s && m == normalize(m, s).mantissa * pow10(
            (s - normalize(m, s).scale) as nat));
    } else if m != 0 {
        assert(normalize(m, s) == DecValue { mantissa: m, scale: s });
        assert((s - s) as nat == 0);
        assert(pow10(0) == 1);
        assert(m == m * pow10(0));
        assert(normalize(m, s).scale <= s && m == normalize(m, s).mantissa * pow10(
            (s - normalize(m, s).scale) as nat));
    }
}

/// The value of a canonical form, at any scale `t` at least `s` and zero:
/// that of `m * 10^(-s)`.
pub proof fn lemma_normalize_at(m: int, s: int, t: int)
    requires
        t >= s,
        t >= 0,
    ensures
        normalize(m, s).at_scale(t) == m * pow10((t - s) as nat),
{
    lemma_normalize(m, s);
    let r = normalize(m, s);
    if m != 0 {
        let a = (s - r.scale) as nat;
        let b = (t - s) as nat;
        lemma_pow10_add(a, b);
        assert((t - r.scale) as nat == a + b);
        assert(r.mantissa * pow10(a + b) == (r.mantissa * pow10(a)) * pow10(b)) by (nonlinear_arith)
            requires
                pow10(a + b) == pow10(a) * pow10(b),
        ;
    }
}

/// `d` written at scale `t`, then at a larger scale `t + k`.
pub proof fn lemma_at_scale_shift(d: DecValue, t: int, k: nat)
    requires
        t >= d.scale,
    ensures
        d.at_scale(t + k) == d.at_scale(t) * pow10(k),
{
    let a = (t - d.scale) as nat;
    lemma_pow10_add(a, k);
    assert((t + k - d.scale) as nat == a + k);
    assert(d.mantissa * pow10(a + k) == (d.mantissa * pow10(a)) * pow10(k)) by (nonlinear_arith)
        requires
            pow10(a + k) == pow10(a) * pow10(k),
    ;
}

/// Two canonical values that agree at a common scale are equal.
pub proof fn lemma_normal_unique(a: DecValue, b: DecValue, t: int)
    requires
        is_normal(a),
        is_normal(b),
        t >= a.scale,
        t >= b.scale,
        t >= 0,
        a.at_scale(t) == b.at_scale(t),
    ensures
        a == b,
{
    lemma_pow10_positive((t - a.scale) as nat);
    lemma_pow10_positive((t - b.scale) as nat);
    if a.mantissa == 0 {
        assert(b.mantissa * pow10((t - b.scale) as nat) == 0);
        assert(b.mantissa == 0) by (nonlinear_arith)
            requires
                b.mantissa * pow10((t - b.scale) as nat) == 0,
                pow10((t - b.scale) as nat) > 0,
        ;
    } else if b.mantissa == 0 {
        assert(a.mantissa * pow10((t - a.scale) as nat) == 0);
        assert(a.mantissa == 0) by (nonlinear_arith)
            requires
                a.mantissa * pow10((t - a.scale) as nat) == 0,
                pow10((t - a.scale) as nat) > 0,
        ;
    } else if a.scale < b.scale {
        let k = (b.scale - a.scale) as nat;
        lemma_at_scale_shift(a, b.scale, (t - b.scale) as nat);
        lemma_at_scale_shift(b, b.scale, (t - b.scale) as nat);
        let p = pow10((t - b.scale) as nat);
        lemma_pow10_positive((t - b.scale) as nat);
        assert(a.at_scale(b.scale) == b.at_scale(b.scale)) by (nonlinear_arith)
            requires
                a.at_scale(b.scale) * p == b.at_scale(b.scale) * p,
                p > 0,
        ;
        assert((b.scale - b.scale) as nat == 0);
        assert(pow10(0) == 1);
        assert(b.at_scale(b.scale) == b.mantissa * pow10(0));
        assert(b.mantissa * 1 == b.mantissa);
        assert(b.at_scale(b.scale) == b.mantissa);
        assert(pow10(k) == 10 * pow10((k - 1) as nat));
        assert(b.mantissa == a.mantissa * (10 * pow10((k - 1) as nat)));
        let q = a.mantissa * pow10((k - 1) as nat);
        assert(b.mantissa == q * 10) by (nonlinear_arith)
            requires
                b.mantissa == a.mantissa * (10 * pow10((k - 1) as nat)),
                q == a.mantissa * pow10((k - 1) as nat),
        ;
        vstd::arithmetic::div_mod::lemma_mod_multiples_basic(q, 10);
    } else if b.scale < a.scale {
        let k = (a.scale - b.scale) as nat;
        assert((a.scale - a.scale) as nat == 0);
        assert(pow10(0) == 1);
        assert(a.mantissa * 1 == a.mantissa);
        assert(a.at_scale(a.scale) == a.mantissa);
        lemma_at_scale_shift(a, a.scale, (t - a.scale) as nat);
        lemma_at_scale_shift(b, a.scale, (t - a.scale) as nat);
        let p = pow10((t - a.scale) as nat);
        lemma_pow10_positive((t - a.scale) as nat);
        assert(a.at_scale(a.scale) == b.at_scale(a.scale)) by (nonlinear_arith)
            requires
                a.at_scale(a.scale) * p == b.at_scale(a.scale) * p,
                p > 0,
        ;
        assert((a.scale - a.scale) as nat == 0);
        assert(pow10(0) == 1);
        assert(a.at_scale(a.scale) == a.mantissa * pow10(0));
        assert(a.mantissa * 1 == a.mantissa);
        assert(a.at_scale(a.scale) == a.mantissa);
        assert(pow10(k) == 10 * pow10((k - 1) as nat));
        assert(a.mantissa == b.mantissa * (10 * pow10((k - 1) as nat)));
        let q = b.mantissa * pow10((k - 1) as nat);
        assert(a.mantissa == q * 10) by (nonlinear_arith)
            requires
                a.mantissa == b.mantissa * (10 * pow10((k - 1) as nat)),
                q == b.mantissa * pow10((k - 1) as nat),
        ;
        vstd::arithmetic::div_mod::lemma_mod_multiples_basic(q, 10);
    } else {
        let p = pow10((t - a.scale) as nat);
        assert(a.mantissa == b.mantissa) by (nonlinear_arith)
            requires
                a.mantissa * p == b.mantissa * p,
                p > 0,
        ;
    }
}

/// The value of a sum at a scale `t` no smaller than its terms' and zero is
/// the sum of their values there.
pub proof fn lemma_add_at(a: DecValue, b: DecValue, t: int)
    requires
        t >= a.scale,
        t >= b.scale,
        t >= 0,
    ensures
        a.add(b).at_scale(t) == a.at_scale(t) + b.at_scale(t),
{
    let s = a.max_scale(b);
    let k = (t - s) as nat;
    lemma_normalize_at(a.at_scale(s) + b.at_scale(s), s, t);
    lemma_at_scale_shift(a, s, k);
    lemma_at_scale_shift(b, s, k);
    assert((a.at_scale(s) + b.at_scale(s)) * pow10(k) == a.at_scale(s) * pow10(k) + b.at_scale(s) * pow10(k))
        by (nonlinear_arith);
}

/// The scale of a canonical sum is at most the larger scale of its terms, or
/// zero.
pub proof fn lemma_add_scale(a: DecValue, b: DecValue)
    ensures
        a.add(b).scale <= a.max_scale(b) || a.add(b).scale == 0,
        is_normal(a.add(b)),
{
    let s = a.max_scale(b);
    lemma_normalize(a.at_scale(s) + b.at_scale(s), s);
}

/// Addition is commutative.
pub proof fn law_add_commutative(a: DecValue, b: DecValue)
    ensures
        a.add(b) == b.add(a),
{
}

/// Addition is associative (on canonical values, as views are).
pub proof fn law_add_associative(a: DecValue, b: DecValue, c: DecValue)
    requires
        is_normal(a),
        is_normal(b),
        is_normal(c),
    ensures
        a.add(b).add(c) == a.add(b.add(c)),
{
    let t0 = if a.scale >= b.scale { a.scale } else { b.scale };
    let t1 = if t0 >= c.scale { t0 } else { c.scale };
    let t = if t1 >= 0 { t1 } else { 0 };
    lemma_add_scale(a, b);
    lemma_add_scale(b, c);
    lemma_add_scale(a.add(b), c);
    lemma_add_scale(a, b.add(c));
    lemma_add_at(a, b, t);
    lemma_add_at(b, c, t);
    lemma_add_at(a.add(b), c, t);
    lemma_add_at(a, b.add(c), t);
    lemma_normal_unique(a.add(b).add(c), a.add(b.add(c)), t);
}

/// Zero is neutral for addition (on canonical values, as views are).
pub proof fn law_add_zero(a: DecValue)
    requires
        is_normal(a),
    ensures
        dec_int(0).add(a) == a,
        a.add(dec_int(0)) == a,
{
    lemma_normalize(0, 0);
    let z = dec_int(0);
    let t = if a.scale >= 0 { a.scale } else { 0 };
    lemma_add_scale(z, a);
    lemma_add_at(z, a, t);
    lemma_normal_unique(z.add(a), a, t);
}

/// Views are canonical.
pub proof fn lemma_view_normal(d: Decimal)
    ensures
        is_normal(d@),
{
    lemma_normalize(bytes_signed(d.mantissa@), d.scale as int);
}

/// A canonical form with a zero mantissa is zero.
pub proof fn lemma_normalize_zero(m: int, s: int)
    ensures
        normalize(m, s).mantissa == 0 ==> normalize(m, s) == dec_int(0),
    decreases (if m < 0 { -m } else { m }),
{
    if m != 0 && m % 10 == 0 {
        assert(m / 10 * 10 == m);
        lemma_normalize_zero(m / 10, s - 1);
    }
}

/// The canonical form of a nonzero number is nonzero.
pub proof fn lemma_normalize_nonzero(m: int, s: int)
    requires
        m != 0,
    ensures
        normalize(m, s).mantissa != 0,
    decreases (if m < 0 { -m } else { m }),
{
    if m % 10 == 0 {
        assert(m / 10 * 10 == m);
        assert(m / 10 != 0);
        lemma_normalize_nonzero(m / 10, s - 1);
    }
}

pub proof fn lemma_pow10_positive(n: nat)
    ensures
        pow10(n) > 0,
    decreases n,
{
    if n > 0 {
        lemma_pow10_positive((n - 1) as nat);
    }
}

/// `a < b` compares the two values written at any common scale `t`.
pub proof fn lemma_lt_at(a: DecValue, b: DecValue, t: int)
    requires
        t >= a.scale,
        t >= b.scale,
    ensures
        a.lt(b) <==> a.at_scale(t) < b.at_scale(t),
{
    let s = a.max_scale(b);
    let k = (t - s) as nat;
    lemma_at_scale_shift(a, s, k);
    lemma_at_scale_shift(b, s, k);
    lemma_pow10_positive(k);
    let p = pow10(k);
    let x = a.at_scale(s);
    let y = b.at_scale(s);
    assert(x < y <==> x * p < y * p) by (nonlinear_arith)
        requires
            p > 0,
    ;
}

/// No value is less than itself.
pub proof fn lemma_lt_irreflexive(a: DecValue)
    ensures
        !a.lt(a),
{
}

/// The order of values is transitive.
pub proof fn lemma_lt_transitive(a: DecValue, b: DecValue, c: DecValue)
    requires
        a.lt(b),
        b.lt(c),
    ensures
        a.lt(c),
{
    let t0 = if a.scale >= b.scale { a.scale } else { b.scale };
    let t = if t0 >= c.scale { t0 } else { c.scale };
    lemma_lt_at(a, b, t);
    lemma_lt_at(b, c, t);
    lemma_lt_at(a, c, t);
}

/// Of two different canonical values one is less than the other.
pub proof fn lemma_lt_total(a: DecValue, b: DecValue)
    requires
        is_normal(a),
        is_normal(b),
        a != b,
    ensures
        a.lt(b) || b.lt(a),
{
    let t0 = a.max_scale(b);
    let t = if t0 >= 0 { t0 } else { 0 };
    lemma_lt_at(a, b, t);
    lemma_lt_at(b, a, t);
    if !a.lt(b) && !b.lt(a) {
        lemma_normal_unique(a, b, t);
    }
}

/// Rounding to cents gives a canonical value with at most two decimal
/// places, and leaves such a value as it is.
pub proof fn law_round2(a: DecValue)
    ensures
        is_normal(a.round2()),
        a.round2().scale <= 2,
        is_normal(a) && a.scale <= 2 ==> a.round2() == a,
{
    if a.scale <= 2 {
        lemma_normalize(a.at_scale(2), 2);
        if is_normal(a) {
            lemma_normalize_at(a.at_scale(2), 2, 2);
            assert((2 - 2) as nat == 0);
            assert(pow10(0) == 1);
            assert(a.at_scale(2) * pow10(0) == a.at_scale(2));
            lemma_normal_unique(a.round2(), a, 2);
        }
    } else {
        let d = pow10((a.scale - 2) as nat) as int;
        let m = if a.mantissa < 0 { -a.mantissa } else { a.mantissa };
        let q = m / d;
        let r = m % d;
        let q2 = if 2 * r >= d { q + 1 } else { q };
        lemma_normalize(if a.mantissa < 0 { -q2 } else { q2 }, 2);
    }
}

/// A number is below ten to the power of its digit count.
pub proof fn lemma_digits_bound(n: nat)
    ensures
        n < pow10(num_digits(n)),
    decreases n,
{
    if n >= 10 {
        lemma_digits_bound(n / 10);
        let d = num_digits(n / 10);
        assert(pow10(d + 1) == 10 * pow10(d));
        assert(num_digits(n) == d + 1);
    } else {
        assert(pow10(1) == 10 * pow10(0));
    }
}

/// A number below `10^k` has at most `k` digits.
pub proof fn lemma_digits_le(n: nat, k: nat)
    requires
        n < pow10(k),
        k >= 1,
    ensures
        num_digits(n) <= k,
    decreases n,
{
    if n >= 10 {
        assert(pow10(1) == 10 * pow10(0));
        if k == 1 {
            assert(false);
        }
        let k1 = (k - 1) as nat;
        assert(pow10(k) == 10 * pow10(k1));
        assert(n / 10 < pow10(k1));
        if k1 == 0 {
            assert(pow10(0) == 1);
            assert(n / 10 >= 1);
        }
        lemma_digits_le(n / 10, k1);
    }
}

/// A number no larger than a product has at most as many digits as the
/// factors together.
pub proof fn lemma_digits_mul(a: nat, b: nat, c: nat)
    requires
        c <= a * b,
    ensures
        num_digits(c) <= num_digits(a) + num_digits(b),
{
    let da = num_digits(a);
    let db = num_digits(b);
    lemma_digits_bound(a);
    lemma_digits_bound(b);
    let pa = pow10(da);
    let pb = pow10(db);
    assert(a * b < pa * pb) by (nonlinear_arith)
        requires
            a < pa,
            b < pb,
    ;
    lemma_pow10_add(da, db);
    assert(da >= 1);
    lemma_digits_le(c, da + db);
}


/// Writing `m * 10^(-s)` with `k` more zeros changes nothing of its
/// canonical form.
pub proof fn lemma_normalize_shift(m: int, s: int, k: nat)
    ensures
        normalize(m * pow10(k), s + k) == normalize(m, s),
    decreases k,
{
    if k == 0 {
        assert(pow10(0) == 1);
        assert(m * 1 == m);
    } else {
        let k1 = (k - 1) as nat;
        lemma_normalize_shift(m, s, k1);
        let p = pow10(k1);
        assert(pow10(k) == 10 * p);
        let x = m * p;
        assert(m * pow10(k) == x * 10) by (nonlinear_arith)
            requires
                pow10(k) == 10 * p,
                x == m * p,
        ;
        if x * 10 == 0 {
            assert(x == 0);
            lemma_normalize(m * pow10(k), s + k);
            lemma_normalize(x, s + k1);
        } else {
            vstd::arithmetic::div_mod::lemma_mod_multiples_basic(x, 10);
            vstd::arithmetic::div_mod::lemma_div_multiples_vanish(x, 10);
            assert((x * 10) / 10 == x);
            assert(normalize(x * 10, s + k) == normalize(x, s + k - 1));
            assert(s + k - 1 == s + k1);
        }
    }
}

/// The value of a product's representation, as `bigdecimal` builds it, is
/// the product of the values.
pub proof fn lemma_rep_mul_value(a: (int, int), b: (int, int))
    ensures
        rep_value(rep_mul(a, b)) == rep_value(a).mul(rep_value(b)),
{
    let na = rep_value(a);
    let nb = rep_value(b);
    lemma_normalize(a.0, a.1);
    lemma_normalize(b.0, b.1);
    lemma_normalize_shift(nb.mantissa, nb.scale, 0);
    lemma_normalize_shift(na.mantissa, na.scale, 0);
    if is_quick_one(a) {
        lemma_normalize_shift(1, 0, a.1 as nat);
        assert(1 * pow10(a.1 as nat) == a.0);
        assert(normalize(1, 0) == DecValue { mantissa: 1, scale: 0 });
        assert(na == DecValue { mantissa: 1, scale: 0 });
        assert(1 * nb.mantissa == nb.mantissa);
        lemma_normal_fixed(nb);
    } else if is_quick_one(b) {
        lemma_normalize_shift(1, 0, b.1 as nat);
        assert(1 * pow10(b.1 as nat) == b.0);
        assert(normalize(1, 0) == DecValue { mantissa: 1, scale: 0 });
        assert(nb == DecValue { mantissa: 1, scale: 0 });
        assert(na.mantissa * 1 == na.mantissa);
        lemma_normal_fixed(na);
    } else if a.0 == 0 || b.0 == 0 {
        assert(a.0 * b.0 == 0) by (nonlinear_arith)
            requires
                a.0 == 0 || b.0 == 0,
        ;
        lemma_normalize(0, a.1 + b.1);
        assert(na.mantissa == 0 || nb.mantissa == 0);
        assert(na.mantissa * nb.mantissa == 0) by (nonlinear_arith)
            requires
                na.mantissa == 0 || nb.mantissa == 0,
        ;
        lemma_normalize(0, na.scale + nb.scale);
    } else {
        let ka = (a.1 - na.scale) as nat;
        let kb = (b.1 - nb.scale) as nat;
        lemma_pow10_add(ka, kb);
        let m = na.mantissa * nb.mantissa;
        assert(a.0 * b.0 == m * pow10(ka + kb)) by (nonlinear_arith)
            requires
                a.0 == na.mantissa * pow10(ka),
                b.0 == nb.mantissa * pow10(kb),
                m == na.mantissa * nb.mantissa,
                pow10(ka + kb) == pow10(ka) * pow10(kb),
        ;
        lemma_normalize_shift(m, na.scale + nb.scale, ka + kb);
        assert(na.scale + nb.scale + (ka + kb) == a.1 + b.1);
    }
}

/// A canonical value is its own canonical form.
pub proof fn lemma_normal_fixed(d: DecValue)
    requires
        is_normal(d),
    ensures
        normalize(d.mantissa, d.scale) == d,
{
}

/// The integer of a product's representation is no larger than the product
/// of the integers.
pub proof fn lemma_rep_mul_abs(a: (int, int), b: (int, int))
    ensures
        abs(rep_mul(a, b).0) <= abs(a.0) * abs(b.0),
        rep_mul(a, b).1 == a.1 + b.1 || rep_mul(a, b).1 == a.1 || rep_mul(a, b).1 == b.1,
{
    if is_quick_one(a) {
        lemma_pow10_positive(a.1 as nat);
        assert(abs(b.0) <= abs(a.0) * abs(b.0)) by (nonlinear_arith)
            requires
                abs(a.0) >= 1,
        ;
    } else if is_quick_one(b) {
        lemma_pow10_positive(b.1 as nat);
        assert(abs(a.0) <= abs(a.0) * abs(b.0)) by (nonlinear_arith)
            requires
                abs(b.0) >= 1,
        ;
    } else {
        assert(abs(a.0 * b.0) == abs(a.0) * abs(b.0)) by (nonlinear_arith);
    }
}

/// The value of a sum's representation, as `bigdecimal` builds it, is the
/// sum of the values.
pub proof fn lemma_rep_add_value(a: (int, int), b: (int, int))
    ensures
        rep_value(rep_add(a, b)) == rep_value(a).add(rep_value(b)),
{
    let s = if a.1 >= b.1 { a.1 } else { b.1 };
    let t = if s >= 0 { s } else { 0 };
    let ka = (s - a.1) as nat;
    let kb = (s - b.1) as nat;
    let k = (t - s) as nat;
    let r = rep_add(a, b);
    let na = rep_value(a);
    let nb = rep_value(b);
    lemma_normalize(a.0, a.1);
    lemma_normalize(b.0, b.1);
    lemma_normalize(r.0, r.1);
    lemma_add_scale(na, nb);
    lemma_normalize_at(r.0, r.1, t);
    lemma_normalize_at(a.0, a.1, t);
    lemma_normalize_at(b.0, b.1, t);
    lemma_add_at(na, nb, t);
    lemma_pow10_add(ka, k);
    lemma_pow10_add(kb, k);
    assert((t - a.1) as nat == ka + k);
    assert((t - b.1) as nat == kb + k);
    assert(r.0 * pow10(k) == a.0 * pow10(ka + k) + b.0 * pow10(kb + k)) by (nonlinear_arith)
        requires
            r.0 == a.0 * pow10(ka) + b.0 * pow10(kb),
            pow10(ka + k) == pow10(ka) * pow10(k),
            pow10(kb + k) == pow10(kb) * pow10(k),
    ;
    lemma_normal_unique(rep_value(r), na.add(nb), t);
}

/// The value of a negated representation is the negated value.
pub proof fn lemma_rep_neg_value(a: (int, int))
    ensures
        rep_value((-a.0, a.1)) == rep_value(a).neg(),
{
    let na = rep_value(a);
    lemma_normalize(a.0, a.1);
    if a.0 == 0 {
        lemma_normalize(0, 0);
    } else {
        let k = (a.1 - na.scale) as nat;
        assert(-a.0 == (-na.mantissa) * pow10(k)) by (nonlinear_arith)
            requires
                a.0 == na.mantissa * pow10(k),
        ;
        lemma_normalize_shift(-na.mantissa, na.scale, k);
        assert(na.scale + k == a.1);
    }
}

/// A value plus its negation is zero.
pub proof fn lemma_add_neg_cancel(x: DecValue)
    requires
        is_normal(x),
    ensures
        x.add(x.neg()) == dec_int(0),
{
    let y = x.neg();
    lemma_normalize(-x.mantissa, x.scale);
    lemma_normalize(0, 0);
    let t = if x.scale >= 0 { x.scale } else { 0 };
    lemma_add_scale(x, y);
    lemma_add_at(x, y, t);
    lemma_normal_fixed(x);
    lemma_normalize_at(x.mantissa, x.scale, t);
    lemma_normalize_at(-x.mantissa, x.scale, t);
    lemma_normalize_at(0, 0, t);
    assert(x.mantissa * pow10((t - x.scale) as nat) + (-x.mantissa) * pow10((t - x.scale) as nat) == 0)
        by (nonlinear_arith);
    assert(0 * pow10((t - 0) as nat) == 0);
    lemma_normal_unique(x.add(y), dec_int(0), t);
}

} // verus!
