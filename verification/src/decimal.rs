use vstd::prelude::*;

use crate::engine::EngineError;
use rust_decimal::Decimal;
use rust_decimal::MathematicalOps;
use rust_decimal::RoundingStrategy;

verus! {

/// An exact decimal number `mantissa * 10^(-scale)`.
///
/// This is the engine's own picture of a `rust_decimal::Decimal` value: a
/// 96-bit signed mantissa together with a scale of at most 28 fractional
/// digits. All money accumulation and discounting happens on values of
/// this shape; binary floating point never enters the engine.
#[derive(Clone, Copy, Debug, PartialEq, Eq, Structural)]
pub struct ExactDecimal {
    pub mantissa: i128,
    pub scale: u32,
}

/// `10^n`.
pub open spec fn pow10(n: nat) -> int
    decreases n,
{
    if n == 0 {
        1
    } else {
        10 * pow10((n - 1) as nat)
    }
}

/// The exclusive mantissa bound of a 96-bit decimal: `2^96`.
pub open spec fn spec_max_mantissa() -> int {
    0x1000000000000000000000000
}

/// Every decimal the arithmetic wrappers take or hand back has this
/// shape: scale at most 28 and a mantissa strictly within 96 bits.
pub open spec fn dec_wf(d: ExactDecimal) -> bool {
    &&& d.scale <= 28
    &&& -spec_max_mantissa() < d.mantissa as int
    &&& (d.mantissa as int) < spec_max_mantissa()
}

pub proof fn lemma_pow10_pos(n: nat)
    ensures
        pow10(n) >= 1,
    decreases n,
{
    if n > 0 {
        lemma_pow10_pos((n - 1) as nat);
    }
}

pub proof fn lemma_pow10_mono(a: nat, b: nat)
    requires
        a <= b,
    ensures
        pow10(a) <= pow10(b),
    decreases b,
{
    if a < b {
        lemma_pow10_mono(a, (b - 1) as nat);
        lemma_pow10_pos((b - 1) as nat);
    }
}

pub proof fn lemma_pow10_values()
    ensures
        pow10(0) == 1,
        pow10(1) == 10,
        pow10(4) == 10000,
        pow10(6) == 1000000,
        pow10(7) == 10000000,
        pow10(14) == 100000000000000,
        pow10(18) == 1000000000000000000,
        pow10(28) == 10000000000000000000000000000,
{
    assert(pow10(0) == 1);
    assert(pow10(1) == 10);
    assert(pow10(2) == 100);
    assert(pow10(3) == 1000);
    assert(pow10(4) == 10000);
    assert(pow10(5) == 100000);
    assert(pow10(6) == 1000000);
    assert(pow10(7) == 10000000);
    assert(pow10(8) == 100000000);
    assert(pow10(9) == 1000000000);
    assert(pow10(10) == 10000000000);
    assert(pow10(11) == 100000000000);
    assert(pow10(12) == 1000000000000);
    assert(pow10(13) == 10000000000000);
    assert(pow10(14) == 100000000000000);
    assert(pow10(15) == 1000000000000000);
    assert(pow10(16) == 10000000000000000);
    assert(pow10(17) == 100000000000000000);
    assert(pow10(18) == 1000000000000000000);
    assert(pow10(19) == 10000000000000000000);
    assert(pow10(20) == 100000000000000000000);
    assert(pow10(21) == 1000000000000000000000);
    assert(pow10(22) == 10000000000000000000000);
    assert(pow10(23) == 100000000000000000000000);
    assert(pow10(24) == 1000000000000000000000000);
    assert(pow10(25) == 10000000000000000000000000);
    assert(pow10(26) == 100000000000000000000000000);
    assert(pow10(27) == 1000000000000000000000000000);
    assert(pow10(28) == 10000000000000000000000000000);
}

impl ExactDecimal {
    /// The decimal `mantissa * 10^(-scale)`, or `None` when the pair does
    /// not fit the 96-bit, scale-at-most-28 representation.
    pub fn new(mantissa: i128, scale: u32) -> (r: Option<ExactDecimal>)
        ensures
            match r {
                Some(d) => dec_wf(d) && d.mantissa == mantissa && d.scale == scale,
                None => !dec_wf(ExactDecimal { mantissa, scale }),
            },
    {
        if scale <= 28 && mantissa > -79228162514264337593543950336i128
            && mantissa < 79228162514264337593543950336i128 {
            Some(ExactDecimal { mantissa, scale })
        } else {
            None
        }
    }

    /// Whether the pair of fields is a well-formed decimal.
    pub fn is_well_formed(&self) -> (r: bool)
        ensures
            r == dec_wf(*self),
    {
        self.scale <= 28 && self.mantissa > -79228162514264337593543950336i128
            && self.mantissa < 79228162514264337593543950336i128
    }
}

/// What `rust_decimal`'s `checked_add` returns for the decimals
/// `am * 10^(-ascale)` and `bm * 10^(-bscale)`: the mantissa and scale of
/// the sum, or `None` on overflow.
pub uninterp spec fn add_val(am: int, ascale: int, bm: int, bscale: int) -> Option<(int, int)>;

/// What `rust_decimal`'s `checked_div` returns for the decimals
/// `am * 10^(-ascale)` and `bm * 10^(-bscale)`: the mantissa and scale of
/// the quotient rounded to 28 significant digits, or `None` on overflow
/// or division by zero.
pub uninterp spec fn div_val(am: int, ascale: int, bm: int, bscale: int) -> Option<(int, int)>;

/// What `rust_decimal`'s `checked_powd` returns for the base
/// `bm * 10^(-bscale)` raised to the exponent `em * 10^(-escale)`: the
/// mantissa and scale of the power, or `None` when it overflows.
pub uninterp spec fn pow_val(bm: int, bscale: int, em: int, escale: int) -> Option<(int, int)>;

/// Relies on `rust_decimal::Decimal::checked_add`: the exact-decimal sum
/// of the two arguments, `None` only on overflow.
#[verifier::external_body]
pub(crate) fn dec_add(a: &ExactDecimal, b: &ExactDecimal) -> (r: Result<ExactDecimal, EngineError>)
    requires
        dec_wf(*a),
        dec_wf(*b),
    ensures
        match add_val(a.mantissa as int, a.scale as int, b.mantissa as int, b.scale as int) {
            Some(p) => r matches Ok(c) && c.mantissa as int == p.0 && c.scale as int == p.1
                && dec_wf(c),
            None => r matches Err(e) && e is Overflow,
        },
{
    let x = Decimal::from_i128_with_scale(a.mantissa, a.scale);
    let y = Decimal::from_i128_with_scale(b.mantissa, b.scale);
    match x.checked_add(y) {
        Some(z) => Ok(ExactDecimal { mantissa: z.mantissa(), scale: z.scale() }),
        None => Err(EngineError::Overflow),
    }
}

/// Relies on `rust_decimal::Decimal::checked_div`: the quotient of the
/// two arguments rounded to 28 significant digits, `None` on overflow or
/// on a zero divisor.
#[verifier::external_body]
pub(crate) fn dec_div(a: &ExactDecimal, b: &ExactDecimal) -> (r: Result<ExactDecimal, EngineError>)
    requires
        dec_wf(*a),
        dec_wf(*b),
    ensures
        match div_val(a.mantissa as int, a.scale as int, b.mantissa as int, b.scale as int) {
            Some(p) => r matches Ok(c) && c.mantissa as int == p.0 && c.scale as int == p.1
                && dec_wf(c),
            None => r matches Err(e) && e is Overflow,
        },
{
    let x = Decimal::from_i128_with_scale(a.mantissa, a.scale);
    let y = Decimal::from_i128_with_scale(b.mantissa, b.scale);
    match x.checked_div(y) {
        Some(z) => Ok(ExactDecimal { mantissa: z.mantissa(), scale: z.scale() }),
        None => Err(EngineError::Overflow),
    }
}

/// Relies on `rust_decimal::MathematicalOps::checked_powd`: the base
/// raised to the decimal exponent, `None` when the power overflows.
#[verifier::external_body]
pub(crate) fn dec_pow(base: &ExactDecimal, exp: &ExactDecimal) -> (r: Result<
    ExactDecimal,
    EngineError,
>)
    requires
        dec_wf(*base),
        dec_wf(*exp),
    ensures
        match pow_val(base.mantissa as int, base.scale as int, exp.mantissa as int,
            exp.scale as int) {
            Some(p) => r matches Ok(c) && c.mantissa as int == p.0 && c.scale as int == p.1
                && dec_wf(c),
            None => r matches Err(e) && e is Overflow,
        },
{
    let x = Decimal::from_i128_with_scale(base.mantissa, base.scale);
    let y = Decimal::from_i128_with_scale(exp.mantissa, exp.scale);
    match x.checked_powd(y) {
        Some(z) => Ok(ExactDecimal { mantissa: z.mantissa(), scale: z.scale() }),
        None => Err(EngineError::Overflow),
    }
}

/// `num / den` rounded to the nearest integer, with a midpoint rounded
/// away from zero; `den` must be positive.
pub open spec fn round_half_away(num: int, den: int) -> int {
    if num >= 0 {
        (2 * num + den) / (2 * den)
    } else {
        -((2 * -num + den) / (2 * den))
    }
}

/// The whole number of micro-units (millionths) closest to
/// `m * 10^(-s)` currency units, a midpoint rounded away from zero.
pub open spec fn micros_of(m: int, s: int) -> int {
    if s <= 6 {
        m * pow10((6 - s) as nat)
    } else {
        round_half_away(m, pow10((s - 6) as nat))
    }
}

/// Relies on `rust_decimal::Decimal::round_dp_with_strategy` with the
/// midpoint-away-from-zero strategy: the argument rounded to 6 fractional
/// digits, exact whenever the argument already has 6 or fewer.
#[verifier::external_body]
pub(crate) fn dec_round_to_micros(d: &ExactDecimal) -> (r: ExactDecimal)
    requires
        dec_wf(*d),
    ensures
        dec_wf(r),
        r.scale <= 6,
        r.mantissa as int * pow10((6 - r.scale) as nat) == micros_of(
            d.mantissa as int,
            d.scale as int,
        ),
{
    let x = Decimal::from_i128_with_scale(d.mantissa, d.scale);
    let z = x.round_dp_with_strategy(6, RoundingStrategy::MidpointAwayFromZero);
    ExactDecimal { mantissa: z.mantissa(), scale: z.scale() }
}

/// `10^e` as an `i128`, for scales up to 28.
pub fn pow10_i128(e: u32) -> (r: i128)
    requires
        e <= 28,
    ensures
        r as int == pow10(e as nat),
{
    let mut r: i128 = 1;
    let mut i: u32 = 0;
    while i < e
        invariant
            i <= e,
            e <= 28,
            r as int == pow10(i as nat),
        decreases e - i,
    {
        proof {
            lemma_pow10_mono((i + 1) as nat, 28);
            lemma_pow10_values();
            lemma_pow10_pos(i as nat);
            assert(pow10((i + 1) as nat) == 10 * pow10(i as nat));
            assert((r as int) * 10 == pow10((i + 1) as nat));
            assert((r as int) * 10 <= 10000000000000000000000000000);
        }
        r = r * 10;
        i = i + 1;
    }
    r
}

} // verus!
