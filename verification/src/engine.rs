use vstd::prelude::*;

use crate::decimal::{
    add_val, dec_add, dec_div, dec_pow, dec_wf, div_val, lemma_pow10_values, micros_of, pow10,
    pow10_i128, pow_val, round_half_away, spec_max_mantissa, ExactDecimal,
};
use crate::money::{money_bytes_val, spec_int_string, Money};
use vstd::utf8::encode_utf8;

verus! {

/// The terminal error conditions of the valuation engine.
///
/// Serialization failures of the host boundary documents are the host
/// layer's concern and are not raised by the engine itself.
#[derive(Clone, Debug)]
pub enum EngineError {
    /// A money micro-string that does not parse as a base-10 integer the
    /// engine can represent.
    InvalidMoney(String),
    /// An arithmetic result left the representable range, a discount base
    /// was not positive, or a discount factor vanished.
    Overflow,
    /// The rate search found no rate at which the net present value
    /// crosses zero.
    IrrNotFound,
}

/// The discounting convention: how many periods one year holds.
#[derive(Clone, Copy, Debug, PartialEq, Eq, Structural)]
pub enum Compounding {
    Annual,
    Monthly,
}

/// A dated money amount; the date is a day count since the fixed epoch.
#[derive(Clone, Debug)]
pub struct Cashflow {
    pub date_epoch_days: i32,
    pub amount: Money,
}

/// A valuation request: the schedule, the discount rate in basis points,
/// the compounding convention and the as-of date.
#[derive(Clone, Debug)]
pub struct DcfInput {
    pub cashflows: Vec<Cashflow>,
    pub discount_rate_bps: i32,
    pub compounding: Compounding,
    pub as_of_epoch_days: i32,
}

/// A valuation result: the net present value and, when one exists in the
/// search bracket, the internal rate of return in basis points.
#[derive(Clone, Debug)]
pub struct DcfOutput {
    pub npv: Money,
    pub irr_bps: Option<i32>,
}

/// Discounting periods per year of a compounding convention.
pub open spec fn spec_frequency(c: Compounding) -> int {
    match c {
        Compounding::Annual => 1,
        Compounding::Monthly => 12,
    }
}

/// Periods per year as an exact decimal.
pub fn compounding_frequency(compounding: Compounding) -> (r: ExactDecimal)
    ensures
        r.mantissa as int == spec_frequency(compounding),
        r.scale == 0,
        dec_wf(r),
{
    match compounding {
        Compounding::Annual => ExactDecimal { mantissa: 1, scale: 0 },
        Compounding::Monthly => ExactDecimal { mantissa: 12, scale: 0 },
    }
}

/// The spec-level outcome of a net-present-value evaluation: the decimal
/// it yields, the micro-string it rejected, or an arithmetic overflow.
pub enum NpvOutcome {
    Value((int, int)),
    BadMoney(Seq<char>),
    ArithOverflow,
}

/// The number of discounting periods between the as-of day and the
/// target day: `(target - as_of) / (365 / frequency)`, both divisions
/// performed by the exact-decimal arithmetic.
pub open spec fn spec_periods(as_of: int, target: int, fm: int, fs: int) -> Option<(int, int)> {
    match div_val(365, 0, fm, fs) {
        None => None,
        Some(plen) => div_val(target - as_of, 0, plen.0, plen.1),
    }
}

/// One step of the net-present-value sum: discounts the cash flow to the
/// as-of day and adds it to the accumulator, or reports why it cannot.
pub open spec fn spec_discounted_term(
    acc: (int, int),
    cf: Cashflow,
    as_of: int,
    freq: int,
    rm: int,
    rs: int,
) -> NpvOutcome {
    match money_bytes_val(encode_utf8(cf.amount.micro@)) {
        None => NpvOutcome::BadMoney(cf.amount.micro@),
        Some(v) => if !(-spec_max_mantissa() < v && v < spec_max_mantissa()) {
            NpvOutcome::BadMoney(cf.amount.micro@)
        } else {
            match spec_periods(as_of, cf.date_epoch_days as int, freq, 0) {
                None => NpvOutcome::ArithOverflow,
                Some(per) => match div_val(rm, rs, freq, 0) {
                    None => NpvOutcome::ArithOverflow,
                    Some(rpp) => match add_val(1, 0, rpp.0, rpp.1) {
                        None => NpvOutcome::ArithOverflow,
                        Some(base) => if base.0 <= 0 {
                            NpvOutcome::ArithOverflow
                        } else {
                            match pow_val(base.0, base.1, per.0, per.1) {
                                None => NpvOutcome::ArithOverflow,
                                Some(disc) => if disc.0 == 0 {
                                    NpvOutcome::ArithOverflow
                                } else {
                                    match div_val(v, 6, disc.0, disc.1) {
                                        None => NpvOutcome::ArithOverflow,
                                        Some(term) => match add_val(
                                            acc.0,
                                            acc.1,
                                            term.0,
                                            term.1,
                                        ) {
                                            None => NpvOutcome::ArithOverflow,
                                            Some(t) => NpvOutcome::Value(t),
                                        },
                                    }
                                },
                            }
                        },
                    },
                },
            }
        },
    }
}

/// The net present value of the first `n` cash flows at the annual rate
/// `rm * 10^(-rs)`, each discounted independently to the as-of day.
pub open spec fn spec_npv_prefix(input: DcfInput, rm: int, rs: int, n: int) -> NpvOutcome
    decreases n,
{
    if n <= 0 {
        NpvOutcome::Value((0, 0))
    } else {
        match spec_npv_prefix(input, rm, rs, n - 1) {
            NpvOutcome::Value(acc) => spec_discounted_term(
                acc,
                input.cashflows@[n - 1],
                input.as_of_epoch_days as int,
                spec_frequency(input.compounding),
                rm,
                rs,
            ),
            e => e,
        }
    }
}

/// The net present value of the whole schedule at the given annual rate.
pub open spec fn spec_npv(input: DcfInput, rm: int, rs: int) -> NpvOutcome {
    spec_npv_prefix(input, rm, rs, input.cashflows@.len() as int)
}

proof fn lemma_npv_prefix_persists(input: DcfInput, rm: int, rs: int, i: int, j: int)
    requires
        0 <= i <= j,
        !(spec_npv_prefix(input, rm, rs, i) is Value),
    ensures
        spec_npv_prefix(input, rm, rs, j) == spec_npv_prefix(input, rm, rs, i),
    decreases j - i,
{
    if j > i {
        lemma_npv_prefix_persists(input, rm, rs, i, j - 1);
    }
}

/// The number of discounting periods between two days under the given
/// periods-per-year frequency, computed in exact-decimal arithmetic.
pub fn periods_between(as_of: i32, target: i32, frequency: &ExactDecimal) -> (r: Result<
    ExactDecimal,
    EngineError,
>)
    ensures
        dec_wf(*frequency) ==> match spec_periods(
            as_of as int,
            target as int,
            frequency.mantissa as int,
            frequency.scale as int,
        ) {
            Some(p) => r matches Ok(d) && d.mantissa as int == p.0 && d.scale as int == p.1
                && dec_wf(d),
            None => r matches Err(e) && e is Overflow,
        },
        !dec_wf(*frequency) ==> (r matches Err(e) && e is Overflow),
{
    if !frequency.is_well_formed() {
        return Err(EngineError::Overflow);
    }
    let year = ExactDecimal { mantissa: 365, scale: 0 };
    let period_length = match dec_div(&year, frequency) {
        Ok(p) => p,
        Err(_) => {
            return Err(EngineError::Overflow);
        },
    };
    let delta = (target as i64) - (as_of as i64);
    let delta_days = ExactDecimal { mantissa: delta as i128, scale: 0 };
    match dec_div(&delta_days, &period_length) {
        Ok(p) => Ok(p),
        Err(_) => Err(EngineError::Overflow),
    }
}

/// The net present value of the schedule at the annual rate
/// `annual_rate`, as an exact decimal: every cash flow is discounted
/// independently to the as-of day by `(1 + rate/frequency)` raised to
/// its period distance, and the discounted amounts are summed. An empty
/// schedule yields exactly zero.
pub fn npv_for_rate(input: &DcfInput, annual_rate: &ExactDecimal) -> (r: Result<
    ExactDecimal,
    EngineError,
>)
    ensures
        dec_wf(*annual_rate) ==> match spec_npv(
            *input,
            annual_rate.mantissa as int,
            annual_rate.scale as int,
        ) {
            NpvOutcome::Value(p) => r matches Ok(d) && d.mantissa as int == p.0 && d.scale as int
                == p.1 && dec_wf(d),
            NpvOutcome::BadMoney(s) => r matches Err(e) && e matches EngineError::InvalidMoney(t)
                && t@ == s,
            NpvOutcome::ArithOverflow => r matches Err(e) && e is Overflow,
        },
        !dec_wf(*annual_rate) ==> (r matches Err(e) && e is Overflow),
        dec_wf(*annual_rate) && input.cashflows@.len() == 0 ==> (r matches Ok(d) && d.mantissa
            == 0),
{
    if !annual_rate.is_well_formed() {
        return Err(EngineError::Overflow);
    }
    let ghost rm = annual_rate.mantissa as int;
    let ghost rs = annual_rate.scale as int;
    let mut total = ExactDecimal { mantissa: 0, scale: 0 };
    let frequency = compounding_frequency(input.compounding);
    let n = input.cashflows.len();
    let mut idx: usize = 0;
    while idx < n
        invariant
            idx <= n,
            n == input.cashflows@.len(),
            dec_wf(total),
            dec_wf(*annual_rate),
            rm == annual_rate.mantissa as int,
            rs == annual_rate.scale as int,
            dec_wf(frequency),
            frequency.mantissa as int == spec_frequency(input.compounding),
            frequency.scale == 0,
            spec_npv_prefix(*input, rm, rs, idx as int) == NpvOutcome::Value(
                (total.mantissa as int, total.scale as int),
            ),
        decreases n - idx,
    {
        let cf = &input.cashflows[idx];
        let amount = match cf.amount.to_decimal() {
            Ok(a) => a,
            Err(e) => {
                proof {
                    lemma_npv_prefix_persists(*input, rm, rs, idx + 1, n as int);
                }
                return Err(e);
            },
        };
        let periods = match periods_between(input.as_of_epoch_days, cf.date_epoch_days,
            &frequency) {
            Ok(p) => p,
            Err(e) => {
                proof {
                    lemma_npv_prefix_persists(*input, rm, rs, idx + 1, n as int);
                }
                return Err(e);
            },
        };
        let rate_per_period = match dec_div(annual_rate, &frequency) {
            Ok(v) => v,
            Err(e) => {
                proof {
                    lemma_npv_prefix_persists(*input, rm, rs, idx + 1, n as int);
                }
                return Err(e);
            },
        };
        let one = ExactDecimal { mantissa: 1, scale: 0 };
        let base = match dec_add(&one, &rate_per_period) {
            Ok(v) => v,
            Err(e) => {
                proof {
                    lemma_npv_prefix_persists(*input, rm, rs, idx + 1, n as int);
                }
                return Err(e);
            },
        };
        if base.mantissa <= 0 {
            proof {
                lemma_npv_prefix_persists(*input, rm, rs, idx + 1, n as int);
            }
            return Err(EngineError::Overflow);
        }
        let discount = match dec_pow(&base, &periods) {
            Ok(v) => v,
            Err(e) => {
                proof {
                    lemma_npv_prefix_persists(*input, rm, rs, idx + 1, n as int);
                }
                return Err(e);
            },
        };
        if discount.mantissa == 0 {
            proof {
                lemma_npv_prefix_persists(*input, rm, rs, idx + 1, n as int);
            }
            return Err(EngineError::Overflow);
        }
        let term = match dec_div(&amount, &discount) {
            Ok(v) => v,
            Err(e) => {
                proof {
                    lemma_npv_prefix_persists(*input, rm, rs, idx + 1, n as int);
                }
                return Err(e);
            },
        };
        let new_total = match dec_add(&total, &term) {
            Ok(v) => v,
            Err(e) => {
                proof {
                    lemma_npv_prefix_persists(*input, rm, rs, idx + 1, n as int);
                }
                return Err(e);
            },
        };
        proof {
            assert(spec_npv_prefix(*input, rm, rs, idx + 1) == NpvOutcome::Value(
                (new_total.mantissa as int, new_total.scale as int),
            ));
        }
        total = new_total;
        idx = idx + 1;
    }
    Ok(total)
}

/// The lower end of the rate search bracket, at the search scale of 18:
/// an annual rate of -99.99%.
pub open spec fn spec_low_rate() -> int {
    -999900000000000000
}

/// The upper end of the rate search bracket, at the search scale of 18:
/// an annual rate of 1000%.
pub open spec fn spec_high_rate() -> int {
    10000000000000000000
}

/// A search-scale rate turned into basis points: `rate * 10^4`, rounded
/// to the nearest whole basis point with a midpoint away from zero.
pub open spec fn spec_bps_of_rate(rate_m: int) -> int {
    round_half_away(rate_m, pow10(14))
}

/// Saturation of a whole number of basis points into the 32-bit range.
pub open spec fn spec_clamp_to_i32(v: int) -> int {
    if v < -0x80000000 {
        -0x80000000
    } else if v > 0x7fffffff {
        0x7fffffff
    } else {
        v
    }
}

/// Whether the decimal `m * 10^(-s)` is within the acceptance tolerance
/// of the rate search: an absolute value below `10^(-7)`.
pub open spec fn spec_within_tolerance(m: int, s: int) -> bool {
    (if m >= 0 {
        m
    } else {
        -m
    }) * pow10(7) < pow10(s as nat)
}

/// The spec-level outcome of the rate search.
pub enum IrrOutcome {
    NoRoot,
    Root(int),
    BadMoney(Seq<char>),
    ArithOverflow,
}

/// The bisection: halves the bracket up to `fuel` more times, accepts
/// the midpoint once the net present value there is within tolerance,
/// and otherwise moves the end whose net present value shares the
/// midpoint's sign. When the fuel runs out the final midpoint stands.
pub open spec fn spec_bisect(
    input: DcfInput,
    low: int,
    high: int,
    low_nonneg: bool,
    fuel: nat,
) -> IrrOutcome
    decreases fuel,
{
    let mid = low + (high - low) / 2;
    if fuel == 0 {
        IrrOutcome::Root(spec_clamp_to_i32(spec_bps_of_rate(mid)))
    } else {
        match spec_npv(input, mid, 18) {
            NpvOutcome::BadMoney(s) => IrrOutcome::BadMoney(s),
            NpvOutcome::ArithOverflow => IrrOutcome::ArithOverflow,
            NpvOutcome::Value(v) => if spec_within_tolerance(v.0, v.1) {
                IrrOutcome::Root(spec_clamp_to_i32(spec_bps_of_rate(mid)))
            } else if (v.0 >= 0) == low_nonneg {
                spec_bisect(input, mid, high, low_nonneg, (fuel - 1) as nat)
            } else {
                spec_bisect(input, low, mid, low_nonneg, (fuel - 1) as nat)
            },
        }
    }
}

/// The internal rate of return of the schedule: no root for an empty
/// schedule or a bracket without a sign change, otherwise the bisection
/// outcome over the fixed bracket, run for up to 128 halvings.
pub open spec fn spec_irr(input: DcfInput) -> IrrOutcome {
    if input.cashflows@.len() == 0 {
        IrrOutcome::NoRoot
    } else {
        match spec_npv(input, spec_low_rate(), 18) {
            NpvOutcome::BadMoney(s) => IrrOutcome::BadMoney(s),
            NpvOutcome::ArithOverflow => IrrOutcome::ArithOverflow,
            NpvOutcome::Value(l) => match spec_npv(input, spec_high_rate(), 18) {
                NpvOutcome::BadMoney(s) => IrrOutcome::BadMoney(s),
                NpvOutcome::ArithOverflow => IrrOutcome::ArithOverflow,
                NpvOutcome::Value(h) => if (l.0 >= 0) == (h.0 >= 0) {
                    IrrOutcome::NoRoot
                } else {
                    spec_bisect(input, spec_low_rate(), spec_high_rate(), l.0 >= 0, 128)
                },
            },
        }
    }
}

/// Saturates a whole number of basis points into the 32-bit range; an
/// out-of-range value becomes the nearest bound, never a wrapped one.
pub fn clamp_to_i32(value: i128) -> (r: i32)
    ensures
        r as int == spec_clamp_to_i32(value as int),
{
    if value < -2147483648i128 {
        -2147483648i32
    } else if value > 2147483647i128 {
        2147483647i32
    } else {
        value as i32
    }
}

/// Turns a search-scale rate mantissa into clamped basis points.
pub fn rate_to_bps(rate_mantissa: i128) -> (r: i32)
    requires
        -spec_max_mantissa() < rate_mantissa as int,
        (rate_mantissa as int) < spec_max_mantissa(),
    ensures
        r as int == spec_clamp_to_i32(spec_bps_of_rate(rate_mantissa as int)),
{
    proof {
        lemma_pow10_values();
    }
    let negative = rate_mantissa < 0;
    let mag: u128 = if negative {
        (-(rate_mantissa + 1)) as u128 + 1
    } else {
        rate_mantissa as u128
    };
    let q = (2 * mag + 100000000000000u128) / 200000000000000u128;
    let bps = if negative {
        -(q as i128)
    } else {
        q as i128
    };
    clamp_to_i32(bps)
}

/// The internal rate of return of the schedule in whole basis points.
///
/// An empty schedule, or a bracket whose two net present values share a
/// sign, has no root and yields `None`; that is a valid outcome, not an
/// error. Any arithmetic failure inside an evaluation aborts the whole
/// search. Every run of this search on the same input takes exactly the
/// same path and returns exactly the same value.
pub fn calculate_irr(input: &DcfInput) -> (r: Result<Option<i32>, EngineError>)
    ensures
        match spec_irr(*input) {
            IrrOutcome::NoRoot => r matches Ok(o) && o is None,
            IrrOutcome::Root(b) => r matches Ok(o) && o matches Some(bps) && bps as int == b,
            IrrOutcome::BadMoney(s) => r matches Err(e) && e matches EngineError::InvalidMoney(t)
                && t@ == s,
            IrrOutcome::ArithOverflow => r matches Err(e) && e is Overflow,
        },
        input.cashflows@.len() == 0 ==> (r matches Ok(o) && o is None),
{
    if input.cashflows.len() == 0 {
        return Ok(None);
    }
    let mut low: i128 = -999900000000000000i128;
    let mut high: i128 = 10000000000000000000i128;
    let low_rate = ExactDecimal { mantissa: low, scale: 18 };
    let high_rate = ExactDecimal { mantissa: high, scale: 18 };
    let npv_low = match npv_for_rate(input, &low_rate) {
        Ok(v) => v,
        Err(e) => {
            return Err(e);
        },
    };
    let npv_high = match npv_for_rate(input, &high_rate) {
        Ok(v) => v,
        Err(e) => {
            return Err(e);
        },
    };
    let low_nonneg = npv_low.mantissa >= 0;
    let high_nonneg = npv_high.mantissa >= 0;
    if low_nonneg == high_nonneg {
        return Ok(None);
    }
    let ghost target = spec_bisect(*input, low as int, high as int, low_nonneg, 128);
    assert(target == spec_irr(*input));
    let mut iter: u32 = 0;
    while iter < 128
        invariant
            iter <= 128,
            -999900000000000000 <= low <= high <= 10000000000000000000,
            target == spec_irr(*input),
            spec_bisect(*input, low as int, high as int, low_nonneg, (128 - iter) as nat)
                == target,
            // The bracket invariant: the net present values at the two
            // ends of the bracket always carry opposite signs.
            (match spec_npv(*input, low as int, 18) {
                NpvOutcome::Value(v) => (v.0 >= 0) == low_nonneg,
                _ => false,
            }),
            (match spec_npv(*input, high as int, 18) {
                NpvOutcome::Value(v) => (v.0 >= 0) != low_nonneg,
                _ => false,
            }),
        decreases 128 - iter,
    {
        let width = (high - low) as u128;
        let mid = low + ((width / 2) as i128);
        assert(mid as int == low as int + (high as int - low as int) / 2);
        let mid_rate = ExactDecimal { mantissa: mid, scale: 18 };
        proof {
            lemma_pow10_values();
        }
        let npv_mid = match npv_for_rate(input, &mid_rate) {
            Ok(v) => v,
            Err(e) => {
                return Err(e);
            },
        };
        let magnitude = if npv_mid.mantissa >= 0 {
            npv_mid.mantissa
        } else {
            -npv_mid.mantissa
        };
        proof {
            assert(magnitude as int * 10000000 < spec_max_mantissa() * 10000000)
                by (nonlinear_arith)
                requires
                    0 <= magnitude as int,
                    (magnitude as int) < spec_max_mantissa(),
            ;
        }
        let lhs = magnitude * 10000000i128;
        let rhs = pow10_i128(npv_mid.scale);
        if lhs < rhs {
            return Ok(Some(rate_to_bps(mid)));
        }
        if (npv_mid.mantissa >= 0) == low_nonneg {
            low = mid;
        } else {
            high = mid;
        }
        iter = iter + 1;
    }
    let width = (high - low) as u128;
    let mid = low + ((width / 2) as i128);
    assert(mid as int == low as int + (high as int - low as int) / 2);
    Ok(Some(rate_to_bps(mid)))
}

/// The full valuation: the net present value of the schedule at its own
/// discount rate, encoded as money, together with the internal rate of
/// return when one exists. A failure of either half fails the whole
/// call; there is no partial output.
pub fn npv(input: &DcfInput) -> (r: Result<DcfOutput, EngineError>)
    ensures
        match spec_npv(*input, input.discount_rate_bps as int, 4) {
            NpvOutcome::BadMoney(s) => r matches Err(e) && e matches EngineError::InvalidMoney(t)
                && t@ == s,
            NpvOutcome::ArithOverflow => r matches Err(e) && e is Overflow,
            NpvOutcome::Value(v) => {
                let micros = micros_of(v.0, v.1);
                if !(-spec_max_mantissa() < micros && micros < spec_max_mantissa()) {
                    r matches Err(e) && e is Overflow
                } else {
                    match spec_irr(*input) {
                        IrrOutcome::BadMoney(s) => r matches Err(e) && e
                            matches EngineError::InvalidMoney(t) && t@ == s,
                        IrrOutcome::ArithOverflow => r matches Err(e) && e is Overflow,
                        IrrOutcome::NoRoot => r matches Ok(out) && out.npv.micro@
                            == spec_int_string(micros) && out.irr_bps is None,
                        IrrOutcome::Root(b) => r matches Ok(out) && out.npv.micro@
                            == spec_int_string(micros) && (out.irr_bps matches Some(x) && x as int
                            == b),
                    }
                }
            },
        },
{
    let rate = ExactDecimal { mantissa: input.discount_rate_bps as i128, scale: 4 };
    let npv_dec = match npv_for_rate(input, &rate) {
        Ok(v) => v,
        Err(e) => {
            return Err(e);
        },
    };
    let npv_money = match Money::from_decimal(&npv_dec) {
        Ok(w) => w,
        Err(e) => {
            return Err(e);
        },
    };
    let irr_bps = match calculate_irr(input) {
        Ok(o) => o,
        Err(e) => {
            return Err(e);
        },
    };
    Ok(DcfOutput { npv: npv_money, irr_bps })
}

/// The internal rate of return alone; a schedule without a root in the
/// search bracket is a distinct "not found" failure, not an overflow.
pub fn irr(input: &DcfInput) -> (r: Result<i32, EngineError>)
    ensures
        match spec_irr(*input) {
            IrrOutcome::NoRoot => r matches Err(e) && e is IrrNotFound,
            IrrOutcome::Root(b) => r matches Ok(bps) && bps as int == b,
            IrrOutcome::BadMoney(s) => r matches Err(e) && e matches EngineError::InvalidMoney(t)
                && t@ == s,
            IrrOutcome::ArithOverflow => r matches Err(e) && e is Overflow,
        },
{
    match calculate_irr(input) {
        Err(e) => Err(e),
        Ok(None) => Err(EngineError::IrrNotFound),
        Ok(Some(b)) => Ok(b),
    }
}

/// Law of the empty schedule: with no cash flows the net present value
/// is exactly zero at every rate, and the rate search reports no root.
pub proof fn lemma_empty_schedule(input: DcfInput, rm: int, rs: int)
    requires
        input.cashflows@.len() == 0,
    ensures
        spec_npv(input, rm, rs) == NpvOutcome::Value((0int, 0int)),
        spec_irr(input) == IrrOutcome::NoRoot,
{
}

/// Law of bracket rejection: when the net present value carries the same
/// sign at both ends of the search bracket — both non-negative or both
/// negative — the search reports no root rather than an estimate.
pub proof fn lemma_same_sign_no_root(input: DcfInput, l: (int, int), h: (int, int))
    requires
        input.cashflows@.len() > 0,
        spec_npv(input, spec_low_rate(), 18) == NpvOutcome::Value(l),
        spec_npv(input, spec_high_rate(), 18) == NpvOutcome::Value(h),
        (l.0 >= 0) == (h.0 >= 0),
    ensures
        spec_irr(input) == IrrOutcome::NoRoot,
{
}

/// Law of the saturating conversion: a basis-point count beyond either
/// 32-bit bound comes back as that bound itself, never wrapped around.
pub proof fn lemma_clamp_saturates(v: int)
    ensures
        v > 0x7fffffff ==> spec_clamp_to_i32(v) == 0x7fffffff,
        v < -0x80000000 ==> spec_clamp_to_i32(v) == -0x80000000,
        -0x80000000 <= v <= 0x7fffffff ==> spec_clamp_to_i32(v) == v,
{
}

} // verus!
