use dcf::decimal::ExactDecimal;
use dcf::engine::{
    calculate_irr, clamp_to_i32, irr, npv, npv_for_rate, rate_to_bps, Cashflow, Compounding,
    DcfInput, EngineError,
};
use dcf::money::{int_to_string, Money};

fn money_from_units(units: f64) -> Money {
    let micros = (units * 1_000_000f64).round() as i128;
    Money {
        micro: micros.to_string(),
    }
}

fn sample_input() -> DcfInput {
    DcfInput {
        as_of_epoch_days: 18_250, // 2020-01-01 roughly
        discount_rate_bps: 800,   // 8%
        compounding: Compounding::Annual,
        cashflows: vec![
            Cashflow {
                date_epoch_days: 18_250,
                amount: money_from_units(-100.0),
            },
            Cashflow {
                date_epoch_days: 18_615,
                amount: money_from_units(60.0),
            },
            Cashflow {
                date_epoch_days: 18_980,
                amount: money_from_units(60.0),
            },
        ],
    }
}

#[test]
fn npv_matches_expected() {
    let input = sample_input();
    let rate = ExactDecimal::new(input.discount_rate_bps as i128, 4).unwrap();
    let npv = npv_for_rate(&input, &rate).unwrap();
    let money = Money::from_decimal(&npv).unwrap();
    // The 8% discount rate sits below this project's internal rate of
    // return near 13%, so the schedule is worth more than it costs.
    assert!(money.micro.parse::<i128>().unwrap() > 0);
}

#[test]
fn irr_exists_for_standard_project() {
    let input = sample_input();
    let irr = calculate_irr(&input).unwrap();
    assert!(irr.is_some());
}

#[test]
fn empty_schedule_has_zero_npv_and_no_irr() {
    let input = DcfInput {
        as_of_epoch_days: 0,
        discount_rate_bps: 800,
        compounding: Compounding::Annual,
        cashflows: vec![],
    };
    for bps in [-5000i128, 0, 800, 25000] {
        let rate = ExactDecimal::new(bps, 4).unwrap();
        let total = npv_for_rate(&input, &rate).unwrap();
        assert_eq!(total.mantissa, 0);
    }
    assert!(calculate_irr(&input).unwrap().is_none());
}

#[test]
fn same_sign_bracket_yields_no_irr() {
    // All inflows: the net present value is positive at both bracket ends.
    let input = DcfInput {
        as_of_epoch_days: 0,
        discount_rate_bps: 500,
        compounding: Compounding::Annual,
        cashflows: vec![
            Cashflow {
                date_epoch_days: 365,
                amount: money_from_units(10.0),
            },
            Cashflow {
                date_epoch_days: 730,
                amount: money_from_units(10.0),
            },
        ],
    };
    assert!(calculate_irr(&input).unwrap().is_none());
    assert!(matches!(irr(&input), Err(EngineError::IrrNotFound)));
}

#[test]
fn irr_converges_for_classic_profile() {
    let input = sample_input();
    let bps = calculate_irr(&input).unwrap().unwrap();
    assert!(bps > 0);
    // The accepted rate, re-used as a discount rate, leaves only the
    // residue of rounding it to a whole basis point.
    let rate = ExactDecimal::new(bps as i128, 4).unwrap();
    let residual = npv_for_rate(&input, &rate).unwrap();
    let magnitude = residual.mantissa.abs();
    // |residual| < 0.01 currency units: magnitude * 10^2 < 10^scale.
    assert!(magnitude * 100 < 10i128.pow(residual.scale));
}

#[test]
fn npv_is_exact_at_zero_rate() {
    let mut input = sample_input();
    input.discount_rate_bps = 0;
    let rate = ExactDecimal::new(0, 4).unwrap();
    let total = npv_for_rate(&input, &rate).unwrap();
    let money = Money::from_decimal(&total).unwrap();
    // -100 + 60 + 60 = 20 units, exactly.
    assert_eq!(money.micro, "20000000");
}

#[test]
fn npv_is_exact_at_hundred_percent() {
    let input = DcfInput {
        as_of_epoch_days: 0,
        discount_rate_bps: 10_000, // 100% annual
        compounding: Compounding::Annual,
        cashflows: vec![
            Cashflow {
                date_epoch_days: 0,
                amount: money_from_units(-100.0),
            },
            Cashflow {
                date_epoch_days: 365,
                amount: money_from_units(60.0),
            },
        ],
    };
    let rate = ExactDecimal::new(10_000, 4).unwrap();
    let total = npv_for_rate(&input, &rate).unwrap();
    let money = Money::from_decimal(&total).unwrap();
    // -100 + 60 / 2 = -70 units, exactly.
    assert_eq!(money.micro, "-70000000");
}

#[test]
fn monthly_compounding_discounts_harder() {
    let input = DcfInput {
        as_of_epoch_days: 0,
        discount_rate_bps: 1_200, // 12% annual, 1% per month
        compounding: Compounding::Monthly,
        cashflows: vec![Cashflow {
            date_epoch_days: 365,
            amount: money_from_units(100.0),
        }],
    };
    let rate = ExactDecimal::new(1_200, 4).unwrap();
    let total = npv_for_rate(&input, &rate).unwrap();
    let money = Money::from_decimal(&total).unwrap();
    let micros: i128 = money.micro.parse().unwrap();
    // 100 / 1.01^12 is about 88.74 units.
    assert!(micros > 88_000_000 && micros < 89_500_000);
}

#[test]
fn non_positive_discount_base_overflows() {
    let input = DcfInput {
        as_of_epoch_days: 0,
        discount_rate_bps: -10_000, // -100% annual: the discount base is zero
        compounding: Compounding::Annual,
        cashflows: vec![Cashflow {
            date_epoch_days: 365,
            amount: money_from_units(10.0),
        }],
    };
    let rate = ExactDecimal::new(-10_000, 4).unwrap();
    assert!(matches!(
        npv_for_rate(&input, &rate),
        Err(EngineError::Overflow)
    ));
    let below = ExactDecimal::new(-15_000, 4).unwrap();
    assert!(matches!(
        npv_for_rate(&input, &below),
        Err(EngineError::Overflow)
    ));
}

#[test]
fn money_round_trips_exactly() {
    for raw in ["123456789", "-5", "0", "79228162514264337593543950335"] {
        let money = Money {
            micro: raw.to_string(),
        };
        let decimal = money.to_decimal().unwrap();
        let back = Money::from_decimal(&decimal).unwrap();
        assert_eq!(back.micro, raw);
    }
    // A leading plus parses but is written back canonically.
    let money = Money {
        micro: "+7".to_string(),
    };
    let back = Money::from_decimal(&money.to_decimal().unwrap()).unwrap();
    assert_eq!(back.micro, "7");
}

#[test]
fn malformed_money_is_rejected() {
    for raw in ["", "12x3", "--4", "1.5", " 7", "79228162514264337593543950336"] {
        let money = Money {
            micro: raw.to_string(),
        };
        match money.to_decimal() {
            Err(EngineError::InvalidMoney(s)) => assert_eq!(s, raw),
            other => panic!("expected invalid money, got {:?}", other),
        }
    }
}

#[test]
fn midpoint_rounds_away_from_zero() {
    // 0.0000005 currency units is half a micro-unit: away from zero.
    let half_up = ExactDecimal::new(5, 7).unwrap();
    assert_eq!(Money::from_decimal(&half_up).unwrap().micro, "1");
    let half_down = ExactDecimal::new(-5, 7).unwrap();
    assert_eq!(Money::from_decimal(&half_down).unwrap().micro, "-1");
    // 2.5 micro-units rounds to 3, not to the even neighbour 2.
    let odd_half = ExactDecimal::new(25, 7).unwrap();
    assert_eq!(Money::from_decimal(&odd_half).unwrap().micro, "3");
    let odd_half_neg = ExactDecimal::new(-25, 7).unwrap();
    assert_eq!(Money::from_decimal(&odd_half_neg).unwrap().micro, "-3");
    // Just under the midpoint stays put.
    let below = ExactDecimal::new(24, 7).unwrap();
    assert_eq!(Money::from_decimal(&below).unwrap().micro, "2");
}

#[test]
fn basis_points_saturate_at_i32_bounds() {
    assert_eq!(clamp_to_i32(2_147_483_648), i32::MAX);
    assert_eq!(clamp_to_i32(-2_147_483_649), i32::MIN);
    assert_eq!(clamp_to_i32(1234), 1234);
    // A rate far beyond the 32-bit basis-point range clamps, never wraps.
    assert_eq!(rate_to_bps(10i128.pow(24)), i32::MAX);
    assert_eq!(rate_to_bps(-(10i128.pow(24))), i32::MIN);
    // An in-range rate rounds to the nearest basis point.
    assert_eq!(rate_to_bps(1_306_650_000_000_000_000), 13067);
}

#[test]
fn facade_returns_both_metrics() {
    let input = sample_input();
    let out = npv(&input).unwrap();
    assert!(out.npv.micro.parse::<i128>().unwrap() > 0);
    assert!(out.irr_bps.is_some());
    let direct = irr(&input).unwrap();
    assert_eq!(out.irr_bps.unwrap(), direct);
}

#[test]
fn repeated_calls_are_bit_identical() {
    let input = sample_input();
    let first = npv(&input).unwrap();
    let second = npv(&input).unwrap();
    assert_eq!(first.npv.micro, second.npv.micro);
    assert_eq!(first.irr_bps, second.irr_bps);
    let irr_first = calculate_irr(&input).unwrap();
    let irr_second = calculate_irr(&input).unwrap();
    assert_eq!(irr_first, irr_second);
}

#[test]
fn micro_strings_encode_signed_integers() {
    assert_eq!(int_to_string(0), "0");
    assert_eq!(int_to_string(-123), "-123");
    assert_eq!(int_to_string(100_000_000), "100000000");
}
