use neutral_grid::amount::{
    apart, clamp_amount, divide_rounded, multiply, parse_amount, parse_or_zero, round_to_step,
    LIMIT, SCALE,
};
use neutral_grid::decimal::{decimals_needed, fixed_to_text, show_amount};
use neutral_grid::geometry::format_float;
use neutral_grid::wide::{round_signed, unsigned, Wide};

#[test]
fn amounts_are_read_from_text() {
    assert_eq!(parse_amount("0"), Some(0));
    assert_eq!(parse_amount("12.5"), Some(12 * SCALE + SCALE / 2));
    assert_eq!(parse_amount("-0.01"), Some(-SCALE / 100));
    assert_eq!(parse_amount("+3"), Some(3 * SCALE));
    assert_eq!(parse_amount(".5"), Some(SCALE / 2));
    assert_eq!(parse_amount("5."), Some(5 * SCALE));
    assert_eq!(parse_amount("1e3"), Some(1000 * SCALE));
    assert_eq!(parse_amount("25E-1"), Some(25 * SCALE / 10));
}

#[test]
fn what_is_no_amount_is_refused() {
    for text in ["", ".", "+", "-", "e5", "1e", "1.2.3", "1,5", " 1", "1 ", "0x10", "nan", "--1"] {
        assert_eq!(parse_amount(text), None, "{}", text);
        assert_eq!(parse_or_zero(text), 0);
    }
}

#[test]
fn huge_amounts_are_cut_off() {
    assert_eq!(parse_amount("1e400"), Some(LIMIT));
    assert_eq!(parse_amount("-inf"), Some(-LIMIT));
    assert_eq!(parse_amount("Infinity"), Some(LIMIT));
    assert_eq!(parse_amount("1e-400"), Some(0));
    assert_eq!(clamp_amount(LIMIT + 1), LIMIT);
    assert_eq!(clamp_amount(-LIMIT - 1), -LIMIT);
    assert_eq!(clamp_amount(7), 7);
}

#[test]
fn reading_agrees_with_floats() {
    for text in ["3100", "2500.75", "0.004", "-17.25", "1e-3", "99999.125"] {
        let units = parse_amount(text).unwrap();
        let float: f64 = text.parse().unwrap();
        assert_eq!((float * SCALE as f64).round() as i128, units, "{}", text);
    }
}

#[test]
fn halves_are_rounded_away_from_zero() {
    assert_eq!(divide_rounded(5, 2), 3);
    assert_eq!(divide_rounded(-5, 2), -3);
    assert_eq!(divide_rounded(7, 3), 2);
    assert_eq!(divide_rounded(-7, 3), -2);
    assert_eq!(round_to_step(125, 50), 150);
    assert_eq!(round_to_step(-125, 50), -150);
    assert_eq!(round_to_step(124, 50), 100);
}

#[test]
fn amounts_are_multiplied() {
    assert_eq!(multiply(3 * SCALE, SCALE / 2), 15 * SCALE / 10);
    assert_eq!(multiply(-3 * SCALE, SCALE / 2), -15 * SCALE / 10);
    assert_eq!(multiply(1, SCALE / 2), 1);
    assert_eq!(multiply(1, SCALE / 2 - 1), 0);
    assert_eq!(multiply(LIMIT, LIMIT), LIMIT);
    assert_eq!(multiply(LIMIT, -LIMIT), -LIMIT);
}

#[test]
fn amounts_are_compared() {
    assert!(apart(10, 21, 10));
    assert!(!apart(10, 20, 10));
    assert!(apart(21, 10, 10));
}

#[test]
fn needed_decimals_are_the_fewest() {
    assert_eq!(decimals_needed(SCALE / 100), 2);
    assert_eq!(decimals_needed(SCALE / 10), 1);
    assert_eq!(decimals_needed(5 * SCALE), 0);
    assert_eq!(decimals_needed(1), 10);
    assert_eq!(decimals_needed(0), 0);
    assert_eq!(decimals_needed(-SCALE / 4), 2);
}

#[test]
fn amounts_are_written() {
    assert_eq!(show_amount(SCALE / 100), "0.01");
    assert_eq!(show_amount(-12 * SCALE - SCALE / 2), "-12.5");
    assert_eq!(show_amount(0), "0");
    assert_eq!(show_amount(1), "0.0000000001");
    assert_eq!(fixed_to_text(2_345_000_000, 9, 2), "2.34");
    assert_eq!(fixed_to_text(2_355_000_000, 9, 2), "2.36");
    assert_eq!(fixed_to_text(2_355_000_001, 9, 2), "2.36");
    assert_eq!(fixed_to_text(-5, 1, 3), "-0.500");
    assert_eq!(fixed_to_text(99, 1, 0), "10");
}

#[test]
fn a_written_amount_is_read_back() {
    for x in [0, 1, -1, SCALE, -SCALE / 8, 31_415_926_535, LIMIT, -LIMIT] {
        assert_eq!(parse_amount(&show_amount(x)), Some(x));
        assert_eq!(parse_amount(&fixed_to_text(x, 10, 10)), Some(x));
    }
}

#[test]
fn a_multiple_of_the_step_is_read_back() {
    let step = SCALE / 20;
    for count in [-3, 0, 1, 7, 62_001] {
        let text = format_float(count * step, step, decimals_needed(step));
        assert_eq!(parse_amount(&text), Some(count * step));
    }
}

#[test]
fn formatting_is_stable() {
    for (val, step, decimals) in [
        (278_388_218_138, SCALE / 100, 2),
        (278_388_218_138, SCALE / 100, 13),
        (-5 * SCALE - 7, SCALE / 20, 2),
        (SCALE / 2, SCALE, 0),
        (3, 1, 10),
    ] {
        let text = format_float(val, step, decimals);
        let digits = text.split('.').nth(1).map_or(0, |d| d.len());
        assert_eq!(digits, decimals);
        let back = parse_amount(&text).unwrap();
        assert_eq!(back, round_to_step(val, step));
        assert_eq!(format_float(back, step, decimals), text);
    }
}

#[test]
fn wide_numbers() {
    let a = Wide::new(u128::MAX).times(u128::MAX);
    let b = Wide::new(1).plus(&a);
    assert!(a.minus(&b).is_none());
    assert_eq!(b.minus(&a).unwrap().times(3 * SCALE as u128).round_down(1), 3);
    assert_eq!(a.round_down(3), LIMIT as u128);
    assert_eq!(Wide::new(15 * SCALE as u128 / 10).round_down(1), 2);
    assert_eq!(Wide::new(15 * SCALE as u128 / 10 - 1).round_down(1), 1);
    assert_eq!(Wide::new(0).round_down(2), 0);
    assert_eq!(round_signed(&Wide::new(5 * SCALE as u128 / 2), true, 1), -3);
    assert_eq!(unsigned(-7), 7);
}

#[test]
fn floats_are_formatted_to_the_step() {
    let tick = SCALE / 100;
    assert_eq!(format_float(278_388_218_138, tick, 2), "27.84");
    assert_eq!(format_float(27 * SCALE, tick, 2), "27.00");
    assert_eq!(format_float(-27 * SCALE - tick / 2, tick, 2), "-27.01");
    assert_eq!(format_float(3 * SCALE, 2 * SCALE, 0), "4");
}
