use stats::estimate::{epley_1rm, Ratio};
use stats::weight::Weight;
use stats::workout::estimated_1rm;

fn kg(mantissa: i64, scale: u8) -> Weight {
    Weight { mantissa, scale }
}

#[test]
fn one_repetition_keeps_the_weight() {
    let est = epley_1rm(kg(100, 0), 1);
    assert_eq!(est, Ratio { num: 100, den: 1 });
    assert_eq!(est.round(), 100);
}

#[test]
fn no_repetition_keeps_the_weight() {
    let est = epley_1rm(kg(1025, 1), 0);
    assert_eq!(est, Ratio { num: 1025, den: 10 });
}

#[test]
fn five_repetitions_at_two_hundred() {
    let est = epley_1rm(kg(200, 0), 5);
    assert_eq!(est, Ratio { num: 200 * 35, den: 30 });
    assert_eq!(est.round(), 233);
}

#[test]
fn two_repetitions_follow_the_formula() {
    let est = epley_1rm(kg(15, 0), 2);
    assert_eq!(est, Ratio { num: 15 * 32, den: 30 });
    assert_eq!(est.round(), 16);
}

#[test]
fn fractional_weight_follows_the_formula() {
    let est = epley_1rm(kg(1025, 1), 8);
    assert_eq!(est, Ratio { num: 1025 * 38, den: 300 });
    // 102.5 * 38 / 30 = 129.83...
    assert_eq!(est.round(), 130);
}

#[test]
fn zero_weight_and_zero_repetitions() {
    assert_eq!(estimated_1rm(kg(0, 0), 0), 0);
    assert_eq!(estimated_1rm(kg(0, 0), 12), 0);
    assert_eq!(estimated_1rm(kg(80, 0), 0), 80);
}

#[test]
fn largest_inputs_do_not_overflow() {
    let est = epley_1rm(kg(i64::MAX, 0), u32::MAX);
    assert_eq!(est.num, i64::MAX as i128 * (30 + u32::MAX as i128));
    assert_eq!(est.den, 30);
    let est = epley_1rm(kg(i64::MIN, 0), u32::MAX);
    assert_eq!(est.num, i64::MIN as i128 * (30 + u32::MAX as i128));
    let est = epley_1rm(kg(i64::MAX, 18), 2);
    assert_eq!(est.den, 30_000_000_000_000_000_000);
}

#[test]
fn negative_weight_is_estimated_too() {
    assert_eq!(estimated_1rm(kg(-200, 0), 5), -233);
    assert_eq!(estimated_1rm(kg(-3, 0), 15), -5);
}

#[test]
fn halves_round_away_from_zero() {
    assert_eq!(Ratio { num: 9, den: 2 }.round(), 5);
    assert_eq!(Ratio { num: 5, den: 2 }.round(), 3);
    assert_eq!(Ratio { num: 1, den: 2 }.round(), 1);
    assert_eq!(Ratio { num: -1, den: 2 }.round(), -1);
    assert_eq!(Ratio { num: -9, den: 2 }.round(), -5);
    // 3 * (1 + 15/30) = 4.5
    assert_eq!(estimated_1rm(kg(3, 0), 15), 5);
    // 5 * (1 + 3/30) = 5.5
    assert_eq!(estimated_1rm(kg(5, 0), 3), 6);
}

#[test]
fn below_and_above_a_half() {
    assert_eq!(Ratio { num: 449, den: 100 }.round(), 4);
    assert_eq!(Ratio { num: 451, den: 100 }.round(), 5);
    assert_eq!(Ratio { num: -449, den: 100 }.round(), -4);
    assert_eq!(Ratio { num: -451, den: 100 }.round(), -5);
    assert_eq!(Ratio { num: 1, den: 3 }.round(), 0);
    assert_eq!(Ratio { num: 2, den: 3 }.round(), 1);
}

#[test]
fn whole_numbers_round_to_themselves() {
    assert_eq!(Ratio { num: 233, den: 1 }.round(), 233);
    assert_eq!(Ratio { num: 0, den: 7 }.round(), 0);
    assert_eq!(Ratio { num: 600, den: 30 }.round(), 20);
    assert_eq!(Ratio { num: -600, den: 30 }.round(), -20);
    let once = Ratio { num: 7000, den: 30 }.round();
    assert_eq!(Ratio { num: once, den: 1 }.round(), once);
}

#[test]
fn rounding_at_the_ends_of_the_range() {
    assert_eq!(Ratio { num: i128::MAX, den: 1 }.round(), i128::MAX);
    assert_eq!(Ratio { num: i128::MIN, den: 1 }.round(), i128::MIN);
    assert_eq!(Ratio { num: i128::MIN, den: 2 }.round(), i128::MIN / 2);
    assert_eq!(Ratio { num: i128::MAX, den: 2 }.round(), i128::MAX / 2 + 1);
    // (2^127 - 1) / (2^128 - 1) is just below one half,
    // (2^127 - 1) / (2^128 - 2) is one half
    assert_eq!(Ratio { num: i128::MAX, den: u128::MAX }.round(), 0);
    assert_eq!(Ratio { num: i128::MAX, den: u128::MAX - 1 }.round(), 1);
    assert_eq!(Ratio { num: 1, den: u128::MAX }.round(), 0);
}
