use stats::digits::{append_fixed, append_int, append_nat, digit_str, is_digit_code, scan_digits, ten_to};

#[test]
fn powers_of_ten() {
    assert_eq!(ten_to(0), 1);
    assert_eq!(ten_to(1), 10);
    assert_eq!(ten_to(3), 1000);
    assert_eq!(ten_to(19), 10_000_000_000_000_000_000);
}

#[test]
fn digit_texts() {
    let all: Vec<&str> = (0u8..10).map(digit_str).collect();
    assert_eq!(all, vec!["0", "1", "2", "3", "4", "5", "6", "7", "8", "9"]);
}

#[test]
fn digit_codes() {
    assert!(is_digit_code(b'0'));
    assert!(is_digit_code(b'9'));
    assert!(!is_digit_code(b'/'));
    assert!(!is_digit_code(b':'));
}

#[test]
fn natural_numbers_in_decimal() {
    let mut out = String::new();
    append_nat(&mut out, 0);
    append_nat(&mut out, 7);
    append_nat(&mut out, 10);
    append_nat(&mut out, 4096);
    assert_eq!(out, "07104096");
    let mut out = String::from("n=");
    append_nat(&mut out, u128::MAX);
    assert_eq!(out, "n=340282366920938463463374607431768211455");
}

#[test]
fn integers_in_decimal() {
    let mut out = String::new();
    append_int(&mut out, -233);
    assert_eq!(out, "-233");
    let mut out = String::new();
    append_int(&mut out, 0);
    assert_eq!(out, "0");
    let mut out = String::new();
    append_int(&mut out, i128::MIN);
    assert_eq!(out, "-170141183460469231731687303715884105728");
    let mut out = String::new();
    append_int(&mut out, i128::MAX);
    assert_eq!(out, "170141183460469231731687303715884105727");
}

#[test]
fn fixed_width_digits() {
    let mut out = String::new();
    append_fixed(&mut out, 5, 3);
    assert_eq!(out, "005");
    let mut out = String::new();
    append_fixed(&mut out, 12345, 2);
    assert_eq!(out, "45");
    let mut out = String::from("x");
    append_fixed(&mut out, 9, 0);
    assert_eq!(out, "x");
}

#[test]
fn digit_runs() {
    assert_eq!(scan_digits("123.45", 0), 3);
    assert_eq!(scan_digits("123.45", 3), 3);
    assert_eq!(scan_digits("123.45", 4), 6);
    assert_eq!(scan_digits("123.45", 6), 6);
    assert_eq!(scan_digits("", 0), 0);
}
