use raycast::fixed::{fixed_div, fixed_mul, int_sqrt, quot_wide, LIMIT, SCALE};
use raycast::text::push_decimal;

#[test]
fn scale_and_limit() {
    assert_eq!(SCALE, 1_000_000);
    assert_eq!(LIMIT, 1000 * SCALE);
}

#[test]
fn quotient_rounds_toward_zero() {
    assert_eq!(quot_wide(7, 2), 3);
    assert_eq!(quot_wide(-7, 2), -3);
    assert_eq!(quot_wide(6, 2), 3);
    assert_eq!(quot_wide(-6, 2), -3);
    assert_eq!(quot_wide(0, 5), 0);
    assert_eq!(quot_wide(1, 5), 0);
    assert_eq!(quot_wide(-1, 5), 0);
}

#[test]
fn fixed_product() {
    assert_eq!(fixed_mul(2 * SCALE, 3 * SCALE), 6 * SCALE);
    assert_eq!(fixed_mul(-2 * SCALE, 3 * SCALE), -6 * SCALE);
    assert_eq!(fixed_mul(SCALE / 2, SCALE / 2), SCALE / 4);
    assert_eq!(fixed_mul(1, 999_999), 0);
    assert_eq!(fixed_mul(-1, 999_999), 0);
    assert_eq!(fixed_mul(3, 500_000), 1);
}

#[test]
fn fixed_quotient() {
    assert_eq!(fixed_div(SCALE, 4 * SCALE), 250_000);
    assert_eq!(fixed_div(16 * SCALE, 9 * SCALE), 1_777_777);
    assert_eq!(fixed_div(-16 * SCALE, 9 * SCALE), -1_777_777);
    assert_eq!(fixed_div(16 * SCALE, -9 * SCALE), -1_777_777);
    assert_eq!(fixed_div(-16 * SCALE, -9 * SCALE), 1_777_777);
    assert_eq!(fixed_div(0, -3), 0);
}

#[test]
fn integer_square_root() {
    assert_eq!(int_sqrt(0), 0);
    assert_eq!(int_sqrt(1), 1);
    assert_eq!(int_sqrt(2), 1);
    assert_eq!(int_sqrt(3), 1);
    assert_eq!(int_sqrt(4), 2);
    assert_eq!(int_sqrt(99), 9);
    assert_eq!(int_sqrt(100), 10);
    assert_eq!(int_sqrt(1_000_000_000_000), 1_000_000);
    assert_eq!(int_sqrt(999_999_999_999), 999_999);
    assert_eq!(int_sqrt(u128::MAX), u64::MAX);
    let r: u128 = 12_345_678_901_234_567;
    assert_eq!(int_sqrt(r * r), r as u64);
    assert_eq!(int_sqrt(r * r - 1), (r - 1) as u64);
    assert_eq!(int_sqrt(r * r + 2 * r), r as u64);
}

#[test]
fn decimal_text() {
    let cases: [(u64, &str); 7] = [
        (0, "0"),
        (7, "7"),
        (10, "10"),
        (255, "255"),
        (1000, "1000"),
        (1_234_567_890, "1234567890"),
        (u64::MAX, "18446744073709551615"),
    ];
    for (n, text) in cases {
        let mut out = vec![b'>'];
        push_decimal(&mut out, n);
        assert_eq!(out, format!(">{}", text).into_bytes());
    }
}
