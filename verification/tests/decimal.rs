use xpt_parser::decimal::{append_decimal, append_rendered, digits_of, times_sixteen};

fn decimal(n: u128) -> String {
    let mut out = Vec::new();
    append_decimal(&mut out, n);
    String::from_utf8(out).unwrap()
}

#[test]
fn digits_are_least_significant_first() {
    assert_eq!(digits_of(0), [0]);
    assert_eq!(digits_of(7), [7]);
    assert_eq!(digits_of(10), [0, 1]);
    assert_eq!(digits_of(1203), [3, 0, 2, 1]);
}

#[test]
fn decimal_notation_of_machine_integers() {
    assert_eq!(decimal(0), "0");
    assert_eq!(decimal(9), "9");
    assert_eq!(decimal(10), "10");
    assert_eq!(decimal(1_000_000), "1000000");
    assert_eq!(decimal(u128::MAX), "340282366920938463463374607431768211455");
    assert_eq!(decimal(u64::MAX as u128), u64::MAX.to_string());
}

#[test]
fn sixteen_times_a_number() {
    assert_eq!(times_sixteen(&vec![0]), [0]);
    assert_eq!(times_sixteen(&vec![1]), [6, 1]);
    assert_eq!(times_sixteen(&vec![9]), [4, 4, 1]);
    assert_eq!(times_sixteen(&vec![5, 2, 6]), [0, 0, 0, 0, 1]);
    assert_eq!(times_sixteen(&digits_of(u128::MAX / 16)), digits_of(u128::MAX / 16 * 16));
}

#[test]
fn sixteen_times_beyond_machine_integers() {
    let mut digits = digits_of(1);
    for _ in 0..40 {
        digits = times_sixteen(&digits);
    }
    let mut out = Vec::new();
    append_rendered(&mut out, &digits);
    // two to the power of 160
    assert_eq!(String::from_utf8(out).unwrap(), "1461501637330902918203684832716283019655932542976");
}

#[test]
fn appending_keeps_what_is_there() {
    let mut out = b"n=".to_vec();
    append_decimal(&mut out, 42);
    assert_eq!(out, b"n=42");
    append_rendered(&mut out, &vec![1, 0, 0]);
    assert_eq!(out, b"n=42001");
}
