use vlsp::number::{decimal, is_integer, is_number};

#[test]
fn decimals_are_written() {
    assert_eq!(decimal(0), "0");
    assert_eq!(decimal(9), "9");
    assert_eq!(decimal(10), "10");
    assert_eq!(decimal(1203), "1203");
    assert_eq!(decimal(u64::MAX), "18446744073709551615");
}

#[test]
fn integers_are_told_as_std_tells_them() {
    let cases = [
        "", "0", "-0", "+0", "12", "+12", "-12", "--1", "+-1", "-", "+", " 1", "1 ", "1_000", "0x10",
        "9223372036854775807", "9223372036854775808", "-9223372036854775808", "-9223372036854775809",
        "000000000000000000000000000000000000000000001", "99999999999999999999999999999999999999999999",
        "1.0", "1e3", "\u{0663}", "a",
    ];
    for case in cases {
        assert_eq!(is_integer(case), case.parse::<i64>().is_ok(), "{case}");
    }
    assert!(is_integer("-9223372036854775808"));
    assert!(!is_integer("9223372036854775808"));
}

#[test]
fn numbers_are_told_as_std_tells_them() {
    let cases = [
        "", "0", "1", "-1", "+1", "1.", ".5", ".", "-.", "+.5", "1.5", "1.5.2", "1e5", "1E5", "1e+5",
        "1e-5", "1e", "1e+", "e5", ".e5", "1.e5", ".5e1", "1e5.0", "1ee5", "inf", "INF", "-inf",
        "infinity", "Infinity", "+infinity", "infinit", "nan", "NaN", "-nan", "nane", " 1", "1 ", "1_0",
        "0x1", "--1", "+-1", "1e400", "\u{0663}", "i\u{0307}nf", "1d",
    ];
    for case in cases {
        assert_eq!(is_number(case), case.parse::<f64>().is_ok(), "{case}");
    }
    assert!(is_number("-1.5e3"));
    assert!(!is_number("."));
}
