use condition_eval::number::Order;
use condition_eval::Number;

fn order(a: &str, b: &str) -> Order {
    Number::parse(a).unwrap().compare(&Number::parse(b).unwrap())
}

#[test]
fn parse_accepts_decimal_texts() {
    for t in [
        "0", "5", "-5", "+5", "007", "10.5", "-3.25", ".5", "5.", "-.5", "+.5", "1e5", "1E5",
        "1e+5", "1e-5", "1.5e3", ".5e1", "5.e1", "0.0", "-0", "1e0", "1e-0", "1e007",
        "123456789012345678901234567890.123456789012345678901234567890",
        "1e999999999999999999", "1e-999999999999999999", "1e000000000000000000000000001",
        "1e1000000000000000000", "1e-1000000000000000000", "1e99999999999999999999999999",
        "0e99999999999999999999999999", "-1.5E-99999999999999999999999999",
    ] {
        assert!(Number::parse(t).is_some(), "{}", t);
    }
}

#[test]
fn parse_rejects_what_is_no_decimal() {
    for t in [
        "", " ", "+", "-", ".", "+.", "e5", ".e5", "1e", "1e+", "1e-", "1e5.0", "1.2.3", "1,5",
        " 1", "1 ", "1 000", "1_000", "0x10", "abc", "1a", "--1", "+-1", "1e--5", "1ee5", "inf",
        "nan", "infinity", "NaN", "१", "1e१",
    ] {
        assert!(Number::parse(t).is_none(), "{}", t);
    }
}

#[test]
fn equal_values_in_different_spellings() {
    assert_eq!(order("100", "1e2"), Order::Equal);
    assert_eq!(order("1.50", "1.5"), Order::Equal);
    assert_eq!(order("0.5", "5e-1"), Order::Equal);
    assert_eq!(order("0", "-0"), Order::Equal);
    assert_eq!(order("0", "0.000"), Order::Equal);
    assert_eq!(order("0e10", "0e-10"), Order::Equal);
    assert_eq!(order("007", "7"), Order::Equal);
    assert_eq!(order("-2.50e1", "-25"), Order::Equal);
    assert_eq!(order("1000000000000000000000", "1e21"), Order::Equal);
    assert_eq!(order("120e-1", "0.12e2"), Order::Equal);
}

#[test]
fn order_of_values() {
    assert_eq!(order("1", "2"), Order::Less);
    assert_eq!(order("2", "1"), Order::Greater);
    assert_eq!(order("-1", "0"), Order::Less);
    assert_eq!(order("0", "-1"), Order::Greater);
    assert_eq!(order("-2", "-1"), Order::Less);
    assert_eq!(order("-1", "-2"), Order::Greater);
    assert_eq!(order("-1", "1"), Order::Less);
    assert_eq!(order("9", "10"), Order::Less);
    assert_eq!(order("10", "9"), Order::Greater);
    assert_eq!(order("0.5", "0.25"), Order::Greater);
    assert_eq!(order("0.05", "0.01"), Order::Greater);
    assert_eq!(order("0.005", "0.01"), Order::Less);
    assert_eq!(order("10.5", "10"), Order::Greater);
    assert_eq!(order("10.5", "10.0"), Order::Greater);
    assert_eq!(order("3.14", "3"), Order::Greater);
    assert_eq!(order("3.14", "4"), Order::Less);
    assert_eq!(order("1e3", "999"), Order::Greater);
    assert_eq!(order("1e3", "1001"), Order::Less);
    assert_eq!(order("1e-3", "0"), Order::Greater);
    assert_eq!(order("-1e-3", "0"), Order::Less);
    assert_eq!(order("123", "1229"), Order::Less);
    assert_eq!(order("123", "12.9"), Order::Greater);
    assert_eq!(order("1230", "123"), Order::Greater);
    assert_eq!(order("0.1", "0.10000000000000000000001"), Order::Less);
    assert_eq!(order("1e999999999999999999", "1e999999999999999998"), Order::Greater);
    assert_eq!(order("1e-999999999999999999", "0"), Order::Greater);
    assert_eq!(order("1e-999999999999999999", "1e999999999999999999"), Order::Less);
    assert_eq!(order("-1e999999999999999999", "1e-999999999999999999"), Order::Less);
}

#[test]
fn nothing_is_rounded() {
    assert_eq!(order("9007199254740993", "9007199254740992"), Order::Greater);
    assert_eq!(order("0.30000000000000004", "0.3"), Order::Greater);
    assert_eq!(order("18446744073709551616", "18446744073709551615"), Order::Greater);
}

#[test]
fn zero_and_one() {
    assert!(!Number::zero().is_nonzero());
    assert!(Number::one().is_nonzero());
    assert_eq!(Number::zero().compare(&Number::one()), Order::Less);
    assert_eq!(Number::one().compare(&Number::parse("1.0").unwrap()), Order::Equal);
    assert_eq!(Number::zero().compare(&Number::parse("-0.0").unwrap()), Order::Equal);
}

#[test]
fn nonzero_is_by_value() {
    for t in ["0", "0.0", "-0", "000", ".0", "0.", "0e9", "-0.000e-9"] {
        assert!(!Number::parse(t).unwrap().is_nonzero(), "{}", t);
    }
    for t in ["1", "-1", "0.5", "1e-9", "0.000000000000000000001", "-0.1"] {
        assert!(Number::parse(t).unwrap().is_nonzero(), "{}", t);
    }
}

#[test]
fn clone_keeps_the_value() {
    let n = Number::parse("-12.5e3").unwrap();
    assert_eq!(n.clone().compare(&n), Order::Equal);
}

#[test]
fn whole_numbers() {
    for v in [0i64, 1, -1, 9, 10, 11, 99, 100, -100, 1234567890, i64::MAX, i64::MIN, i64::MIN + 1] {
        let n = Number::from_i64(v);
        let spelled = Number::parse(&v.to_string()).unwrap();
        assert_eq!(n.compare(&spelled), Order::Equal, "{}", v);
        assert_eq!(n.is_nonzero(), v != 0, "{}", v);
    }
    for v in [0u64, 1, 10, 1000, 9999999999, u64::MAX, u64::MAX - 1, 10_000_000_000_000_000_000] {
        let n = Number::from_u64(v);
        let spelled = Number::parse(&v.to_string()).unwrap();
        assert_eq!(n.compare(&spelled), Order::Equal, "{}", v);
        assert_eq!(n.is_nonzero(), v != 0, "{}", v);
    }
    assert_eq!(Number::from_i64(-5).compare(&Number::from_i64(3)), Order::Less);
    assert_eq!(Number::from_i64(i64::MIN).compare(&Number::from_i64(i64::MAX)), Order::Less);
    assert_eq!(Number::from_u64(u64::MAX).compare(&Number::from_i64(i64::MAX)), Order::Greater);
    assert_eq!(
        Number::from_u64(u64::MAX).compare(&Number::parse("18446744073709551615.5").unwrap()),
        Order::Less
    );
    assert_eq!(Number::from_i64(0).compare(&Number::zero()), Order::Equal);
    assert_eq!(Number::from_u64(1).compare(&Number::one()), Order::Equal);
}

#[test]
fn exponents_beyond_the_limit_count_as_the_limit() {
    assert_eq!(order("1e100000000000000000000", "1e999999999999999999999999"), Order::Equal);
    assert_eq!(order("1e100000000000000000000", "1e99999999999999999999"), Order::Greater);
    assert_eq!(order("1e-100000000000000000000", "1e-999999999999999999999999"), Order::Equal);
    assert_eq!(order("1e-100000000000000000000", "0"), Order::Greater);
    assert_eq!(order("0e999999999999999999999999", "0"), Order::Equal);
    assert_eq!(order("-1e999999999999999999999999", "1e-999999999999999999999999"), Order::Less);
}
