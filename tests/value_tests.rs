use flexi_engine::value::{Decimal, Value};

fn number(negative: bool, digits: Vec<u8>, exponent: i64) -> Value {
    Value::Number(Decimal { negative, digits, exponent })
}

#[test]
fn test_value_string() {
    let str = "name".to_string();
    let expected = Value::String(str.clone());
    assert_eq!(Value::value(str), expected)
}

#[test]
fn test_value_decimal() {
    let str = "4".to_string();
    let expected = number(false, vec![4], 0);
    assert_eq!(Value::value(str), expected)
}

#[test]
fn value_reads_fraction_in_canonical_form() {
    assert_eq!(Value::value("1.50".to_string()), number(false, vec![1, 5], -1));
    assert_eq!(Value::value("-12.5".to_string()), number(true, vec![1, 2, 5], -1));
}

#[test]
fn value_reads_trailing_zeros_into_exponent() {
    assert_eq!(Value::value("1200".to_string()), number(false, vec![1, 2], 2));
    assert_eq!(Value::value("1e3".to_string()), number(false, vec![1], 3));
}

#[test]
fn value_reads_zero_without_sign() {
    let zero = number(false, vec![], 0);
    assert_eq!(Value::value("0".to_string()), zero);
    assert_eq!(Value::value("-0.00".to_string()), zero);
}

#[test]
fn value_keeps_non_numbers_as_text() {
    assert_eq!(Value::value("12abc".to_string()), Value::String("12abc".to_string()));
    assert_eq!(Value::value("".to_string()), Value::String("".to_string()));
}

#[test]
fn numbers_order_by_value() {
    let one = Value::value("1".to_string());
    let two = Value::value("2".to_string());
    let ten = Value::value("10".to_string());
    let half = Value::value("0.5".to_string());
    let minus_three = Value::value("-3".to_string());
    let minus_twenty = Value::value("-20".to_string());
    let zero = Value::value("0".to_string());
    assert!(one.less_than(&two));
    assert!(two.less_than(&ten));
    assert!(!ten.less_than(&two));
    assert!(half.less_than(&one));
    assert!(minus_three.less_than(&zero));
    assert!(minus_twenty.less_than(&minus_three));
    assert!(zero.less_than(&half));
    assert!(!one.less_than(&one));
}

#[test]
fn numbers_come_before_text_and_text_orders_by_bytes() {
    let n = Value::value("99".to_string());
    let a = Value::String("apple".to_string());
    let b = Value::String("banana".to_string());
    let ap = Value::String("app".to_string());
    assert!(n.less_than(&a));
    assert!(!a.less_than(&n));
    assert!(a.less_than(&b));
    assert!(ap.less_than(&a));
    assert!(!b.less_than(&a));
}

#[test]
fn equal_values_compare_same() {
    assert!(Value::value("1.0".to_string()).same(&Value::value("1".to_string())));
    assert!(!Value::value("1".to_string()).same(&Value::String("1".to_string())));
}
