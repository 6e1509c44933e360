use avm2_array::value::{format_int, parse_text_number, Number, Value};

#[test]
fn numbers_format_as_decimal() {
    assert_eq!(format_int(0), "0");
    assert_eq!(format_int(-7), "-7");
    assert_eq!(format_int(1234567890), "1234567890");
    assert_eq!(format_int(i64::MIN), "-9223372036854775808");
    assert_eq!(Value::Number(Number::NaN).coerce_to_string(), "NaN");
    assert_eq!(Value::Undefined.coerce_to_string(), "undefined");
    assert_eq!(Value::Object(3).coerce_to_string(), "[object Object]");
}

#[test]
fn text_reads_as_number() {
    assert_eq!(parse_text_number(""), Number::Int(0));
    assert_eq!(parse_text_number("42"), Number::Int(42));
    assert_eq!(parse_text_number("-42"), Number::Int(-42));
    assert_eq!(parse_text_number("123456789012345678"), Number::Int(123456789012345678));
    assert_eq!(parse_text_number("1234567890123456789"), Number::NaN);
    assert_eq!(parse_text_number("4x"), Number::NaN);
    assert_eq!(parse_text_number("-"), Number::NaN);
}

#[test]
fn conversions_to_integers_wrap() {
    assert_eq!(Value::Number(Number::Int(4294967297)).coerce_to_u32(), 1);
    assert_eq!(Value::Number(Number::Int(-1)).coerce_to_u32(), 4294967295);
    assert_eq!(Value::Number(Number::Int(2147483648)).coerce_to_i32(), -2147483648);
    assert_eq!(Value::Number(Number::NaN).coerce_to_i32(), 0);
    assert_eq!(Value::Bool(true).coerce_to_u32(), 1);
}

#[test]
fn truthiness() {
    assert!(!Value::String(String::new()).coerce_to_boolean());
    assert!(Value::String("0".to_string()).coerce_to_boolean());
    assert!(!Value::Number(Number::Int(0)).coerce_to_boolean());
    assert!(!Value::Number(Number::NaN).coerce_to_boolean());
    assert!(Value::Object(0).coerce_to_boolean());
    assert!(!Value::Null.coerce_to_boolean());
}

#[test]
fn strict_equality_excludes_nan() {
    let nan = Value::Number(Number::NaN);
    assert!(!nan.strict_equals(&nan));
    assert!(Value::String("a".to_string()).strict_equals(&Value::String("a".to_string())));
    assert!(!Value::String("1".to_string()).strict_equals(&Value::Number(Number::Int(1))));
}
