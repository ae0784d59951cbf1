use condition_eval::{evaluate, Number, Value};

fn text(s: &str) -> Value {
    Value::String(s.to_string())
}

fn number(s: &str) -> Value {
    Value::Number(Number::parse(s).unwrap())
}

fn array(items: Vec<Value>) -> Value {
    Value::Array(items)
}

fn object(entries: Vec<(&str, Value)>) -> Value {
    Value::Object(entries.into_iter().map(|(k, v)| (k.to_string(), v)).collect())
}

#[test]
fn test_coalesce_basic() {
    let vars = object(vec![
        ("x", number("5")),
    ]);
    assert!(evaluate("coalesce(x, 0) > 0", &vars));

    let vars = object(vec![]);
    assert!(!evaluate("coalesce(x, 0) > 0", &vars));
}

#[test]
fn test_coalesce_with_undefined() {
    let vars = object(vec![]);
    assert!(!evaluate("coalesce(missing, 0) > 5", &vars));
    assert!(evaluate("coalesce(missing, 10) > 5", &vars));
}

#[test]
fn test_coalesce_string_default() {
    let vars = object(vec![
        ("status", Value::Null),
    ]);
    assert!(evaluate("coalesce(status, 'pending') == 'pending'", &vars));

    let vars = object(vec![]);
    assert!(evaluate("coalesce(status, 'pending') == 'pending'", &vars));
}

#[test]
fn test_coalesce_multiple_args() {
    let vars = object(vec![
        ("a", Value::Null),
        ("b", number("0")),
        ("c", number("5")),
    ]);
    // coalesce(a, b, c, 10) should return c (first truthy)
    assert!(evaluate("coalesce(a, b, c, 10) == 5", &vars));
}

#[test]
fn test_coalesce_all_falsy() {
    let vars = object(vec![
        ("a", Value::Null),
        ("b", number("0")),
        ("c", Value::Bool(false)),
    ]);
    // All falsy, should use default (100)
    assert!(evaluate("coalesce(a, b, c, 100) == 100", &vars));
}

#[test]
fn test_coalesce_first_truthy() {
    let vars = object(vec![
        ("a", Value::Null),
        ("b", number("42")),
        ("c", number("5")),
    ]);
    // Should return b (first truthy)
    assert!(evaluate("coalesce(a, b, c, 10) == 42", &vars));
}

#[test]
fn test_coalesce_with_numeric_comparison() {
    let vars = object(vec![
        ("fields_checked", number("3")),
    ]);
    assert!(evaluate("coalesce(fields_checked, 0) > 0", &vars));

    let vars = object(vec![]);
    assert!(!evaluate("coalesce(fields_checked, 0) > 0", &vars));
}

#[test]
fn test_coalesce_with_string_comparison() {
    let vars = object(vec![
        ("status", text("success")),
    ]);
    assert!(evaluate("coalesce(status, 'pending') == 'success'", &vars));

    let vars = object(vec![]);
    assert!(evaluate("coalesce(status, 'pending') == 'pending'", &vars));
}

#[test]
fn test_coalesce_inequality() {
    let vars = object(vec![
        ("retry_count", number("5")),
    ]);
    assert!(!evaluate("coalesce(retry_count, 0) < 3", &vars));

    let vars = object(vec![]);
    assert!(evaluate("coalesce(retry_count, 0) < 3", &vars));
}

#[test]
fn test_coalesce_with_logical_operators() {
    let vars = object(vec![
        ("x", number("5")),
        ("y", Value::Null),
    ]);
    assert!(evaluate("coalesce(x, 0) > 0 && coalesce(y, 10) > 5", &vars));
}

#[test]
fn test_coalesce_empty_string_is_falsy() {
    let vars = object(vec![
        ("status", text("")),
    ]);
    // Empty string is falsy, should use default
    assert!(evaluate("coalesce(status, 'default') == 'default'", &vars));
}

#[test]
fn test_coalesce_zero_is_falsy() {
    let vars = object(vec![
        ("count", number("0")),
    ]);
    // Zero is falsy, should use default
    assert!(evaluate("coalesce(count, 10) == 10", &vars));
}

#[test]
fn test_coalesce_false_is_falsy() {
    let vars = object(vec![
        ("flag", Value::Bool(false)),
    ]);
    // False is falsy, should use default
    assert!(evaluate("coalesce(flag, true) == true", &vars));
}
