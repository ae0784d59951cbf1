use condition_eval::{evaluate, Number, Value};

fn text(s: &str) -> Value {
    Value::String(s.to_string())
}

fn number(s: &str) -> Value {
    Value::Number(Number::parse(s).unwrap())
}

fn array(items: Vec<Value>) -> Value {
    Value::Array(items)
}

fn object(entries: Vec<(&str, Value)>) -> Value {
    Value::Object(entries.into_iter().map(|(k, v)| (k.to_string(), v)).collect())
}

#[test]
fn test_evaluate_binary_expressions() {
    let vars = object(vec![
        ("use_max_budget", Value::Bool(false)),
        ("coverage_type", text("Graded")),
    ]);

    assert!(evaluate("use_max_budget == false", &vars));
    assert!(!evaluate("use_max_budget == true", &vars));
    assert!(evaluate("coverage_type == 'Graded'", &vars));
    assert!(evaluate("coverage_type != 'Standard'", &vars));
}

#[test]
fn test_evaluate_contains() {
    let vars = object(vec![
        ("product_types", array(vec![text("FEX"), text("Term")])),
        ("description", text("Final Expense")),
    ]);

    assert!(evaluate("contains(product_types, 'FEX')", &vars));
    assert!(!evaluate("contains(product_types, 'MedSup')", &vars));
    assert!(evaluate("contains(description, 'Expense')", &vars));
}

#[test]
fn test_evaluate_starts_with() {
    let vars = object(vec![
        ("name", text("John Doe")),
    ]);
    assert!(evaluate("startsWith(name, 'John')", &vars));
    assert!(!evaluate("startsWith(name, 'Doe')", &vars));
}

#[test]
fn test_evaluate_ends_with() {
    let vars = object(vec![
        ("name", text("John Doe")),
    ]);
    assert!(evaluate("endsWith(name, 'Doe')", &vars));
    assert!(!evaluate("endsWith(name, 'John')", &vars));
}

#[test]
fn test_string_with_spaces() {
    let vars = object(vec![
        ("quote_type", text("Face Amount")),
    ]);

    assert!(evaluate("quote_type == 'Face Amount'", &vars));
    assert!(!evaluate("quote_type == 'Monthly Amount'", &vars));
}

#[test]
fn test_invalid_expressions() {
    let vars = object(vec![]);
    assert!(!evaluate("invalid expression", &vars)); // Invalid format
    assert!(!evaluate("unsupported(a, b)", &vars)); // Unsupported function
    assert!(!evaluate("var.not.found == true", &vars)); // Variable not found
}

#[test]
fn test_negation_contains() {
    let vars = object(vec![
        ("product_types", array(vec![text("FEX"), text("Term")])),
        ("description", text("Final Expense")),
    ]);

    assert!(!evaluate("!contains(product_types, 'FEX')", &vars));
    assert!(evaluate("!contains(product_types, 'MedSup')", &vars));
    assert!(!evaluate("!contains(description, 'Expense')", &vars));
    assert!(evaluate("!contains(description, 'Medical')", &vars));
}

#[test]
fn test_negation_starts_with() {
    let vars = object(vec![
        ("name", text("John Doe")),
    ]);
    assert!(!evaluate("!startsWith(name, 'John')", &vars));
    assert!(evaluate("!startsWith(name, 'Doe')", &vars));
}

#[test]
fn test_negation_ends_with() {
    let vars = object(vec![
        ("name", text("John Doe")),
    ]);
    assert!(!evaluate("!endsWith(name, 'Doe')", &vars));
    assert!(evaluate("!endsWith(name, 'John')", &vars));
}

#[test]
fn test_negation_binary_expressions() {
    let vars = object(vec![
        ("use_max_budget", Value::Bool(false)),
        ("coverage_type", text("Graded")),
        ("enabled", Value::Bool(true)),
    ]);

    assert!(!evaluate("!use_max_budget == false", &vars));
    assert!(evaluate("!use_max_budget == true", &vars));
    assert!(!evaluate("!coverage_type == 'Graded'", &vars));
    assert!(evaluate("!coverage_type == 'Standard'", &vars));
    assert!(evaluate("!coverage_type != 'Graded'", &vars));
    assert!(!evaluate("!coverage_type != 'Standard'", &vars));
    assert!(!evaluate("!enabled == true", &vars));
    assert!(evaluate("!enabled == false", &vars));
}

#[test]
fn test_negation_with_whitespace() {
    let vars = object(vec![
        ("product_types", array(vec![text("FEX"), text("Term")])),
    ]);

    assert!(evaluate("! contains(product_types, 'MedSup')", &vars));
    assert!(evaluate("!  contains(product_types, 'MedSup')", &vars));
    assert!(evaluate("  !contains(product_types, 'MedSup')", &vars));
    assert!(evaluate("  ! contains(product_types, 'MedSup')", &vars));
    assert!(evaluate("  !  contains(product_types, 'MedSup')  ", &vars));
}

#[test]
fn test_double_negation() {
    let vars = object(vec![
        ("product_types", array(vec![text("FEX"), text("Term")])),
    ]);

    assert!(evaluate("!!contains(product_types, 'FEX')", &vars));
    assert!(!evaluate("!!contains(product_types, 'MedSup')", &vars));
}

#[test]
fn test_triple_negation() {
    let vars = object(vec![
        ("product_types", array(vec![text("FEX"), text("Term")])),
    ]);

    assert!(!evaluate("!!!contains(product_types, 'FEX')", &vars));
    assert!(evaluate("!!!contains(product_types, 'MedSup')", &vars));
}

#[test]
fn test_negation_with_missing_variables() {
    let vars = object(vec![]);
    assert!(evaluate("!contains(missing_var, 'value')", &vars));
    assert!(evaluate("!missing_var == 'value'", &vars));
    assert!(evaluate("!startsWith(missing_var, 'test')", &vars));
}

#[test]
fn test_negation_edge_cases() {
    let vars = object(vec![
        ("empty_array", array(vec![])),
        ("empty_string", text("")),
        ("null_value", Value::Null),
    ]);

    assert!(evaluate("!contains(empty_array, 'anything')", &vars));
    assert!(evaluate("!contains(empty_string, 'anything')", &vars));
    assert!(evaluate("!startsWith(empty_string, 'test')", &vars));
    assert!(evaluate("!endsWith(empty_string, 'test')", &vars));
    assert!(evaluate("!null_value == 'test'", &vars));
}

#[test]
fn test_complex_negation_scenarios() {
    let vars = object(vec![
        ("product_types", array(vec![text("FEX"), text("Term"), text("MedSup")])),
        ("quote_type", text("Face Amount")),
        ("enabled", Value::Bool(true)),
        ("user_name", text("John Smith")),
    ]);

    assert!(!evaluate("!contains(product_types, 'FEX')", &vars));
    assert!(evaluate("!contains(product_types, 'Preneed')", &vars));
    assert!(!evaluate("!quote_type == 'Face Amount'", &vars));
    assert!(evaluate("!quote_type == 'Monthly Amount'", &vars));
    assert!(evaluate("!startsWith(user_name, 'Jane')", &vars));
    assert!(!evaluate("!endsWith(user_name, 'Smith')", &vars));
}

#[test]
fn test_negation_preserves_original_functionality() {
    let vars = object(vec![
        ("product_types", array(vec![text("FEX"), text("Term")])),
        ("quote_type", text("Face Amount")),
        ("enabled", Value::Bool(true)),
    ]);

    assert!(evaluate("contains(product_types, 'FEX')", &vars));
    assert!(!evaluate("contains(product_types, 'MedSup')", &vars));
    assert!(evaluate("quote_type == 'Face Amount'", &vars));
    assert!(!evaluate("quote_type == 'Monthly Amount'", &vars));
    assert!(evaluate("enabled == true", &vars));
    assert!(!evaluate("enabled == false", &vars));

    assert!(!evaluate("!contains(product_types, 'FEX')", &vars));
    assert!(evaluate("!contains(product_types, 'MedSup')", &vars));
    assert!(!evaluate("!quote_type == 'Face Amount'", &vars));
    assert!(evaluate("!quote_type == 'Monthly Amount'", &vars));
    assert!(!evaluate("!enabled == true", &vars));
    assert!(evaluate("!enabled == false", &vars));
}

#[test]
fn test_always_function() {
    let vars = object(vec![
        ("some_var", text("some_value")),
    ]);

    assert!(evaluate("always()", &vars));

    let empty_vars = object(vec![]);
    assert!(evaluate("always()", &empty_vars));

    let null_vars = Value::Null;
    assert!(evaluate("always()", &null_vars));
}

#[test]
fn test_always_function_with_whitespace() {
    let vars = object(vec![]);

    assert!(evaluate("always()", &vars));
    assert!(evaluate("always( )", &vars));
    assert!(evaluate("always(  )", &vars));
    assert!(evaluate(" always() ", &vars));
    assert!(evaluate("  always()  ", &vars));
}

#[test]
fn test_always_function_with_arguments_should_fail() {
    let vars = object(vec![]);

    assert!(!evaluate("always(arg)", &vars));
    assert!(!evaluate("always('test')", &vars));
    assert!(!evaluate("always(var1, var2)", &vars));
}

#[test]
fn test_negation_of_always() {
    let vars = object(vec![]);

    assert!(!evaluate("!always()", &vars));
    assert!(!evaluate("! always()", &vars));
    assert!(!evaluate("  !always()  ", &vars));
    assert!(evaluate("!!always()", &vars));
}

#[test]
fn test_simple_boolean_variables() {
    let vars = object(vec![
        ("enabled", Value::Bool(true)),
        ("disabled", Value::Bool(false)),
        ("env", object(vec![
            ("troubleshooting", Value::Bool(false)),
            ("needs_login", text("true")),
        ])),
    ]);

    assert!(evaluate("enabled", &vars));
    assert!(!evaluate("disabled", &vars));
    assert!(!evaluate("!enabled", &vars));
    assert!(evaluate("!disabled", &vars));
    assert!(!evaluate("env.troubleshooting", &vars));
    assert!(evaluate("!env.troubleshooting", &vars));
    assert!(evaluate(
        "env.needs_login == 'true' && !env.troubleshooting",
        &vars
    ));
    assert!(!evaluate(
        "env.needs_login == 'true' && env.troubleshooting",
        &vars
    ));
}

#[test]
fn test_truthiness_of_different_types() {
    let vars = object(vec![
        ("empty_string", text("")),
        ("non_empty_string", text("hello")),
        ("false_string", text("false")),
        ("zero_string", text("0")),
        ("zero_number", number("0")),
        ("positive_number", number("42")),
        ("negative_number", number("-1")),
        ("empty_array", array(vec![])),
        ("non_empty_array", array(vec![number("1"), number("2"), number("3")])),
        ("empty_object", object(vec![])),
        ("non_empty_object", object(vec![
            ("key", text("value")),
        ])),
        ("null_value", Value::Null),
    ]);

    assert!(!evaluate("empty_string", &vars));
    assert!(evaluate("non_empty_string", &vars));
    assert!(!evaluate("false_string", &vars));
    assert!(!evaluate("zero_string", &vars));
    assert!(!evaluate("zero_number", &vars));
    assert!(evaluate("positive_number", &vars));
    assert!(evaluate("negative_number", &vars));
    assert!(!evaluate("empty_array", &vars));
    assert!(evaluate("non_empty_array", &vars));
    assert!(!evaluate("empty_object", &vars));
    assert!(evaluate("non_empty_object", &vars));
    assert!(!evaluate("null_value", &vars));
}

#[test]
fn test_smart_quotes_normalization() {
    let vars = object(vec![
        ("env", object(vec![
            ("needs_login", text("true")),
            ("status", text("active")),
        ])),
    ]);

    // Test with smart single quotes (common from copy-paste)
    assert!(evaluate("env.needs_login == \u{2018}true\u{2019}", &vars)); // Left and right smart singles
    assert!(evaluate("env.needs_login == \u{2019}true\u{2018}", &vars)); // Mixed smart singles
    assert!(evaluate("env.status == \u{2018}active\u{2019}", &vars)); // Smart singles

    // Test with regular quotes still work
    assert!(evaluate("env.needs_login == 'true'", &vars));
    assert!(evaluate("env.status == 'active'", &vars));
}

#[test]
fn test_double_quotes_support() {
    let vars = object(vec![
        ("env", object(vec![
            ("needs_login", text("true")),
            ("status", text("active")),
        ])),
    ]);

    // Test with double quotes
    assert!(evaluate("env.needs_login == \"true\"", &vars));
    assert!(evaluate("env.status == \"active\"", &vars));

    // Test with smart double quotes
    assert!(evaluate("env.needs_login == \u{201C}true\u{201D}", &vars));
    assert!(evaluate("env.status == \u{201C}active\u{201D}", &vars));
}

#[test]
fn test_type_coercion_string_bool() {
    let vars = object(vec![
        ("string_true", text("true")),
        ("string_false", text("false")),
        ("bool_true", Value::Bool(true)),
        ("bool_false", Value::Bool(false)),
        ("string_one", text("1")),
        ("string_zero", text("0")),
    ]);

    // String "true" compared with boolean
    assert!(evaluate("string_true == 'true'", &vars));
    assert!(evaluate("string_false == 'false'", &vars));

    // Boolean compared with string (smart comparison)
    assert!(evaluate("bool_true == 'true'", &vars));
    assert!(evaluate("bool_false == 'false'", &vars));
    assert!(evaluate("bool_true == '1'", &vars));
    assert!(evaluate("bool_false == '0'", &vars));
}

#[test]
fn test_backticks_normalized() {
    let vars = object(vec![
        ("env", object(vec![
            ("needs_login", text("true")),
        ])),
    ]);

    // Test backticks are converted to single quotes
    assert!(evaluate("env.needs_login == `true`", &vars));
}

#[test]
fn test_unicode_spaces_normalized() {
    let vars = object(vec![
        ("env", object(vec![
            ("status", text("active")),
        ])),
    ]);

    // Test with non-breaking space (common from web copy)
    assert!(evaluate("env.status\u{00A0}==\u{00A0}'active'", &vars));

    // Test with thin space
    assert!(evaluate("env.status\u{2009}==\u{2009}'active'", &vars));
}

#[test]
fn test_undefined_variables_with_equality() {
    let vars = object(vec![
        ("existing_var", text("success")),
    ]);

    // Undefined variable with == should return false
    assert!(!evaluate("undefined_var == 'success'", &vars));
    assert!(!evaluate("undefined_var == 'failed'", &vars));
    assert!(!evaluate("undefined_var == true", &vars));
    assert!(!evaluate("undefined_var == false", &vars));

    // Existing variable should work normally
    assert!(evaluate("existing_var == 'success'", &vars));
    assert!(!evaluate("existing_var == 'failed'", &vars));
}

#[test]
fn test_undefined_variables_with_inequality() {
    let vars = object(vec![
        ("existing_var", text("success")),
    ]);

    // Undefined variable with != should return true (undefined is always not equal)
    assert!(evaluate("undefined_var != 'success'", &vars));
    assert!(evaluate("undefined_var != 'failed'", &vars));
    assert!(evaluate("undefined_var != true", &vars));
    assert!(evaluate("undefined_var != false", &vars));

    // Existing variable should work normally
    assert!(!evaluate("existing_var != 'success'", &vars));
    assert!(evaluate("existing_var != 'failed'", &vars));
}

#[test]
fn test_workflow_use_case_undefined_status() {
    // Simulates the actual workflow scenario where click_copy_table_status doesn't exist yet
    let vars = object(vec![
        ("right_click_table_status", text("success")),
    ]);

    // This is the condition that was failing: click_copy_table_status != "success"
    // When undefined, should return true (not equal to "success")
    assert!(evaluate("click_copy_table_status != \"success\"", &vars));

    // Once the step runs and succeeds
    let vars_after = object(vec![
        ("right_click_table_status", text("success")),
        ("click_copy_table_status", text("success")),
    ]);

    // Now it should return false (is equal to "success")
    assert!(!evaluate(
        "click_copy_table_status != \"success\"",
        &vars_after
    ));
}

#[test]
fn test_numeric_comparisons() {
    let vars = object(vec![
        ("count", number("5")),
        ("price", number("10.5")),
        ("zero", number("0")),
        ("negative", number("-3")),
    ]);

    // Greater than
    assert!(evaluate("count > 3", &vars));
    assert!(!evaluate("count > 10", &vars));
    assert!(evaluate("price > 10", &vars));
    assert!(evaluate("price > 10.0", &vars));

    // Less than
    assert!(evaluate("count < 10", &vars));
    assert!(!evaluate("count < 3", &vars));
    assert!(evaluate("negative < 0", &vars));

    // Greater than or equal
    assert!(evaluate("count >= 5", &vars));
    assert!(evaluate("count >= 3", &vars));
    assert!(!evaluate("count >= 10", &vars));

    // Less than or equal
    assert!(evaluate("count <= 5", &vars));
    assert!(evaluate("count <= 10", &vars));
    assert!(!evaluate("count <= 3", &vars));

    // Zero comparisons (use quotes for equality checks with numbers)
    assert!(evaluate("zero == '0'", &vars));
    assert!(evaluate("zero <= 0", &vars));
    assert!(evaluate("zero >= 0", &vars));
    assert!(!evaluate("zero > 0", &vars));
    assert!(!evaluate("zero < 0", &vars));
}

#[test]
fn test_numeric_comparisons_with_strings() {
    let vars = object(vec![
        ("string_number", text("42")),
        ("string_float", text("3.14")),
    ]);

    // String numbers should be parsed and compared
    assert!(evaluate("string_number > 40", &vars));
    assert!(evaluate("string_number < 50", &vars));
    assert!(evaluate("string_number >= 42", &vars));
    assert!(evaluate("string_number <= 42", &vars));

    assert!(evaluate("string_float > 3", &vars));
    assert!(evaluate("string_float < 4", &vars));
}

#[test]
fn test_numeric_comparisons_with_quoted_numbers() {
    let vars = object(vec![
        ("value", number("10")),
    ]);

    // Quoted numbers on RHS should be parsed
    assert!(evaluate("value > '5'", &vars));
    assert!(evaluate("value < '20'", &vars));
    assert!(evaluate("value >= '10'", &vars));
    assert!(evaluate("value <= '10'", &vars));

    // Double quotes too
    assert!(evaluate("value > \"5\"", &vars));
    assert!(evaluate("value < \"20\"", &vars));
}

#[test]
fn test_workflow_parse_float_use_case() {
    // Simulates the workflow condition: parseFloat(balance_difference || "0") > 0.01
    // Note: The parseFloat is done in JavaScript, so we just test the numeric comparison
    let vars = object(vec![
        ("balance_difference", number("0.05")),
    ]);

    assert!(evaluate("balance_difference > 0.01", &vars));
    assert!(!evaluate("balance_difference < 0.01", &vars));

    let vars_balanced = object(vec![
        ("balance_difference", number("0.0")),
    ]);

    assert!(!evaluate("balance_difference > 0.01", &vars_balanced));
}

#[test]
fn test_undefined_variables_with_numeric_comparisons() {
    let vars = object(vec![]);

    // Undefined variable in numeric comparison
    // undefined < anything → true (treat as null/0)
    assert!(evaluate("undefined_var < 10", &vars));
    assert!(evaluate("undefined_var <= 10", &vars));

    // undefined > anything → false
    assert!(!evaluate("undefined_var > 10", &vars));
    assert!(!evaluate("undefined_var >= 10", &vars));
}

#[test]
fn test_boolean_to_number_coercion() {
    let vars = object(vec![
        ("is_true", Value::Bool(true)),
        ("is_false", Value::Bool(false)),
    ]);

    // true should be treated as 1, false as 0
    assert!(evaluate("is_true > 0", &vars));
    assert!(evaluate("is_true >= 1", &vars));
    assert!(!evaluate("is_true > 1", &vars));

    assert!(!evaluate("is_false > 0", &vars));
    assert!(evaluate("is_false >= 0", &vars));
    assert!(evaluate("is_false <= 0", &vars));
}

#[test]
fn test_null_in_numeric_comparisons() {
    let vars = object(vec![
        ("null_value", Value::Null),
    ]);

    // null should be treated as 0
    assert!(!evaluate("null_value > 0", &vars));
    assert!(evaluate("null_value >= 0", &vars));
    assert!(evaluate("null_value <= 0", &vars));
    assert!(evaluate("null_value < 1", &vars));
}
