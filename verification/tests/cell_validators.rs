use csv_validator::csv_cell_validators::{
    eval_enum, eval_float, eval_integer, eval_string, float_result, parse_i64, string_result,
    CellValidationError, FloatVerdict, ValueValidationResult,
};
use csv_validator::csv_reader::RowMap;
use csv_validator::csv_schema::{CellEvaluator, ColumnType, Pattern};

fn f64_rules(value: &str, min: &Option<String>, max: &Option<String>) -> FloatVerdict {
    match value.parse::<f64>() {
        Ok(n) => FloatVerdict::Number {
            actual: n.to_string(),
            below_min: min.as_ref().map(|m| n < m.parse::<f64>().unwrap()).unwrap_or(false),
            above_max: max.as_ref().map(|m| n > m.parse::<f64>().unwrap()).unwrap_or(false),
        },
        Err(_) => FloatVerdict::NotANumber,
    }
}

fn errors_of(r: &ValueValidationResult) -> Vec<String> {
    match r {
        ValueValidationResult::Valid { .. } => vec![],
        ValueValidationResult::Error { errors, .. } => errors.iter().map(|e| format!("{:?}", e)).collect(),
    }
}

fn is_valid(r: &ValueValidationResult) -> bool {
    matches!(r, ValueValidationResult::Valid { .. })
}

#[test]
fn parse_i64_accepts_signs_and_limits() {
    assert_eq!(parse_i64("42"), Some(42));
    assert_eq!(parse_i64("+7"), Some(7));
    assert_eq!(parse_i64("-15"), Some(-15));
    assert_eq!(parse_i64("007"), Some(7));
    assert_eq!(parse_i64("-9223372036854775808"), Some(i64::MIN));
    assert_eq!(parse_i64("9223372036854775807"), Some(i64::MAX));
}

#[test]
fn parse_i64_rejects_what_std_rejects() {
    for s in ["", "-", "+", "9223372036854775808", "-9223372036854775809", "1a", " 1", "1 ", "+-1", "1.0", "١"] {
        assert_eq!(parse_i64(s), None, "{:?}", s);
        assert_eq!(parse_i64(s), s.parse::<i64>().ok(), "{:?}", s);
    }
}

#[test]
fn parse_i64_matches_std_on_samples() {
    for s in ["0", "-0", "+0", "123456789", "-1", "18446744073709551616", "99999999999999999999"] {
        assert_eq!(parse_i64(s), s.parse::<i64>().ok(), "{:?}", s);
    }
}

#[test]
fn eval_integer_checks_bounds_in_order() {
    let r = eval_integer("5", &Some(10), &Some(3));
    assert_eq!(
        errors_of(&r),
        vec![
            format!("{:?}", CellValidationError::TooSmallInteger { min: 10, actual: 5 }),
            format!("{:?}", CellValidationError::TooLargeInteger { max: 3, actual: 5 }),
        ]
    );
    assert!(is_valid(&eval_integer("5", &Some(5), &Some(5))));
    assert!(is_valid(&eval_integer("-3", &None, &None)));
}

#[test]
fn eval_integer_reports_not_an_integer() {
    let r = eval_integer("abc", &Some(1), &None);
    match r {
        ValueValidationResult::Error { value, errors } => {
            assert_eq!(value, "abc");
            assert_eq!(errors.len(), 1);
            assert!(matches!(errors[0], CellValidationError::NotAnInteger));
        }
        _ => panic!("expected an error"),
    }
}

#[test]
fn eval_enum_accepts_listed_values_only() {
    let values = vec!["red".to_string(), "green".to_string()];
    match eval_enum("green", &values) {
        ValueValidationResult::Valid { value } => assert_eq!(value, "green"),
        _ => panic!("expected valid"),
    }
    match eval_enum("blue", &values) {
        ValueValidationResult::Error { value, errors } => {
            assert_eq!(value, "blue");
            match &errors[0] {
                CellValidationError::InvalidEnumValue { allowed } => assert_eq!(allowed, &values),
                e => panic!("unexpected {:?}", e),
            }
        }
        _ => panic!("expected error"),
    }
    assert!(!is_valid(&eval_enum("", &vec![])));
}

#[test]
fn string_lengths_count_bytes() {
    let r = string_result("héllo", &Some(7), &Some(5), None);
    assert_eq!(
        errors_of(&r),
        vec![
            format!("{:?}", CellValidationError::TooShort { min: 7, actual: 6 }),
            format!("{:?}", CellValidationError::TooLong { max: 5, actual: 6 }),
        ]
    );
    assert!(is_valid(&string_result("abc", &Some(3), &Some(3), None)));
}

#[test]
fn string_result_reports_failed_pattern() {
    let r = string_result("abc", &None, &None, Some(("^[0-9]+$", false)));
    assert_eq!(
        errors_of(&r),
        vec![format!(
            "{:?}",
            CellValidationError::RegexNoMatch { regex: "^[0-9]+$".to_string(), value: "abc".to_string() }
        )]
    );
    assert!(is_valid(&string_result("abc", &None, &None, Some(("x", true)))));
}

#[test]
fn eval_string_uses_the_pattern() {
    let row = RowMap::new();
    let p = Some(Pattern::new("^[a-z]{3}$").unwrap());
    assert!(is_valid(&eval_string("abc", &None, &None, &p, &None, &row)));
    let r = eval_string("abcd", &None, &Some(3), &p, &None, &row);
    assert_eq!(errors_of(&r).len(), 2);
}

#[test]
fn custom_validator_does_not_decide_the_result() {
    let mut row = RowMap::new();
    row.insert("name".to_string(), "x".to_string());
    let failing = Some("false".to_string());
    let broken = Some("this is not rhai (".to_string());
    assert!(is_valid(&eval_string("x", &None, &None, &None, &failing, &row)));
    assert!(is_valid(&eval_string("x", &None, &None, &None, &broken, &row)));
}

#[test]
fn custom_validator_that_never_ends_is_stopped() {
    let row = RowMap::new();
    let endless = Some("loop { }".to_string());
    let growing = Some("let s = \"x\"; loop { s += s; }".to_string());
    assert!(is_valid(&eval_string("x", &None, &None, &None, &endless, &row)));
    assert!(is_valid(&eval_string("x", &None, &None, &None, &growing, &row)));
}

#[test]
fn pattern_new_refuses_bad_regex() {
    assert!(Pattern::new("(").is_err());
    let p = Pattern::new("a+").unwrap();
    assert_eq!(p.as_str(), "a+");
    assert!(p.is_match("baaa"));
    assert!(!p.is_match("bbb"));
    assert_eq!(p.clone().as_str(), "a+");
}

#[test]
fn float_result_builds_errors_from_verdict() {
    let min = Some("1.5".to_string());
    let max = Some("2".to_string());
    let r = float_result(
        "0.5",
        &min,
        &max,
        FloatVerdict::Number { actual: "0.5".to_string(), below_min: true, above_max: false },
    );
    assert_eq!(
        errors_of(&r),
        vec![format!(
            "{:?}",
            CellValidationError::TooSmallFloat { min: "1.5".to_string(), actual: "0.5".to_string() }
        )]
    );
    let r = float_result("x", &min, &max, FloatVerdict::NotANumber);
    assert_eq!(errors_of(&r), vec![format!("{:?}", CellValidationError::NotAnInteger)]);
    let r = float_result("3", &None, &max, FloatVerdict::Number { actual: "3".to_string(), below_min: true, above_max: true });
    assert_eq!(
        errors_of(&r),
        vec![format!(
            "{:?}",
            CellValidationError::TooLargeFloat { max: "2".to_string(), actual: "3".to_string() }
        )]
    );
}

#[test]
fn eval_float_with_rules() {
    let rules = f64_rules;
    assert!(is_valid(&eval_float("1.75", &Some("1.5".to_string()), &Some("2".to_string()), &rules)));
    assert!(!is_valid(&eval_float("2.5", &None, &Some("2".to_string()), &rules)));
    assert!(!is_valid(&eval_float("abc", &None, &None, &rules)));
}

#[test]
fn eval_value_dispatches_on_column_type() {
    let rules = f64_rules;
    let row = RowMap::new();
    let int_col = ColumnType::Integer { min: Some(0), max: None };
    assert!(is_valid(&int_col.eval_value("3", &row, &rules)));
    assert!(!is_valid(&int_col.eval_value("-3", &row, &rules)));
    let enum_col = ColumnType::Enum { values: vec!["a".to_string()] };
    assert!(is_valid(&enum_col.eval_value("a", &row, &rules)));
    let float_col = ColumnType::Float { min: None, max: Some("1".to_string()) };
    assert!(!is_valid(&float_col.eval_value("1.01", &row, &rules)));
    let str_col = ColumnType::String { min_length: Some(2), max_length: None, regex: None, custom_validator: None };
    assert!(!is_valid(&str_col.eval_value("a", &row, &rules)));
    let copy = str_col.clone();
    assert!(is_valid(&copy.eval_value("ab", &row, &rules)));
}
