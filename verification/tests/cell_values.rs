use xleak::cell::parse_string_to_cellvalue;
use xleak::cell::CellValue;
use xleak::cell::DateValue;
use xleak::cell::RealValue;

fn float_cell(neg: bool, whole: u64, frac: &str) -> CellValue {
    CellValue::Float(RealValue { neg, whole, frac: frac.to_string() })
}

fn date(days: i64, secs: u32) -> CellValue {
    CellValue::DateTime(DateValue { days, secs })
}

#[test]
fn test_cellvalue_display_integer() {
    let val = CellValue::Int(1234567);
    assert_eq!(val.display(), "1,234,567");
}

#[test]
fn test_cellvalue_display_negative_integer() {
    let val = CellValue::Int(-1234567);
    assert_eq!(val.display(), "-1,234,567");
}

#[test]
fn test_cellvalue_display_float() {
    let val = float_cell(false, 1234567, "89");
    assert_eq!(val.display(), "1,234,567.89");
}

#[test]
fn test_cellvalue_display_float_whole_number() {
    let val = float_cell(false, 1000, "");
    assert_eq!(val.display(), "1,000");
}

#[test]
fn test_cellvalue_display_boolean() {
    assert_eq!(CellValue::Bool(true).display(), "true");
    assert_eq!(CellValue::Bool(false).display(), "false");
}

#[test]
fn test_cellvalue_display_string() {
    let val = CellValue::Text("Hello, World!".to_string());
    assert_eq!(val.display(), "Hello, World!");
}

#[test]
fn test_cellvalue_display_empty() {
    let val = CellValue::Empty;
    assert_eq!(val.display(), "");
}

#[test]
fn test_cellvalue_display_error() {
    let val = CellValue::Error("DIV/0!".to_string());
    assert_eq!(val.display(), "ERROR: DIV/0!");
}

#[test]
fn test_cellvalue_to_raw_string_integer() {
    let val = CellValue::Int(1234567);
    assert_eq!(val.to_raw_string(), "1234567");
}

#[test]
fn test_cellvalue_to_raw_string_float() {
    let val = float_cell(false, 123, "45");
    assert_eq!(val.to_raw_string(), "123.45");
}

#[test]
fn test_cellvalue_is_empty() {
    assert!(CellValue::Empty.is_empty());
    assert!(!CellValue::Int(0).is_empty());
    assert!(!CellValue::Text("".to_string()).is_empty());
}

#[test]
fn test_cellvalue_is_numeric() {
    assert!(CellValue::Int(123).is_numeric());
    assert!(float_cell(false, 123, "45").is_numeric());
    assert!(!CellValue::Text("123".to_string()).is_numeric());
    assert!(!CellValue::Empty.is_numeric());
}

#[test]
fn test_datetime_display() {
    let val = date(1, 0);
    let display = val.display();
    assert!(display.contains("1900") || display.contains("1899"));
}

#[test]
fn test_datetime_with_time() {
    let val = date(1, 43200);
    let display = val.display();
    assert!(display.contains(":"));
    assert!(display.len() > 10);
}

#[test]
fn date_serial_one_is_new_years_1900() {
    assert_eq!(date(1, 0).display(), "1900-01-01");
    assert_eq!(date(1, 0).to_raw_string(), "1900-01-01");
}

#[test]
fn date_serial_61_skips_false_leap_day() {
    // Day 60 would be the nonexistent 1900-02-29: serials above it shift
    // down by one day, so 61 decodes to March 1st.
    assert_eq!(date(61, 0).display(), "1900-03-01");
    assert_eq!(date(59, 0).display(), "1900-02-28");
}

#[test]
fn date_serial_with_noon_time() {
    assert_eq!(date(1, 43200).display(), "1900-01-01 12:00:00");
    assert_eq!(date(1, 43200).to_raw_string(), "1900-01-01 12:00:00");
}

#[test]
fn date_far_out_of_range_falls_back() {
    let shown = date(i64::MAX, 0).display();
    assert!(shown.starts_with("Date["));
    assert!(shown.ends_with("]"));
}

#[test]
fn raw_export_never_groups() {
    assert_eq!(CellValue::Int(1234567).to_raw_string(), "1234567");
    assert_eq!(float_cell(false, 123, "45").to_raw_string(), "123.45");
    assert_eq!(float_cell(true, 1234567, "89").to_raw_string(), "-1234567.89");
}

#[test]
fn error_raw_uses_hash_prefix() {
    assert_eq!(CellValue::Error("NAME?".to_string()).to_raw_string(), "#NAME?");
}

#[test]
fn display_rounds_to_two_decimals() {
    assert_eq!(float_cell(false, 2, "999").display(), "3.00");
    assert_eq!(float_cell(false, 0, "125").display(), "0.13");
    assert_eq!(float_cell(true, 0, "5").display(), "-0.50");
    assert_eq!(float_cell(false, 3, "14159").display(), "3.14");
}

#[test]
fn coercion_order_int_then_real_then_text() {
    assert_eq!(parse_string_to_cellvalue("42"), CellValue::Int(42));
    assert_eq!(parse_string_to_cellvalue("3.14"), float_cell(false, 3, "14"));
    assert_eq!(parse_string_to_cellvalue(""), CellValue::Empty);
    assert_eq!(parse_string_to_cellvalue("abc"), CellValue::Text("abc".to_string()));
}

#[test]
fn coercion_signed_integers() {
    assert_eq!(parse_string_to_cellvalue("-7"), CellValue::Int(-7));
    assert_eq!(parse_string_to_cellvalue("+8"), CellValue::Int(8));
    assert_eq!(parse_string_to_cellvalue("007"), CellValue::Int(7));
    assert_eq!(parse_string_to_cellvalue("-0"), CellValue::Int(0));
}

#[test]
fn coercion_integer_limits() {
    assert_eq!(
        parse_string_to_cellvalue("9223372036854775807"),
        CellValue::Int(i64::MAX)
    );
    assert_eq!(
        parse_string_to_cellvalue("-9223372036854775808"),
        CellValue::Int(i64::MIN)
    );
    // one past the signed range becomes a whole non-integral numeric
    assert_eq!(
        parse_string_to_cellvalue("9223372036854775808"),
        float_cell(false, 9223372036854775808, "")
    );
}

#[test]
fn coercion_decimal_forms() {
    assert_eq!(parse_string_to_cellvalue("1.50"), float_cell(false, 1, "5"));
    assert_eq!(parse_string_to_cellvalue("5."), float_cell(false, 5, ""));
    assert_eq!(parse_string_to_cellvalue(".5"), float_cell(false, 0, "5"));
    assert_eq!(parse_string_to_cellvalue("-2.25"), float_cell(true, 2, "25"));
}

#[test]
fn coercion_scientific_notation() {
    assert_eq!(parse_string_to_cellvalue("1e5"), float_cell(false, 100000, ""));
    assert_eq!(parse_string_to_cellvalue("2.5e2"), float_cell(false, 250, ""));
    assert_eq!(parse_string_to_cellvalue("1.234e2"), float_cell(false, 123, "4"));
    assert_eq!(parse_string_to_cellvalue("1.23E2"), float_cell(false, 123, ""));
    assert_eq!(parse_string_to_cellvalue("-3e2"), float_cell(true, 300, ""));
    assert_eq!(parse_string_to_cellvalue("1e+2"), float_cell(false, 100, ""));
    assert_eq!(parse_string_to_cellvalue(".5e1"), float_cell(false, 5, ""));
    assert_eq!(parse_string_to_cellvalue("5.e1"), float_cell(false, 50, ""));
}

#[test]
fn coercion_scientific_negative_exponents() {
    assert_eq!(parse_string_to_cellvalue("2.5e-2"), float_cell(false, 0, "025"));
    assert_eq!(parse_string_to_cellvalue("1e-1"), float_cell(false, 0, "1"));
    assert_eq!(parse_string_to_cellvalue("-25e-1"), float_cell(true, 2, "5"));
    assert_eq!(parse_string_to_cellvalue("100e-2"), float_cell(false, 1, ""));
    assert_eq!(parse_string_to_cellvalue("1e-0"), float_cell(false, 1, ""));
}

#[test]
fn coercion_scientific_model_limits() {
    // a zero mantissa scales to zero whatever the exponent says
    assert_eq!(
        parse_string_to_cellvalue("0e99999999999999999999"),
        float_cell(false, 0, "")
    );
    assert_eq!(parse_string_to_cellvalue("1e19"), float_cell(false, 10000000000000000000, ""));
    // past the unsigned machine word, or the shift bound: outside the model
    assert_eq!(parse_string_to_cellvalue("1e20"), CellValue::Text("1e20".to_string()));
    assert_eq!(parse_string_to_cellvalue("1e99999"), CellValue::Text("1e99999".to_string()));
    assert_eq!(
        parse_string_to_cellvalue("1e-99999"),
        CellValue::Text("1e-99999".to_string())
    );
}

#[test]
fn coercion_rejects_malformed_scientific_forms() {
    assert_eq!(parse_string_to_cellvalue("1e"), CellValue::Text("1e".to_string()));
    assert_eq!(parse_string_to_cellvalue("e5"), CellValue::Text("e5".to_string()));
    assert_eq!(parse_string_to_cellvalue(".e5"), CellValue::Text(".e5".to_string()));
    assert_eq!(parse_string_to_cellvalue("1e5.5"), CellValue::Text("1e5.5".to_string()));
    assert_eq!(parse_string_to_cellvalue("1e2e3"), CellValue::Text("1e2e3".to_string()));
    assert_eq!(parse_string_to_cellvalue("1e--5"), CellValue::Text("1e--5".to_string()));
    assert_eq!(parse_string_to_cellvalue("1f5"), CellValue::Text("1f5".to_string()));
}

#[test]
fn coercion_rejects_everything_else() {
    assert_eq!(parse_string_to_cellvalue("."), CellValue::Text(".".to_string()));
    assert_eq!(parse_string_to_cellvalue("-"), CellValue::Text("-".to_string()));
    assert_eq!(parse_string_to_cellvalue("12.3.4"), CellValue::Text("12.3.4".to_string()));
    assert_eq!(parse_string_to_cellvalue("4 2"), CellValue::Text("4 2".to_string()));
    assert_eq!(parse_string_to_cellvalue("inf"), CellValue::Text("inf".to_string()));
    assert_eq!(parse_string_to_cellvalue("NaN"), CellValue::Text("NaN".to_string()));
}
