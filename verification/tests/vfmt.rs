use control_model::vfmt::{
    bracketed, decimal_form, digits_and_exponent, json_number_text, json_string, push_decimal, scientific_form,
    signed_exponent, with_point,
};

#[test]
fn json_string_escapes_quotes_backslashes_and_controls() {
    assert_eq!(json_string("plain"), "\"plain\"");
    assert_eq!(json_string("a\"b"), "\"a\\\"b\"");
    assert_eq!(json_string("c:\\d"), "\"c:\\\\d\"");
    assert_eq!(json_string("l1\nl2\r\tx"), "\"l1\\nl2\\r\\tx\"");
    assert_eq!(json_string(""), "\"\"");
    assert_eq!(json_string("é"), "\"é\"");
}

#[test]
fn decimal_form_places_the_point() {
    assert_eq!(decimal_form(false, "15", 0), "1.5");
    assert_eq!(decimal_form(false, "15", 1), "15.0");
    assert_eq!(decimal_form(false, "15", 3), "1500.0");
    assert_eq!(decimal_form(true, "15", -3), "-0.0015");
    assert_eq!(decimal_form(false, "1", -1), "0.1");
    assert_eq!(decimal_form(false, "123456", 2), "123.456");
}

#[test]
fn scientific_form_spells_the_exponent() {
    assert_eq!(scientific_form(false, "1", 6), "1e+06");
    assert_eq!(scientific_form(false, "6103515625", -5), "6.103515625e-05");
    assert_eq!(scientific_form(true, "25", 120), "-2.5e+120");
    assert_eq!(scientific_form(false, "1000", -7), "1e-07");
}

#[test]
fn json_number_text_drops_an_integral_point_zero() {
    assert_eq!(json_number_text("1.0"), "1");
    assert_eq!(json_number_text("-12.0"), "-12");
    assert_eq!(json_number_text("1.5"), "1.5");
    assert_eq!(json_number_text(".0"), ".0");
    assert_eq!(json_number_text("1e+06"), "1e+06");
}

#[test]
fn bracketed_lays_out_a_list() {
    let parts = vec!["1.0".to_string(), "2.5".to_string(), "-0.0".to_string()];
    assert_eq!(bracketed(&parts, ", "), "[1.0, 2.5, -0.0]");
    assert_eq!(bracketed(&parts, ","), "[1.0,2.5,-0.0]");
    assert_eq!(bracketed(&Vec::new(), ", "), "[]");
}

#[test]
fn signed_exponent_pads_and_signs() {
    assert_eq!(signed_exponent("1.5e-7").as_deref(), Some("1.5e-07"));
    assert_eq!(signed_exponent("1e6").as_deref(), Some("1e+06"));
    assert_eq!(signed_exponent("1.000000e123").as_deref(), Some("1.000000e+123"));
    assert_eq!(signed_exponent("inf"), None);
}

#[test]
fn digits_and_exponent_read_a_float_formatters_text() {
    let (d, e) = digits_and_exponent("1.5e-7");
    assert_eq!((d.as_str(), e), ("15", -7));
    let (d, e) = digits_and_exponent("6.103515625e-5");
    assert_eq!((d.as_str(), e), ("6103515625", -5));
    let (d, e) = digits_and_exponent("-2.50e+120");
    assert_eq!((d.as_str(), e), ("250", 120));
    let (d, e) = digits_and_exponent("1e0");
    assert_eq!((d.as_str(), e), ("1", 0));
    // the exponent is read whole, not just its digits
    let (_, e) = digits_and_exponent("1e-2147483648");
    assert_eq!(e, i32::MIN);
    let (_, e) = digits_and_exponent("9e2147483647");
    assert_eq!(e, i32::MAX);
}

#[test]
fn every_exponent_is_signed_with_two_digits() {
    for (exp, text) in [(0, "e+00"), (5, "e+05"), (-5, "e-05"), (10, "e+10"), (-308, "e-308")] {
        let s = scientific_form(false, "1", exp);
        assert!(s.ends_with(text), "{s}");
    }
}

#[test]
fn every_decimal_form_has_a_point() {
    for (digits, exp) in [("1", 0), ("12", 5), ("5", -3), ("123", 1)] {
        assert!(decimal_form(false, digits, exp).contains('.'));
    }
}

#[test]
fn push_decimal_appends_the_digits() {
    let mut s = String::from("n=");
    push_decimal(&mut s, 0);
    push_decimal(&mut s, 1204);
    assert_eq!(s, "n=01204");
    let mut m = String::new();
    push_decimal(&mut m, u64::MAX);
    assert_eq!(m, "18446744073709551615");
}

#[test]
fn with_point_keeps_a_float_looking_text() {
    assert_eq!(with_point("9.9998"), "9.9998");
    assert_eq!(with_point("12"), "12.0");
    assert_eq!(with_point("-3"), "-3.0");
    assert_eq!(with_point(""), ".0");
}
