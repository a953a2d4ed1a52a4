use sexpr_reader::number::Number;

fn text_of(literal: &str) -> String {
    Number::parse(literal).unwrap().to_text()
}

#[test]
fn number_text_is_in_lowest_terms() {
    assert_eq!(text_of("1"), "1");
    assert_eq!(text_of("2.0"), "2");
    assert_eq!(text_of("1.50"), "1.5");
    assert_eq!(text_of("007"), "7");
    assert_eq!(text_of("000"), "0");
    assert_eq!(text_of("0.250"), "0.25");
    assert_eq!(text_of("7."), "7");
    assert_eq!(text_of("+3"), "3");
    assert_eq!(text_of("-3.10"), "-3.1");
    assert_eq!(text_of("-0"), "-0");
    assert_eq!(text_of("123456789012345678901234567890.5"), "123456789012345678901234567890.5");
}

#[test]
fn number_text_agrees_with_floats_that_are_exact() {
    for literal in ["1", "2.0", "1.5", "-0.25", "100", "0.125", "-7"] {
        let as_float: f64 = literal.parse().unwrap();
        assert_eq!(text_of(literal), as_float.to_string());
    }
}

#[test]
fn what_is_no_number_literal() {
    for text in ["", "-", "+", ".", ".5", "-.5", "1a", "a1", "1.2.3", "1..2", "--1", "1-", "1e5", " 1"] {
        assert!(Number::parse(text).is_none(), "{:?}", text);
    }
}

#[test]
fn number_from_chars_reads_the_whole_text() {
    let chars: Vec<char> = "-12.5".chars().collect();
    assert_eq!(Number::from_chars(&chars).unwrap().to_text(), "-12.5");
    let chars: Vec<char> = "12x".chars().collect();
    assert!(Number::from_chars(&chars).is_none());
}

#[test]
fn fraction_is_what_follows_the_point_and_is_not_zero() {
    assert!(Number::parse("1.5").unwrap().has_fraction());
    assert!(Number::parse("0.001").unwrap().has_fraction());
    assert!(!Number::parse("2.0").unwrap().has_fraction());
    assert!(!Number::parse("2.000").unwrap().has_fraction());
    assert!(!Number::parse("2").unwrap().has_fraction());
}

#[test]
fn to_i64_truncates_towards_zero() {
    assert_eq!(Number::parse("0").unwrap().to_i64(), 0);
    assert_eq!(Number::parse("12").unwrap().to_i64(), 12);
    assert_eq!(Number::parse("-12").unwrap().to_i64(), -12);
    assert_eq!(Number::parse("1.9").unwrap().to_i64(), 1);
    assert_eq!(Number::parse("-1.9").unwrap().to_i64(), -1);
    assert_eq!(Number::parse("9007199254740993").unwrap().to_i64(), 9007199254740993);
}

#[test]
fn to_i64_stops_at_the_ends_of_the_range() {
    assert_eq!(Number::parse("9223372036854775807").unwrap().to_i64(), i64::MAX);
    assert_eq!(Number::parse("9223372036854775808").unwrap().to_i64(), i64::MAX);
    assert_eq!(Number::parse("-9223372036854775808").unwrap().to_i64(), i64::MIN);
    assert_eq!(Number::parse("-9223372036854775809").unwrap().to_i64(), i64::MIN);
    assert_eq!(Number::parse("-9223372036854775807").unwrap().to_i64(), i64::MIN + 1);
    assert_eq!(
        Number::parse("100000000000000000000000000000000000000000").unwrap().to_i64(),
        i64::MAX
    );
    assert_eq!(
        Number::parse("-100000000000000000000000000000000000000000").unwrap().to_i64(),
        i64::MIN
    );
}

#[test]
fn numbers_are_equal_where_their_values_are() {
    let parse = |t: &str| Number::parse(t).unwrap();
    assert_eq!(parse("1.50"), parse("1.5"));
    assert_eq!(parse("+2"), parse("2.0"));
    assert_eq!(parse("-0"), parse("0"));
    assert_eq!(parse("0"), parse("-0.0"));
    assert_ne!(parse("1"), parse("-1"));
    assert_ne!(parse("1"), parse("1.5"));
    assert_ne!(parse("1"), parse("10"));
}

#[test]
fn sign_and_zero() {
    assert!(Number::parse("-1").unwrap().is_negative());
    assert!(!Number::parse("+1").unwrap().is_negative());
    assert!(Number::parse("0.0").unwrap().is_zero());
    assert!(Number::parse("-0").unwrap().is_zero());
    assert!(!Number::parse("0.1").unwrap().is_zero());
    assert!(!Number::parse("10").unwrap().is_zero());
}

#[test]
fn number_literal_reads_back_from_its_text() {
    for literal in ["0", "-0", "15", "-15.25", "0.5", "123456789.000000001"] {
        let n = Number::parse(literal).unwrap();
        let again = Number::parse(&n.to_text()).unwrap();
        assert_eq!(n, again);
        assert_eq!(n.to_text(), again.to_text());
    }
}

#[test]
fn number_clone_is_the_same_number() {
    let n = Number::parse("-4.25").unwrap();
    assert_eq!(n.clone(), n);
    assert_eq!(n.clone().to_text(), "-4.25");
}
