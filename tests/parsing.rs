use primality::parse::parse_to_integer;

#[test]
fn parses_plain_digits() {
    assert_eq!(parse_to_integer("1000001"), Ok(1_000_001));
    assert_eq!(parse_to_integer("0"), Ok(0));
    assert_eq!(parse_to_integer("007"), Ok(7));
}

#[test]
fn strips_separators() {
    assert_eq!(parse_to_integer("1_000_000_007"), Ok(1_000_000_007));
    assert_eq!(parse_to_integer("_1__2_"), Ok(12));
    assert_eq!(parse_to_integer("+_5"), Ok(5));
}

#[test]
fn accepts_a_leading_plus() {
    assert_eq!(parse_to_integer("+42"), Ok(42));
}

#[test]
fn parses_the_largest_value() {
    assert_eq!(
        parse_to_integer("340282366920938463463374607431768211455"),
        Ok(u128::MAX)
    );
}

#[test]
fn rejects_overflow() {
    assert_eq!(
        parse_to_integer("340282366920938463463374607431768211456"),
        Err("Not possible to convert '340282366920938463463374607431768211456' into a positive integer".to_string())
    );
    assert!(parse_to_integer("99999999999999999999999999999999999999999x").is_err());
}

#[test]
fn rejects_non_numbers() {
    assert_eq!(
        parse_to_integer("abc"),
        Err("Not possible to convert 'abc' into a positive integer".to_string())
    );
    assert_eq!(
        parse_to_integer("-5"),
        Err("Not possible to convert '-5' into a positive integer".to_string())
    );
    assert!(parse_to_integer("").is_err());
    assert!(parse_to_integer("_").is_err());
    assert!(parse_to_integer("+").is_err());
    assert!(parse_to_integer("++1").is_err());
    assert!(parse_to_integer("1 2").is_err());
    assert!(parse_to_integer("1.5").is_err());
    assert!(parse_to_integer("١٢").is_err());
}
