use headr::parse_positive_int;

#[test]
fn test_parse_positive_int() {
    let res = parse_positive_int("3");
    assert!(res.is_ok());
    assert_eq!(res.unwrap(), 3);

    let res = parse_positive_int("foo");
    assert!(res.is_err());
    assert_eq!(res.unwrap_err().to_string(), "foo".to_string());

    let res = parse_positive_int("0");
    assert!(res.is_err());
    assert_eq!(res.unwrap_err().to_string(), "0".to_string());
}

#[test]
fn parse_returns_the_integer_unchanged() {
    assert_eq!(parse_positive_int("1").unwrap(), 1);
    assert_eq!(parse_positive_int("10").unwrap(), 10);
    assert_eq!(parse_positive_int("12345").unwrap(), 12345);
    // A leading plus is part of integer syntax, not an extraneous character.
    assert_eq!(parse_positive_int("+7").unwrap(), 7);
}

#[test]
fn parse_failure_carries_the_token_verbatim() {
    for tok in ["", "abc", "-1", "3x", " 3", "+", "18446744073709551616"] {
        let res = parse_positive_int(tok);
        assert!(res.is_err());
        assert_eq!(res.unwrap_err(), tok.to_string());
    }
}
