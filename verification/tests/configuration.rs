use headr::{Config, ConfigError, Limit};

#[test]
fn both_limits_cannot_be_active() {
    let res = Config::new(vec!["a.txt".to_string()], Some("3"), Some("4"));
    assert!(matches!(res, Err(ConfigError::ConflictingOptions)));
    // Even with valid tokens on only one side, supplying both is fatal.
    let res = Config::new(vec![], Some("foo"), Some("4"));
    assert!(matches!(res, Err(ConfigError::ConflictingOptions)));
}

#[test]
fn defaults_are_ten_lines_and_stdin() {
    let cfg = Config::new(vec![], None, None).unwrap();
    assert_eq!(*cfg.limit(), Limit::Lines(10));
    assert_eq!(cfg.files().len(), 1);
    assert_eq!(cfg.files()[0], "-".to_string());
}

#[test]
fn line_option_sets_a_line_limit() {
    let cfg = Config::new(vec!["x".to_string()], Some("5"), None).unwrap();
    assert_eq!(*cfg.limit(), Limit::Lines(5));
    assert_eq!(cfg.files().len(), 1);
    assert_eq!(cfg.files()[0], "x".to_string());
}

#[test]
fn byte_option_sets_a_byte_limit() {
    let cfg = Config::new(vec!["x".to_string()], None, Some("5")).unwrap();
    assert_eq!(*cfg.limit(), Limit::Bytes(5));
}

#[test]
fn illegal_line_count_message_quotes_the_token() {
    let err = Config::new(vec![], Some("0"), None).unwrap_err();
    let msg = err.message();
    assert!(msg.contains("illegal line count -- 0"));
    assert_eq!(msg, "illegal line count -- 0".to_string());

    let err = Config::new(vec![], Some("foo"), None).unwrap_err();
    assert_eq!(err.message(), "illegal line count -- foo".to_string());
}

#[test]
fn illegal_byte_count_message_quotes_the_token() {
    let err = Config::new(vec![], None, Some("bar")).unwrap_err();
    assert_eq!(err.message(), "illegal byte count -- bar".to_string());

    let err = Config::new(vec![], None, Some("0")).unwrap_err();
    assert_eq!(err.message(), "illegal byte count -- 0".to_string());
}
