use csv_sql_loader::delimiter::parse_delimiter;
use csv_sql_loader::errors::LoaderError;

#[test]
fn test_parse_delimiter() {
    assert_eq!(parse_delimiter(",").unwrap(), b',');
    assert_eq!(parse_delimiter("\\t").unwrap(), b'\t');
    assert_eq!(parse_delimiter("tab").unwrap(), b'\t');
    assert_eq!(parse_delimiter("|").unwrap(), b'|');
    assert_eq!(parse_delimiter(";").unwrap(), b';');
}

#[test]
fn test_parse_delimiter_rejects_long_and_wide() {
    assert!(matches!(parse_delimiter("ab"), Err(LoaderError::ConfigError(_))));
    match parse_delimiter("comma") {
        Err(LoaderError::ConfigError(m)) => assert_eq!(m, "Invalid delimiter: comma"),
        _ => panic!("expected a configuration error"),
    }
    // A single character wider than one byte is no one-byte delimiter.
    assert!(parse_delimiter("é").is_err());
}
