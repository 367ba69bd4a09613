use tailscale_portal::models::tailscale::parse_opt_datetime;

#[test]
fn absent_last_seen_is_none() {
    assert!(matches!(parse_opt_datetime(None), Ok(None)));
}

#[test]
fn default_last_seen_is_none() {
    assert!(matches!(parse_opt_datetime(Some("0001-01-01T00:00:00Z".to_string())), Ok(None)));
    assert!(matches!(parse_opt_datetime(Some("0001-01-01".to_string())), Ok(None)));
}

#[test]
fn rfc3339_last_seen_is_read_in_utc() {
    let t = parse_opt_datetime(Some("2024-05-01T12:30:45+02:00".to_string())).unwrap().unwrap();
    assert_eq!(t.display(), "2024-05-01 10:30:45 UTC");
    let t = parse_opt_datetime(Some("2023-12-31T23:59:59.5Z".to_string())).unwrap().unwrap();
    assert_eq!(t.display(), "2023-12-31 23:59:59 UTC");
}

#[test]
fn malformed_last_seen_is_an_error() {
    assert!(parse_opt_datetime(Some("yesterday".to_string())).is_err());
    assert!(parse_opt_datetime(Some("".to_string())).is_err());
}
