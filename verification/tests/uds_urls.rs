use ruuter_on_rust::uds::{parse_unix_url, UnixUrlError};

#[test]
fn parse_unix_url_with_sock_marker() {
    let (sock, path) = parse_unix_url("unix:///var/run/foo.sock/orders?limit=10").unwrap();
    assert_eq!(sock, "/var/run/foo.sock");
    assert_eq!(path, "/orders?limit=10");
}

#[test]
fn parse_unix_url_socket_extension() {
    let (sock, path) = parse_unix_url("unix:///run/tim.socket/verify").unwrap();
    assert_eq!(sock, "/run/tim.socket");
    assert_eq!(path, "/verify");
}

#[test]
fn parse_unix_url_root_path() {
    let (sock, path) = parse_unix_url("unix:///tmp/x.sock").unwrap();
    assert_eq!(sock, "/tmp/x.sock");
    assert_eq!(path, "/");
}

#[test]
fn parse_unix_url_fallback_no_sock_extension() {
    let (sock, path) = parse_unix_url("unix:///socket/rest").unwrap();
    assert_eq!(sock, "/socket");
    assert_eq!(path, "/rest");
}

#[test]
fn parse_unix_url_rejects_non_unix_scheme() {
    assert!(parse_unix_url("http://example/foo").is_err());
}

#[test]
fn parse_unix_url_rejects_missing_leading_slash() {
    assert!(parse_unix_url("unix://").is_err());
    assert!(parse_unix_url("unix://host/path").is_err());
}

#[test]
fn parse_unix_url_error_kinds() {
    assert!(matches!(parse_unix_url("http://x/y"), Err(UnixUrlError::NotUnixScheme)));
    assert!(matches!(parse_unix_url("unix://host"), Err(UnixUrlError::MissingLeadingSlash)));
}
