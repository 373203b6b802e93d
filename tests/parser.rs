use silly_browser::response::{parse, ParseError};

#[test]
fn parses_status_headers_and_body() {
    let raw = "HTTP/1.1 200 OK\r\nContent-Type: text/html\r\nX-Extra:   spaced value \t\r\n\r\n<p>hi</p>\r\n\r\nmore";
    let resp = parse(raw).unwrap();
    assert_eq!(resp.status_code, "200");
    assert_eq!(resp.headers.len(), 2);
    assert_eq!(resp.header("Content-Type").unwrap(), "text/html");
    assert_eq!(resp.header("X-Extra").unwrap(), "spaced value");
    assert_eq!(resp.body, "<p>hi</p>\r\n\r\nmore");
}

#[test]
fn body_is_exact_suffix_after_first_blank_line() {
    let raw = "HTTP/1.1 404 Not Found\r\nA: 1\r\n\r\n  \r\n body\r\n";
    let resp = parse(raw).unwrap();
    let k = raw.find("\r\n\r\n").unwrap();
    assert_eq!(resp.body, &raw[k + 4..]);
    assert_eq!(resp.body, "  \r\n body\r\n");
}

#[test]
fn no_headers_and_empty_body() {
    let resp = parse("HTTP/1.1 204 No Content\r\n\r\n").unwrap();
    assert_eq!(resp.status_code, "204");
    assert!(resp.headers.is_empty());
    assert_eq!(resp.body, "");
}

#[test]
fn non_ascii_body_is_kept() {
    let resp = parse("HTTP/1.1 200 Ok\r\nServer: ünï\r\n\r\nhéllo ✓").unwrap();
    assert_eq!(resp.header("Server").unwrap(), "ünï");
    assert_eq!(resp.body, "héllo ✓");
}

#[test]
fn header_lookup_is_case_sensitive() {
    let resp = parse("HTTP/1.1 200 OK\r\ncontent-type: text/html\r\n\r\nx").unwrap();
    assert!(resp.header("Content-Type").is_none());
    assert_eq!(resp.header("content-type").unwrap(), "text/html");
}

#[test]
fn repeated_header_last_wins() {
    let resp = parse("HTTP/1.1 200 OK\r\nA: first\r\nB: other\r\nA: second\r\n\r\n").unwrap();
    assert_eq!(resp.header("A").unwrap(), "second");
    assert_eq!(resp.header("B").unwrap(), "other");
    assert!(resp.header("C").is_none());
}

#[test]
fn header_names_allow_hyphen_underscore_digits() {
    let resp = parse("HTTP/1.1 200 OK\r\nX_a-9: v\r\n\r\n").unwrap();
    assert_eq!(resp.headers[0].name, "X_a-9");
    assert_eq!(resp.headers[0].value, "v");
}

#[test]
fn wrong_version_is_malformed_status() {
    assert_eq!(parse("HTTP/1.0 200 OK\r\n\r\n").err(), Some(ParseError::MalformedStatusLine));
}

#[test]
fn non_numeric_code_is_malformed_status() {
    assert_eq!(parse("HTTP/1.1 abc OK\r\n\r\n").err(), Some(ParseError::MalformedStatusLine));
    assert_eq!(parse("HTTP/1.1 200OK\r\n\r\n").err(), Some(ParseError::MalformedStatusLine));
}

#[test]
fn status_without_line_end_is_malformed_status() {
    assert_eq!(parse("HTTP/1.1 200 OK").err(), Some(ParseError::MalformedStatusLine));
    assert_eq!(parse("").err(), Some(ParseError::MalformedStatusLine));
}

#[test]
fn bad_header_line_is_malformed_header() {
    assert_eq!(
        parse("HTTP/1.1 200 OK\r\nBad Header\r\n\r\nbody").err(),
        Some(ParseError::MalformedHeader)
    );
}

#[test]
fn missing_blank_line_is_unterminated() {
    assert_eq!(
        parse("HTTP/1.1 200 OK\r\nA: b\r\n").err(),
        Some(ParseError::UnterminatedHeaders)
    );
    assert_eq!(parse("HTTP/1.1 200 OK\r\nA: b").err(), Some(ParseError::UnterminatedHeaders));
}
