use silly_browser::fetch::{handle_response, request_text, split_url, FetchError, Outcome};
use silly_browser::response::parse;

#[test]
fn splits_host_and_path() {
    let t = split_url("http://example.com/a/b.html").unwrap();
    assert_eq!(t.host, "example.com");
    assert_eq!(t.path, "/a/b.html");
}

#[test]
fn url_without_path_or_scheme_is_refused() {
    assert!(split_url("http://example.com").is_none());
    assert!(split_url("ftp://example.com/x").is_none());
    assert!(split_url("http:/").is_none());
}

#[test]
fn request_asks_to_close() {
    assert_eq!(request_text("/p"), "GET /p HTTP/1.1\r\nConnection: close\r\n\r\n");
}

#[test]
fn redirect_chain_loads_final_body() {
    let mut document = String::from("<p>old</p>");
    let first = parse("HTTP/1.1 301 Moved Permanently\r\nLocation: http://b/p\r\n\r\n").unwrap();
    let next = match handle_response(&mut document, &first) {
        Ok(Outcome::Redirect(u)) => u,
        other => panic!("expected a redirect, got {:?}", other),
    };
    assert_eq!(next, "http://b/p");
    assert_eq!(document, "<p>old</p>");
    let target = split_url(&next).unwrap();
    assert_eq!(target.host, "b");
    assert_eq!(target.path, "/p");
    let second = parse("HTTP/1.1 200 OK\r\nContent-Type: text/html\r\n\r\n<p>hi</p>").unwrap();
    assert!(matches!(handle_response(&mut document, &second), Ok(Outcome::Loaded)));
    assert_eq!(document, "<p>hi</p>");
}

#[test]
fn plain_text_keeps_document() {
    let mut document = String::from("<p>kept</p>");
    let resp = parse("HTTP/1.1 200 OK\r\nContent-Type: text/plain\r\n\r\nhello").unwrap();
    assert!(matches!(handle_response(&mut document, &resp), Ok(Outcome::Ignored)));
    assert_eq!(document, "<p>kept</p>");
}

#[test]
fn lower_case_content_type_keeps_document() {
    let mut document = String::from("<p>kept</p>");
    let resp = parse("HTTP/1.1 200 OK\r\ncontent-type: text/html\r\n\r\n<p>new</p>").unwrap();
    assert!(matches!(handle_response(&mut document, &resp), Ok(Outcome::Ignored)));
    assert_eq!(document, "<p>kept</p>");
}

#[test]
fn redirect_without_location_fails() {
    let mut document = String::from("d");
    let resp = parse("HTTP/1.1 301 Moved\r\nContent-Type: text/html\r\n\r\n").unwrap();
    assert!(matches!(
        handle_response(&mut document, &resp),
        Err(FetchError::MissingLocation)
    ));
    assert_eq!(document, "d");
}
