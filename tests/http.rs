use resserve::http::{not_found_body, relative_path, response_head, HttpRequest, ParseHttpError};

#[test]
fn parses_start_line_and_headers() {
    let raw = "GET /index.html HTTP/1.1\r\nHost: example.com\r\nAccept:  */* \r\n\r\nbody";
    let q = HttpRequest::parse(raw).unwrap();
    assert_eq!(q.method, "GET");
    assert_eq!(q.path, "/index.html");
    assert_eq!(q.protocol, "HTTP/1.1");
    assert_eq!(
        q.headers,
        vec![
            ("Host".to_string(), "example.com".to_string()),
            ("Accept".to_string(), "*/*".to_string())
        ]
    );
}

#[test]
fn header_value_ends_at_second_colon() {
    let q = HttpRequest::parse("GET / HTTP/1.1\r\nHost: a:8080\r\n\r\n").unwrap();
    assert_eq!(q.headers, vec![("Host".to_string(), "a".to_string())]);
}

#[test]
fn extra_words_on_start_line_are_ignored() {
    let q = HttpRequest::parse("GET / HTTP/1.1 extra\n").unwrap();
    assert_eq!(q.protocol, "HTTP/1.1");
    assert!(q.headers.is_empty());
}

#[test]
fn empty_request_has_no_start_line() {
    assert_eq!(HttpRequest::parse("").err(), Some(ParseHttpError::EmptyStartLine));
    assert_eq!(HttpRequest::parse("\r\nGET / X\r\n").err(), Some(ParseHttpError::EmptyStartLine));
}

#[test]
fn start_line_without_path_or_version() {
    assert_eq!(HttpRequest::parse("GET\r\n\r\n").err(), Some(ParseHttpError::MissingPath));
    assert_eq!(HttpRequest::parse("GET /\r\n\r\n").err(), Some(ParseHttpError::MissingVersion));
}

#[test]
fn header_without_colon_is_invalid() {
    assert_eq!(
        HttpRequest::parse("GET / HTTP/1.1\r\nHost: a\r\nbroken\r\n\r\nx: y").err(),
        Some(ParseHttpError::InvalidHeader("broken".to_string()))
    );
}

#[test]
fn lines_after_empty_line_are_not_headers() {
    let q = HttpRequest::parse("GET / HTTP/1.1\r\n\r\nnot a header").unwrap();
    assert!(q.headers.is_empty());
}

#[test]
fn relative_path_drops_one_leading_slash() {
    assert_eq!(relative_path("/a/b.txt"), "a/b.txt");
    assert_eq!(relative_path("a/b.txt"), "a/b.txt");
    assert_eq!(relative_path("//x"), "/x");
    assert_eq!(relative_path(""), "");
}

#[test]
fn response_heads() {
    assert_eq!(response_head(true, 1234), "HTTP/1.1 200 OK\r\nContent-Length: 1234\r\n\r\n");
    assert_eq!(response_head(true, 0), "HTTP/1.1 200 OK\r\nContent-Length: 0\r\n\r\n");
    assert_eq!(response_head(false, 77), "HTTP/1.1 404 Not Found\r\nContent-Length: 9\r\n\r\n");
    assert_eq!(not_found_body(), "NOT FOUND");
}

#[test]
fn last_repeated_header_wins() {
    let q = HttpRequest::parse("POST / HTTP/1.1\r\nContent-Length: 3\r\nX: 1\r\nContent-Length: 5\r\n\r\n").unwrap();
    assert_eq!(q.header("Content-Length"), Some("5"));
    assert_eq!(q.header("X"), Some("1"));
    assert_eq!(q.header("Y"), None);
}
