use wsh::http::HttpMethod;
use wsh::http::HttpParseError;
use wsh::http::HttpRequest;
use wsh::http::LineScan;
use wsh::http::scan_request_line;
use wsh::http::split_spaces_exec;
use wsh::http::trim_bytes;

fn b(s: &str) -> Vec<u8> {
    s.as_bytes().to_vec()
}

#[test]
fn parses_a_plain_get_request_line() {
    let req = HttpRequest::parse_from_string(&b("GET / HTTP/1.1\r")).expect("valid line");
    assert_eq!(req.get_method(), HttpMethod::Get);
    assert_eq!(req.get_uri(), &b("/"));
    assert_eq!(req.get_version(), &b("HTTP/1.1"));
}

#[test]
fn parses_a_post_request_line() {
    let req = HttpRequest::parse_from_string(&b("POST /form HTTP/1.0")).expect("valid line");
    assert_eq!(req.get_method(), HttpMethod::Post);
    assert_eq!(req.get_uri(), &b("/form"));
    assert_eq!(req.get_version(), &b("HTTP/1.0"));
}

#[test]
fn plus_in_the_target_becomes_percent_twenty() {
    let req = HttpRequest::parse_from_string(&b("GET /a+b+c HTTP/1.1")).expect("valid line");
    assert_eq!(req.get_uri(), &b("/a%20b%20c"));
}

#[test]
fn too_few_or_too_many_tokens_are_not_valid_http() {
    let r = HttpRequest::parse_from_string(&b("GET /"));
    assert_eq!(r.err(), Some(HttpParseError::NotValidHttp));
    let r = HttpRequest::parse_from_string(&b("GET  / HTTP/1.1"));
    assert_eq!(r.err(), Some(HttpParseError::NotValidHttp));
    let r = HttpRequest::parse_from_string(&b(""));
    assert_eq!(r.err(), Some(HttpParseError::NotValidHttp));
}

#[test]
fn unknown_methods_are_rejected() {
    let r = HttpRequest::parse_from_string(&b("PUT / HTTP/1.1"));
    assert_eq!(r.err(), Some(HttpParseError::UnsupportedMethod));
}

#[test]
fn a_target_without_leading_slash_is_rejected() {
    let r = HttpRequest::parse_from_string(&b("GET abc HTTP/1.1"));
    assert_eq!(r.err(), Some(HttpParseError::MalformedTarget));
}

#[test]
fn method_tokens_parse_exactly() {
    assert_eq!(HttpMethod::from_str(&b("GET")), Ok(HttpMethod::Get));
    assert_eq!(HttpMethod::from_str(&b("POST")), Ok(HttpMethod::Post));
    assert_eq!(
        HttpMethod::from_str(&b("get")),
        Err(HttpParseError::UnsupportedMethod)
    );
    assert_eq!(
        HttpMethod::from_str(&b("GETX")),
        Err(HttpParseError::UnsupportedMethod)
    );
}

#[test]
fn uri_without_starting_slash_drops_the_slash() {
    let req = HttpRequest::parse_from_string(&b("GET /g%20cats HTTP/1.1")).expect("valid");
    assert_eq!(req.uri_without_starting_slash(), b("g%20cats"));
}

#[test]
fn trimming_removes_surrounding_whitespace_only() {
    assert_eq!(trim_bytes(&b("  a b \r\n")), b("a b"));
    assert_eq!(trim_bytes(&b("ab")), b("ab"));
    assert_eq!(trim_bytes(&b(" \t ")), b(""));
}

#[test]
fn splitting_keeps_empty_tokens() {
    let parts = split_spaces_exec(&b("a  b"));
    assert_eq!(parts, vec![b("a"), b(""), b("b")]);
    let parts = split_spaces_exec(&b(""));
    assert_eq!(parts, vec![b("")]);
}

#[test]
fn a_complete_line_is_cut_at_the_first_newline() {
    let mut buf = b("GET / HTTP/1.1\r\n");
    buf.extend_from_slice(b"Host: x\r\n");
    match scan_request_line(&buf, 2048) {
        LineScan::Complete(line) => assert_eq!(line, b("GET / HTTP/1.1\r")),
        _ => panic!("expected a complete line"),
    }
}

#[test]
fn a_buffer_without_newline_under_the_ceiling_needs_more() {
    let buf = vec![b'a'; 10];
    assert!(matches!(scan_request_line(&buf, 2048), LineScan::NeedMore));
}

#[test]
fn a_line_over_the_ceiling_fails_with_too_large() {
    // A buffer that has reached the ceiling without a newline is rejected,
    // never waited on.
    let buf = vec![b'a'; 2048];
    assert!(matches!(scan_request_line(&buf, 2048), LineScan::TooLarge));
    let buf = vec![b'a'; 4096];
    assert!(matches!(scan_request_line(&buf, 2048), LineScan::TooLarge));
}

#[test]
fn a_newline_at_the_ceiling_still_completes() {
    let mut buf = vec![b'a'; 2047];
    buf.push(b'\n');
    match scan_request_line(&buf, 2048) {
        LineScan::Complete(line) => assert_eq!(line.len(), 2047),
        _ => panic!("expected a complete line"),
    }
}

#[test]
fn parse_errors_carry_short_descriptions() {
    assert_eq!(HttpParseError::UriTooLong.message(), "Uri is too long");
    assert_eq!(HttpParseError::UnsupportedMethod.message(), "Unsupported method");
}

#[test]
fn methods_name_themselves_on_the_wire() {
    assert_eq!(HttpMethod::Get.name(), "GET");
    assert_eq!(HttpMethod::Post.name(), "POST");
}
