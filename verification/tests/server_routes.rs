use wsh::config::Config;
use wsh::config::ConfigEntry;
use wsh::http::HttpRequest;
use wsh::response::HttpResponse;
use wsh::server::ReadHandler;
use wsh::server::RequestHandlerFunc;
use wsh::server::WriteHandler;
use wsh::server::default_routes;
use wsh::server::error_response;
use wsh::server::info_response;
use wsh::server::not_found_response;
use wsh::server::redirect_handler;
use wsh::server::reload_notify_url;
use wsh::server::reload_response;
use wsh::server::send_config_file;

fn b(s: &str) -> Vec<u8> {
    s.as_bytes().to_vec()
}

fn req(line: &str) -> HttpRequest {
    HttpRequest::parse_from_string(&b(line)).expect("valid request line")
}

fn host_config() -> Config {
    Config::from_entries(
        &b("./sites.toml"),
        true,
        b'!',
        &vec![ConfigEntry {
            key: b("g"),
            url: b("https://example.com/search?q={{s}}"),
            aliases: vec![],
        }],
    )
    .expect("config must build")
}

fn mirror_config() -> Config {
    Config::from_entries(
        &b("http://host.example"),
        false,
        b'!',
        &vec![ConfigEntry {
            key: b("g"),
            url: b("https://example.com/search?q={{s}}"),
            aliases: vec![],
        }],
    )
    .expect("config must build")
}

fn header_value(r: &HttpResponse, name: &str) -> Option<Vec<u8>> {
    r.headers
        .iter()
        .find(|h| h.name == b(name))
        .map(|h| h.value.clone())
}

#[test]
fn routes_are_matched_first_registered_first() {
    let router = default_routes();
    assert_eq!(
        router.find_handler(&req("GET /u/ HTTP/1.1")),
        Some(RequestHandlerFunc::ReadFunc(ReadHandler::SendConfigFile))
    );
    assert_eq!(
        router.find_handler(&req("GET /r/ HTTP/1.1")),
        Some(RequestHandlerFunc::WriteFunc(WriteHandler::ReloadConfig))
    );
    assert_eq!(
        router.find_handler(&req("GET /i/ HTTP/1.1")),
        Some(RequestHandlerFunc::ReadFunc(ReadHandler::Info))
    );
    assert_eq!(
        router.find_handler(&req("GET /anything HTTP/1.1")),
        Some(RequestHandlerFunc::ReadFunc(ReadHandler::Redirect))
    );
    // A longer prefix registered first keeps priority over the catch-all.
    assert_eq!(
        router.find_handler(&req("GET /u/extra HTTP/1.1")),
        Some(RequestHandlerFunc::ReadFunc(ReadHandler::SendConfigFile))
    );
}

#[test]
fn post_requests_match_no_default_route() {
    let router = default_routes();
    assert_eq!(router.find_handler(&req("POST /u/ HTTP/1.1")), None);
}

#[test]
fn host_serves_the_raw_config_text_cors_open() {
    let config = host_config();
    let r = send_config_file(&config, Some(b("sites text")));
    assert_eq!(r.status, 200);
    assert_eq!(r.body, b("sites text"));
    assert_eq!(header_value(&r, "Content-Type"), Some(b("text/plain")));
    assert_eq!(header_value(&r, "Access-Control-Allow-Origin"), Some(b("*")));
}

#[test]
fn mirror_redirects_config_requests_to_the_host() {
    let config = mirror_config();
    let r = send_config_file(&config, None);
    assert_eq!(r.status, 301);
    assert!(r.body.is_empty());
    assert_eq!(
        header_value(&r, "Location"),
        Some(b("http://host.example/u/"))
    );
}

#[test]
fn only_a_mirror_relays_reload_requests() {
    assert_eq!(reload_notify_url(&host_config()), None);
    assert_eq!(
        reload_notify_url(&mirror_config()),
        Some(b("http://host.example/r/"))
    );
}

#[test]
fn reload_success_answer_is_plain_text() {
    let r = reload_response();
    assert_eq!(r.status, 200);
    assert_eq!(r.body, b("Reloaded configuration"));
}

#[test]
fn redirect_handler_decodes_resolves_and_redirects() {
    let config = host_config();
    let r = redirect_handler(&req("GET /!g+hello+world HTTP/1.1"), &config);
    assert_eq!(r.status, 301);
    assert!(r.body.is_empty());
    assert_eq!(
        header_value(&r, "Location"),
        Some(b("https://example.com/search?q=hello%20world"))
    );
}

#[test]
fn not_found_and_error_answers() {
    let r = not_found_response();
    assert_eq!(r.status, 404);
    assert_eq!(r.body, b("Not found"));
    let r = error_response(b("boom"));
    assert_eq!(r.status, 500);
    assert_eq!(r.body, b("boom"));
}

#[test]
fn info_answer_is_plain_text() {
    let r = info_response();
    assert_eq!(r.status, 200);
    assert_eq!(header_value(&r, "Content-Type"), Some(b("text/plain")));
    assert!(!r.body.is_empty());
}

#[test]
fn responses_serialize_with_status_line_headers_and_content_length() {
    let mut r = HttpResponse::new(200, b("hi"));
    r.add_header(b("Content-Type"), b("text/plain"));
    let bytes = r.to_bytes();
    assert_eq!(
        bytes,
        b("HTTP/1.1 200 OK\r\nContent-Type: text/plain\r\nContent-Length: 2\r\n\r\nhi")
    );
}

#[test]
fn redirect_responses_serialize_with_their_location() {
    let mut r = HttpResponse::new(301, Vec::new());
    r.add_header(b("Location"), b("https://example.com/"));
    let bytes = r.to_bytes();
    assert_eq!(
        bytes,
        b("HTTP/1.1 301 Moved Permanently\r\nLocation: https://example.com/\r\nContent-Length: 0\r\n\r\n")
    );
}

#[test]
fn content_length_counts_the_body_bytes_in_decimal() {
    let body = vec![b'x'; 12345];
    let r = HttpResponse::new(200, body);
    let bytes = r.to_bytes();
    let text = String::from_utf8(bytes).expect("ascii header, ascii body");
    assert!(text.starts_with("HTTP/1.1 200 OK\r\nContent-Length: 12345\r\n\r\n"));
    assert_eq!(text.len(), "HTTP/1.1 200 OK\r\nContent-Length: 12345\r\n\r\n".len() + 12345);
}

#[test]
fn error_responses_serialize_with_their_status() {
    let bytes = error_response(b("bad")).to_bytes();
    assert_eq!(
        bytes,
        b("HTTP/1.1 500 Internal Server Error\r\nContent-Length: 3\r\n\r\nbad")
    );
}
