use signing_proxy::proxy::{
    forward_request, is_forwardable, is_parseable, lock_failure_response, parse,
    service_unavailable_response, Proxy, Reply, Request,
};
use signing_proxy::server::registration_request;

fn request(method: &str, uri: &str, body: &str) -> Request {
    Request {
        signature: "N/A".to_string(),
        method: method.to_string(),
        uri: uri.to_string(),
        host: "0.0.0.0:2006".to_string(),
        body: body.to_string(),
    }
}

#[test]
fn parse_takes_method_path_and_body() {
    let r = parse("GET /index.html HTTP/1.1\r\nHost: x\r\n\r\nhello\0\0".to_string());
    assert_eq!(r.method, "GET");
    assert_eq!(r.uri, "/index.html");
    assert_eq!(r.body, "hello\0\0");
    assert_eq!(r.host, "0.0.0.0:2006");
    assert_eq!(r.signature, "N/A");
}

#[test]
fn parse_splits_on_any_white_space() {
    let r = parse("  POST\t/upload  HTTP/1.1\r\n\r\n".to_string());
    assert_eq!(r.method, "POST");
    assert_eq!(r.uri, "/upload");
    assert_eq!(r.body, "");
}

#[test]
fn parse_body_starts_after_first_blank_line() {
    let r = parse("GET / HTTP/1.1\r\n\r\na\r\n\r\nb".to_string());
    assert_eq!(r.body, "a\r\n\r\nb");
}

#[test]
fn unparseable_requests_are_recognised() {
    assert!(!is_parseable(""));
    assert!(!is_parseable("GET\r\n\r\n"));
    assert!(!is_parseable("GET / HTTP/1.1\r\nHost: x\r\n"));
    assert!(is_parseable("GET / HTTP/1.1\r\n\r\n"));
}

#[test]
fn registration_stores_trimmed_secret() {
    let mut proxy = Proxy::new();
    let reply = proxy.handle(request("POST", "/register-secret", "  abc123 \0\0\0"));
    match reply {
        Reply::Respond(text) => assert_eq!(text, "HTTP/1.1 200 OK\r\n\r\n"),
        _ => panic!("registration not answered"),
    }
    assert_eq!(proxy.secret.as_deref(), Some("abc123 "));
}

#[test]
fn favicon_is_answered_without_content() {
    let mut proxy = Proxy::new();
    match proxy.handle(request("GET", "/favicon.ico", "")) {
        Reply::Respond(text) => assert_eq!(text, "HTTP/1.1 204 NO CONTENT\r\n\r\n"),
        _ => panic!("favicon not answered"),
    }
    assert!(proxy.secret.is_none());
}

#[test]
fn requests_before_registration_are_unavailable() {
    let mut proxy = Proxy::new();
    assert!(matches!(proxy.handle(request("GET", "/", "")), Reply::Unavailable));
    assert!(proxy.secret.is_none());
}

#[test]
fn requests_after_registration_are_signed() {
    let mut proxy = Proxy::new();
    proxy.handle(request("POST", "/register-secret", "s3cr3t\0\0"));
    match proxy.handle(request("GET", "/a.txt", "x")) {
        Reply::Forward(r) => {
            assert_eq!(r.signature, "s3cr3t");
            assert_eq!(r.method, "GET");
            assert_eq!(r.uri, "/a.txt");
            assert_eq!(r.body, "x");
        },
        _ => panic!("not forwarded"),
    }
    assert_eq!(proxy.secret.as_deref(), Some("s3cr3t"));
}

#[test]
fn forward_get_has_signature_line_first() {
    let mut r = request("GET", "/a.txt", "body");
    r.signature = "key".to_string();
    assert_eq!(
        forward_request(&r).unwrap(),
        "X-Proxy-Signature: key\r\nGET /a.txt HTTP/1.1\r\nHost: 0.0.0.0:2006\r\n\r\nbody"
    );
}

#[test]
fn forward_upload_carries_name_and_content() {
    let body = "------WebKitFormBoundary\r\nContent-Disposition: form-data; name=\"file\"; filename=\"notes.txt\"\r\nContent-Type: text/plain\r\n\r\nhéllo \0\r\n------WebKitFormBoundary--\r\n";
    let mut r = request("POST", "/upload", body);
    r.signature = "key".to_string();
    assert!(is_forwardable(&r));
    assert_eq!(
        forward_request(&r).unwrap(),
        "X-Proxy-Signature: key\r\nPOST /upload HTTP/1.1\r\nHost: 0.0.0.0:2006\r\nFile-Name: notes.txt\r\nContent-Length: 6\r\n\r\nhéllo"
    );
}

#[test]
fn malformed_upload_is_not_forwardable() {
    let r = request("POST", "/upload", "only one line");
    assert!(!is_forwardable(&r));
    assert!(is_forwardable(&request("PUT", "/x", "")));
}

#[test]
fn other_requests_are_not_forwarded() {
    assert!(forward_request(&request("PUT", "/x", "")).is_none());
    assert!(forward_request(&request("POST", "/other", "")).is_none());
}

#[test]
fn unavailable_responses_count_bytes() {
    let page = "<p>é</p>".to_string();
    assert_eq!(
        service_unavailable_response(&page),
        "HTTP/1.1 503 SERVICE UNAVAIBLE\r\nContent-Length: 9\r\nContent-Type: text/html; charset=utf-8\r\n\r\n<p>é</p>"
    );
    assert_eq!(
        lock_failure_response(&page),
        "HTTP/1.1 503 SERVICE UNAVAIBLE\r\nContent-Length: 9\r\nContent-Type: text/html;charset=utf-8\r\n\r\n<p>é</p>"
    );
}

#[test]
fn server_registration_is_stored_by_proxy() {
    let secret = "0123456789abcdef";
    let mut text = registration_request(secret);
    text.push_str(&"\0".repeat(100));
    let mut proxy = Proxy::new();
    let r = parse(text);
    assert_eq!(r.method, "POST");
    assert_eq!(r.uri, "/register-secret");
    proxy.handle(r);
    assert_eq!(proxy.secret.as_deref(), Some(secret));
}
