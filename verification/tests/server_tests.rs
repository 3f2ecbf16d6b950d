use signing_proxy::proxy;
use signing_proxy::server::{
    content_type_and_folder, file_path, forbidden_response, has_extension, is_file_parseable,
    is_parseable, not_found_response, ok_response, page_kind, parse, redirect_response,
    registration_outcome, registration_request, renamed_upload_path, requested_file, route_kind,
    signature_is_valid, upload_candidate, upload_content, upload_path, upload_step, connection_action,
    ConnectionAction, PageKind, Request, Route, UploadStep,
};

fn request(method: &str, uri: &str) -> Request {
    Request {
        signature: "N/A".to_string(),
        method: method.to_string(),
        uri: uri.to_string(),
        host: "0.0.0.0:2006".to_string(),
        body: String::new(),
        file_name: "None file has been passed".to_string(),
    }
}

#[test]
fn parse_signed_get() {
    let r = parse("X-Proxy-Signature: abc: def\r\nGET /x.css HTTP/1.1\r\nHost: h\r\n\r\nbody".to_string());
    assert_eq!(r.signature, "abc: def");
    assert_eq!(r.method, "GET");
    assert_eq!(r.uri, "/x.css");
    assert_eq!(r.body, "body");
    assert_eq!(r.file_name, "None file has been passed");
}

#[test]
fn parse_unsigned_request() {
    let r = parse("GET / HTTP/1.1\r\n\r\n".to_string());
    assert_eq!(r.signature, "N/A");
    assert_eq!(r.uri, "/");
}

#[test]
fn parse_signature_line_without_separator() {
    let r = parse("X-Proxy-Signature\r\nGET / HTTP/1.1\r\n\r\n".to_string());
    assert_eq!(r.signature, "N/A");
}

#[test]
fn parse_upload_takes_file_name_from_fourth_line() {
    let r = parse("X-Proxy-Signature: k\r\nPOST /upload HTTP/1.1\r\nHost: h\r\nFile-Name: a.txt\r\nContent-Length: 2\r\n\r\nhi".to_string());
    assert_eq!(r.file_name, "a.txt");
    assert_eq!(r.body, "hi");
}

#[test]
fn unparseable_server_requests() {
    assert!(!is_parseable("X-Proxy-Signature: k\r\n"));
    assert!(!is_parseable("GET / HTTP/1.1\r\n"));
    assert!(!is_parseable("POST /upload HTTP/1.1\r\nA\r\nB\r\n\r\n"));
    assert!(is_parseable("POST /upload HTTP/1.1\r\nA\r\nB\r\nFile-Name: x\r\n\r\n"));
}

#[test]
fn forwarded_get_passes_the_signature_check() {
    let r = proxy::Request {
        signature: "feedbeef".to_string(),
        method: "GET".to_string(),
        uri: "/?file=a.txt".to_string(),
        host: "0.0.0.0:2006".to_string(),
        body: "\0\0".to_string(),
    };
    let sent = proxy::forward_request(&r).unwrap();
    assert!(is_parseable(&sent));
    let got = parse(sent);
    assert!(signature_is_valid(&got, &"feedbeef".to_string()));
    assert!(!signature_is_valid(&got, &"other".to_string()));
    assert_eq!(got.uri, "/?file=a.txt");
}

#[test]
fn forwarded_upload_is_read_back() {
    let r = proxy::Request {
        signature: "k".to_string(),
        method: "POST".to_string(),
        uri: "/upload".to_string(),
        host: "0.0.0.0:2006".to_string(),
        body: "--b\r\nContent-Disposition: form-data; name=\"f\"; filename=\"n.txt\"\r\n\r\ndata\r\n--b--".to_string(),
    };
    let got = parse(proxy::forward_request(&r).unwrap());
    assert_eq!(got.file_name, "n.txt");
    assert_eq!(got.body, "data");
    assert_eq!(upload_content(&got), "data");
}

#[test]
fn routes() {
    assert!(matches!(route_kind(&request("GET", "/")), Route::Get));
    assert!(matches!(route_kind(&request("POST", "/upload")), Route::Upload));
    assert!(matches!(route_kind(&request("POST", "/x")), Route::Ignore));
    assert!(matches!(route_kind(&request("DELETE", "/")), Route::Ignore));
}

#[test]
fn requested_files() {
    assert_eq!(requested_file(&"/".to_string()), "");
    assert_eq!(requested_file(&"/style.css".to_string()), "style.css");
    assert_eq!(requested_file(&"/a/b".to_string()), "a/b");
    assert_eq!(requested_file(&"/?file=a=b.txt".to_string()), "a=b.txt");
    assert_eq!(requested_file(&"x".to_string()), "x");
    assert!(!is_file_parseable(&"/?file".to_string()));
    assert!(is_file_parseable(&"/?file=".to_string()));
}

#[test]
fn content_types() {
    let kind = |f: &str| {
        let (t, d) = content_type_and_folder(&f.to_string());
        (t, d)
    };
    assert_eq!(kind(""), ("text/html;charset=utf-8".to_string(), "pages".to_string()));
    assert_eq!(kind("index.html"), ("text/html;charset=utf-8".to_string(), "pages".to_string()));
    assert_eq!(kind("style.css"), ("text/css".to_string(), "pages".to_string()));
    assert_eq!(kind("cat.jpg"), ("image/jpeg".to_string(), "data".to_string()));
    assert_eq!(kind("dog.png"), ("image/png".to_string(), "data".to_string()));
    assert_eq!(kind("notes.txt"), ("text/html;charset=utf-8".to_string(), "data".to_string()));
    assert_eq!(kind("html.png"), ("text/html;charset=utf-8".to_string(), "pages".to_string()));
}

#[test]
fn paths() {
    assert_eq!(file_path(&"data".to_string(), &"a.txt".to_string()), "./data/a.txt");
    assert_eq!(upload_path(&"a.txt".to_string()), "./data/a.txt");
    assert_eq!(renamed_upload_path(&"a.tar.gz".to_string(), 2), "./data/a_2.tar.gz");
    assert_eq!(renamed_upload_path(&"a.txt".to_string(), 10), "./data/a_10.txt");
    assert!(has_extension(&"a.txt".to_string()));
    assert!(!has_extension(&"README".to_string()));
}

#[test]
fn page_kinds() {
    assert!(matches!(page_kind(&"".to_string()), PageKind::Index));
    assert!(matches!(page_kind(&"a.txt".to_string()), PageKind::Document));
    assert!(matches!(page_kind(&"s.css".to_string()), PageKind::Stylesheet));
    assert!(matches!(page_kind(&"s.css.txt".to_string()), PageKind::Document));
}

#[test]
fn responses() {
    let c = "ação".to_string();
    assert_eq!(
        ok_response(&"text/css".to_string(), &c),
        "HTTP/1.1 200 OK\r\nContent-Type: text/css\r\nContent-Length: 6\r\n\r\nação"
    );
    assert_eq!(
        not_found_response(&c),
        "HTTP/1.1 404 NOT FOUND\r\nContent-Length: 6\r\nContent-Type: text/html\r\n\r\nação"
    );
    assert_eq!(
        forbidden_response(&c),
        "HTTP/1.1 403 FORBIDDEN\r\nContent-Length: 6\r\nContent-Type: text/html\r\n\r\nação"
    );
    assert_eq!(
        redirect_response(&String::new()),
        "HTTP/1.1 302 MOVED PERMANENTLY\r\nLocation:/\r\nContent-Type: text/html\r\nContent-Length: 0\r\n\r\n"
    );
}

#[test]
fn upload_content_is_trimmed() {
    let mut r = request("POST", "/upload");
    r.body = "  data \0\0".to_string();
    assert_eq!(upload_content(&r), "data ");
}

#[test]
fn registration_messages() {
    assert_eq!(
        registration_request("abc"),
        "POST /register-secret HTTP/1.1\r\nHost: 0.0.0.0:2006\r\nContent-Type: text/plain\r\nContent-Length: 3\r\n\r\nabc"
    );
    assert!(registration_outcome("HTTP/1.1 200 OK\r\n\r\n\0\0\0").is_ok());
    assert_eq!(
        registration_outcome("HTTP/1.1 500 X").unwrap_err(),
        "Secret Key registration have failed. Proxy's answer: HTTP/1.1 500 X"
    );
}

#[test]
fn proxy_answer_to_registration_is_accepted() {
    let mut p = proxy::Proxy::new();
    let mut text = registration_request("00ff");
    text.push_str("\0\0\0");
    match p.handle(proxy::parse(text)) {
        proxy::Reply::Respond(answer) => {
            let mut buffer = answer.clone();
            buffer.push_str(&"\0".repeat(400));
            assert!(registration_outcome(&buffer).is_ok());
        },
        _ => panic!("registration not answered"),
    }
}

#[test]
fn registered_proxy_signs_client_gets() {
    let secret = signing_proxy::secret::secret_key_from("key string");
    let mut text = registration_request(&secret);
    text.push_str(&"\0".repeat(64));
    let mut p = proxy::Proxy::new();
    p.handle(proxy::parse(text));
    let client = proxy::parse("GET /?file=a.txt HTTP/1.1\r\nHost: browser\r\n\r\n\0\0\0".to_string());
    match p.handle(client) {
        proxy::Reply::Forward(signed) => {
            let got = parse(proxy::forward_request(&signed).unwrap());
            assert!(signature_is_valid(&got, &secret));
            assert_eq!(got.method, "GET");
            assert_eq!(got.uri, "/?file=a.txt");
        },
        _ => panic!("not forwarded"),
    }
}

#[test]
fn upload_candidate_paths_differ() {
    let name = "report.final.pdf".to_string();
    let mut seen = vec![upload_path(&name)];
    for counter in 2..200usize {
        let path = renamed_upload_path(&name, counter);
        assert!(!seen.contains(&path));
        seen.push(path);
    }
    assert_eq!(seen[1], "./data/report_2.final.pdf");
}

#[test]
fn upload_candidates_follow_attempts() {
    let name = "a.txt".to_string();
    assert_eq!(upload_candidate(&name, 0), "./data/a.txt");
    assert_eq!(upload_candidate(&name, 1), "./data/a_2.txt");
    assert_eq!(upload_candidate(&name, 2), "./data/a_3.txt");
    assert_eq!(upload_candidate(&"README".to_string(), 0), "./data/README");
}

#[test]
fn upload_text_with_any_content_is_read_back() {
    let content = "line one\r\n\r\nX-Proxy-Signature: nope\r\n";
    let text = format!(
        "X-Proxy-Signature: sig: x\r\nPOST /upload HTTP/1.1\r\nHost: somewhere\r\nFile-Name: a: b.txt\r\nContent-Length: {}\r\n\r\n{}",
        content.len(),
        content
    );
    assert!(is_parseable(&text));
    let got = parse(text);
    assert_eq!(got.signature, "sig: x");
    assert_eq!(got.file_name, "a: b.txt");
    assert_eq!(got.body, content);
    assert_eq!(got.host, "0.0.0.0:2006");
}

#[test]
fn upload_steps() {
    use_step(upload_step(&"a.txt".to_string(), 0, false), "store");
    use_step(upload_step(&"a.txt".to_string(), 3, true), "next4");
    use_step(upload_step(&"README".to_string(), 0, true), "fail");
    use_step(upload_step(&"README".to_string(), 0, false), "store");
}

fn use_step(step: UploadStep, expected: &str) {
    let got = match step {
        UploadStep::Store => "store".to_string(),
        UploadStep::Next(n) => format!("next{}", n),
        UploadStep::Fail => "fail".to_string(),
    };
    assert_eq!(got, expected);
}

#[test]
fn connection_actions() {
    let mut r = request("GET", "/");
    r.signature = "s".to_string();
    assert!(matches!(connection_action(&r, &"s".to_string()), ConnectionAction::Route));
    assert!(matches!(connection_action(&r, &"t".to_string()), ConnectionAction::Forbidden));
    r.signature = "N/A".to_string();
    assert!(matches!(connection_action(&r, &"s".to_string()), ConnectionAction::Forbidden));
}

#[test]
fn registered_proxy_signs_client_uploads() {
    let secret = signing_proxy::secret::secret_key_from("another key");
    let mut text = registration_request(&secret);
    text.push_str(&"\0".repeat(32));
    let mut p = proxy::Proxy::new();
    p.handle(proxy::parse(text));
    let client = proxy::parse(
        "POST /upload HTTP/1.1\r\nHost: b\r\n\r\n--x\r\nContent-Disposition: form-data; name=\"f\"; filename=\"\\\"q\\\".txt\"\r\n\r\nhello\r\n--x--\0\0"
            .to_string(),
    );
    match p.handle(client) {
        proxy::Reply::Forward(signed) => {
            let got = parse(proxy::forward_request(&signed).unwrap());
            assert!(matches!(connection_action(&got, &secret), ConnectionAction::Route));
            assert_eq!(got.file_name, "\\q\\.txt");
            assert_eq!(got.body, "hello");
        },
        _ => panic!("not forwarded"),
    }
}
