//! The reverse proxy: how it reads a client's request, what it answers, and the
//! request it sends on to the server, signed with the secret the server registered.

use vstd::prelude::*;
use crate::text::{
    chars_of, decimal, extend, line, line_at, nth_piece, push_decimal, remove_char, same_text,
    split_once, split_once_at, split_piece, string_of, trim, trim_end_char, trimmed,
    trimmed_end_char, utf8_len, byte_len, without_char, words, words_of, contains, has_infix,
    ends_with, find, lemma_find, lemma_find_is, matches_at, crlf_clean, frames_content,
    lemma_length_framed,
};

verus! {

/// A client's request as the proxy sees it.
pub struct Request {
    pub signature: String,
    pub method: String,
    pub uri: String,
    pub host: String,
    pub body: String,
}

/// The characters of each field of a [`Request`].
pub struct RequestView {
    pub signature: Seq<char>,
    pub method: Seq<char>,
    pub uri: Seq<char>,
    pub host: Seq<char>,
    pub body: Seq<char>,
}

impl View for Request {
    type V = RequestView;

    open spec fn view(&self) -> RequestView {
        RequestView {
            signature: self.signature@,
            method: self.method@,
            uri: self.uri@,
            host: self.host@,
            body: self.body@,
        }
    }
}

/// The first line of a request.
pub open spec fn main_header(s: Seq<char>) -> Seq<char> {
    line(s, 0)->0
}

/// A request the proxy can take apart: it has a first line with at least two words
/// and a blank line (`\r\n\r\n`) that starts the body.
pub open spec fn parseable(s: Seq<char>) -> bool {
    &&& line(s, 0) is Some
    &&& words(main_header(s)).len() >= 2
    &&& contains(s, "\r\n\r\n"@)
}

/// What `parse` makes of a request: the method and path are the first two words of
/// the first line, the body is what follows the first blank line, the host is the
/// proxy's own address and the signature is not known yet.
pub open spec fn parse_spec(s: Seq<char>) -> RequestView {
    RequestView {
        signature: "N/A"@,
        method: words(main_header(s))[0],
        uri: words(main_header(s))[1],
        host: "0.0.0.0:2006"@,
        body: (split_once(s, "\r\n\r\n"@)->0).1,
    }
}

/// Decides [`parseable`].
pub fn is_parseable(request: &str) -> (b: bool)
    ensures
        b == parseable(request@),
{
    let s = chars_of(request);
    match line_at(&s, 0) {
        Some(first) => {
            let ws = words_of(&first);
            if ws.len() < 2 {
                return false;
            }
            let blank = chars_of("\r\n\r\n");
            has_infix(&s, &blank)
        },
        None => false,
    }
}

/// Turns a request into a [`Request`].
pub fn parse(request: String) -> (r: Request)
    requires
        parseable(request@),
    ensures
        r@ == parse_spec(request@),
{
    let s = chars_of(request.as_str());
    let first = line_at(&s, 0).unwrap();
    let ws = words_of(&first);
    assert(ws@[0]@ == words(first@)[0] && ws@[1]@ == words(first@)[1]);
    let method = string_of(&ws[0]);
    let uri = string_of(&ws[1]);
    let blank = chars_of("\r\n\r\n");
    let (_, body) = split_once_at(&s, &blank).unwrap();
    Request {
        method,
        signature: "N/A".to_owned(),
        uri,
        host: "0.0.0.0:2006".to_owned(),
        body: string_of(&body),
    }
}


/// The request by which the server registers its secret.
pub open spec fn is_registration(r: RequestView) -> bool {
    r.method == "POST"@ && r.uri == "/register-secret"@
}

/// A browser's request for the site icon.
pub open spec fn is_favicon(r: RequestView) -> bool {
    r.method == "GET"@ && r.uri == "/favicon.ico"@
}

/// A file upload.
pub open spec fn is_upload(r: RequestView) -> bool {
    r.method == "POST"@ && r.uri == "/upload"@
}

/// What the proxy keeps of a registration body: the body without surrounding white
/// space, then without the NUL characters that end it.
pub open spec fn registered_secret(body: Seq<char>) -> Seq<char> {
    trim_end_char(trim(body), '\0')
}

/// The proxy's state: the secret the server registered, if it has.
pub struct Proxy {
    pub secret: Option<String>,
}

impl View for Proxy {
    type V = Option<Seq<char>>;

    open spec fn view(&self) -> Option<Seq<char>> {
        match self.secret {
            Some(s) => Some(s@),
            None => None,
        }
    }
}

/// What the proxy does with a request.
pub enum Reply {
    /// Send this response to the client.
    Respond(String),
    /// No secret is known yet: answer with the "service unavailable" page.
    Unavailable,
    /// Pass this request, now signed, on to the server.
    Forward(Request),
}

/// The characters of a [`Reply`].
pub enum ReplyView {
    Respond(Seq<char>),
    Unavailable,
    Forward(RequestView),
}

impl View for Reply {
    type V = ReplyView;

    open spec fn view(&self) -> ReplyView {
        match self {
            Reply::Respond(s) => ReplyView::Respond(s@),
            Reply::Unavailable => ReplyView::Unavailable,
            Reply::Forward(r) => ReplyView::Forward(r@),
        }
    }
}

/// The proxy's next state and reply for a request: a registration stores the secret
/// and is answered `200 OK`; the icon is answered `204 NO CONTENT`; any other request
/// is signed with the stored secret and forwarded, or, with no secret yet, refused.
pub open spec fn handle_spec(state: Option<Seq<char>>, r: RequestView) -> (
    Option<Seq<char>>,
    ReplyView,
) {
    if is_registration(r) {
        (Some(registered_secret(r.body)), ReplyView::Respond("HTTP/1.1 200 OK\r\n\r\n"@))
    } else if is_favicon(r) {
        (state, ReplyView::Respond("HTTP/1.1 204 NO CONTENT\r\n\r\n"@))
    } else {
        match state {
            None => (state, ReplyView::Unavailable),
            Some(k) => (
                state,
                ReplyView::Forward(
                    RequestView {
                        signature: k,
                        method: r.method,
                        uri: r.uri,
                        host: r.host,
                        body: r.body,
                    },
                ),
            ),
        }
    }
}

/// The kinds of request the proxy tells apart.
pub enum RequestKind {
    Registration,
    Favicon,
    Other,
}

/// The kind of a request: a registration, the icon, or anything else.
pub fn request_kind(request: &Request) -> (k: RequestKind)
    ensures
        k == (if is_registration(request@) {
            RequestKind::Registration
        } else if is_favicon(request@) {
            RequestKind::Favicon
        } else {
            RequestKind::Other
        }),
{
    if same_text(&request.method, "POST") && same_text(&request.uri, "/register-secret") {
        RequestKind::Registration
    } else if same_text(&request.method, "GET") && same_text(&request.uri, "/favicon.ico") {
        RequestKind::Favicon
    } else {
        RequestKind::Other
    }
}

/// The answer to a registration.
pub fn registration_response() -> (r: String)
    ensures
        r@ == "HTTP/1.1 200 OK\r\n\r\n"@,
{
    "HTTP/1.1 200 OK\r\n\r\n".to_owned()
}

/// The answer to a request for the icon.
pub fn favicon_response() -> (r: String)
    ensures
        r@ == "HTTP/1.1 204 NO CONTENT\r\n\r\n"@,
{
    "HTTP/1.1 204 NO CONTENT\r\n\r\n".to_owned()
}

impl Proxy {
    /// A proxy that knows no secret yet.
    pub fn new() -> (p: Proxy)
        ensures
            p@ is None,
    {
        Proxy { secret: None }
    }

    /// Decides what to do with a request, and stores the secret a registration carries.
    pub fn handle(&mut self, request: Request) -> (reply: Reply)
        ensures
            (final(self)@, reply@) == handle_spec(old(self)@, request@),
    {
        match request_kind(&request) {
            RequestKind::Registration => {
                let body = chars_of(request.body.as_str());
                let t = trimmed(&body);
                let k = trimmed_end_char(&t, '\0');
                self.secret = Some(string_of(&k));
                Reply::Respond(registration_response())
            },
            RequestKind::Favicon => Reply::Respond(favicon_response()),
            RequestKind::Other => match &self.secret {
                None => Reply::Unavailable,
                Some(k) => Reply::Forward(
                    Request {
                        signature: k.clone(),
                        method: request.method,
                        uri: request.uri,
                        host: request.host,
                        body: request.body,
                    },
                ),
            },
        }
    }
}

/// Only a registration changes the stored secret; every other request leaves it as
/// it was.
pub proof fn lemma_secret_changes_only_on_registration(state: Option<Seq<char>>, r: RequestView)
    requires
        !is_registration(r),
    ensures
        handle_spec(state, r).0 == state,
{
}

/// The proxy forwards a request only once it knows a secret, and the forwarded request
/// carries that secret as its signature and the client's method, path, host and body.
pub proof fn lemma_forwarded_requests_carry_secret(state: Option<Seq<char>>, r: RequestView)
    ensures
        handle_spec(state, r).1 matches ReplyView::Forward(f) ==> {
            &&& state == Some(f.signature)
            &&& f.method == r.method
            &&& f.uri == r.uri
            &&& f.host == r.host
            &&& f.body == r.body
        },
{
}

/// The name and the content of an uploaded file, taken from a multipart body: the
/// name is the value after `=` in the third `; `-separated part of the second line,
/// without quotes; the content is the text between the first blank line and the next
/// line break, without the NUL characters that end it and without surrounding white
/// space.
pub open spec fn upload_fields(body: Seq<char>) -> Option<(Seq<char>, Seq<char>)> {
    match line(body, 1) {
        None => None,
        Some(l) => match split_piece(l, "; "@, 2) {
            None => None,
            Some(part) => match split_once(part, "="@) {
                None => None,
                Some((_, value)) => match split_once(body, "\r\n\r\n"@) {
                    None => None,
                    Some((_, after)) => match split_once(after, "\r\n"@) {
                        None => None,
                        Some((c, _)) => Some(
                            (remove_char(value, '"'), trim(trim_end_char(c, '\0'))),
                        ),
                    },
                },
            },
        },
    }
}

/// Computes [`upload_fields`].
pub fn upload_fields_of(body: &[char]) -> (r: Option<(Vec<char>, Vec<char>)>)
    ensures
        match r {
            Some((n, c)) => upload_fields(body@) == Some((n@, c@)),
            None => upload_fields(body@) is None,
        },
{
    let l = match line_at(body, 1) {
        Some(l) => l,
        None => return None,
    };
    let sep = chars_of("; ");
    let part = match nth_piece(&l, &sep, 2) {
        Some(p) => p,
        None => return None,
    };
    let eq = chars_of("=");
    let value = match split_once_at(&part, &eq) {
        Some((_, v)) => v,
        None => return None,
    };
    let blank = chars_of("\r\n\r\n");
    let after = match split_once_at(body, &blank) {
        Some((_, a)) => a,
        None => return None,
    };
    let crlf = chars_of("\r\n");
    let c = match split_once_at(&after, &crlf) {
        Some((c, _)) => c,
        None => return None,
    };
    let name = without_char(&value, '"');
    let c = trimmed_end_char(&c, '\0');
    let content = trimmed(&c);
    Some((name, content))
}

/// A request the proxy can forward without failing: an upload must carry a file
/// name and content in its body.
pub open spec fn forwardable(r: RequestView) -> bool {
    is_upload(r) ==> upload_fields(r.body) is Some
}

/// The request the proxy sends to the server: a `GET` is passed on with its body; an
/// upload is passed on with the file's name and content; anything else is not sent.
/// Each starts with the `X-Proxy-Signature` line.
pub open spec fn forward_spec(r: RequestView) -> Option<Seq<char>> {
    if r.method == "GET"@ {
        Some(
            "X-Proxy-Signature: "@ + r.signature + "\r\n"@ + r.method + " "@ + r.uri
                + " HTTP/1.1\r\nHost: "@ + r.host + "\r\n\r\n"@ + r.body,
        )
    } else if is_upload(r) {
        let (name, content) = upload_fields(r.body)->0;
        Some(
            "X-Proxy-Signature: "@ + r.signature + "\r\n"@ + r.method + " "@ + r.uri
                + " HTTP/1.1\r\nHost: "@ + r.host + "\r\nFile-Name: "@ + name
                + "\r\nContent-Length: "@ + decimal(utf8_len(content) as nat) + "\r\n\r\n"@
                + content,
        )
    } else {
        None
    }
}

/// Decides [`forwardable`].
pub fn is_forwardable(request: &Request) -> (b: bool)
    ensures
        b == forwardable(request@),
{
    if same_text(&request.method, "POST") && same_text(&request.uri, "/upload") {
        let body = chars_of(request.body.as_str());
        upload_fields_of(&body).is_some()
    } else {
        true
    }
}

/// The request to send to the server, if the proxy forwards this one.
pub fn forward_request(request: &Request) -> (out: Option<String>)
    requires
        forwardable(request@),
    ensures
        match out {
            Some(t) => forward_spec(request@) == Some(t@),
            None => forward_spec(request@) is None,
        },
{
    let is_get = same_text(&request.method, "GET");
    let upload = same_text(&request.method, "POST") && same_text(&request.uri, "/upload");
    if !is_get && !upload {
        return None;
    }
    let mut out: Vec<char> = chars_of("X-Proxy-Signature: ");
    extend(&mut out, &chars_of(request.signature.as_str()));
    extend(&mut out, &chars_of("\r\n"));
    extend(&mut out, &chars_of(request.method.as_str()));
    extend(&mut out, &chars_of(" "));
    extend(&mut out, &chars_of(request.uri.as_str()));
    extend(&mut out, &chars_of(" HTTP/1.1\r\nHost: "));
    extend(&mut out, &chars_of(request.host.as_str()));
    if is_get {
        extend(&mut out, &chars_of("\r\n\r\n"));
        extend(&mut out, &chars_of(request.body.as_str()));
        return Some(string_of(&out));
    }
    let body = chars_of(request.body.as_str());
    let (name, content) = upload_fields_of(&body).unwrap();
    let content = string_of(&content);
    extend(&mut out, &chars_of("\r\nFile-Name: "));
    extend(&mut out, &name);
    extend(&mut out, &chars_of("\r\nContent-Length: "));
    push_decimal(&mut out, byte_len(content.as_str()));
    extend(&mut out, &chars_of("\r\n\r\n"));
    extend(&mut out, &chars_of(content.as_str()));
    Some(string_of(&out))
}

/// The "service unavailable" response sent while no secret is known.
pub open spec fn unavailable_spec(contents: Seq<char>) -> Seq<char> {
    "HTTP/1.1 503 SERVICE UNAVAIBLE\r\nContent-Length: "@ + decimal(utf8_len(contents) as nat)
        + "\r\nContent-Type: text/html; charset=utf-8\r\n\r\n"@ + contents
}

/// Builds [`unavailable_spec`] around the page `contents`.
pub fn service_unavailable_response(contents: &String) -> (response: String)
    ensures
        response@ == unavailable_spec(contents@),
{
    let mut out: Vec<char> = chars_of("HTTP/1.1 503 SERVICE UNAVAIBLE\r\nContent-Length: ");
    push_decimal(&mut out, byte_len(contents.as_str()));
    extend(&mut out, &chars_of("\r\nContent-Type: text/html; charset=utf-8\r\n\r\n"));
    extend(&mut out, &chars_of(contents.as_str()));
    string_of(&out)
}

/// The "service unavailable" response sent when the secret's lock is poisoned.
pub open spec fn lock_failure_spec(contents: Seq<char>) -> Seq<char> {
    "HTTP/1.1 503 SERVICE UNAVAIBLE\r\nContent-Length: "@ + decimal(utf8_len(contents) as nat)
        + "\r\nContent-Type: text/html;charset=utf-8\r\n\r\n"@ + contents
}

/// Builds [`lock_failure_spec`] around the page `contents`.
pub fn lock_failure_response(contents: &String) -> (response: String)
    ensures
        response@ == lock_failure_spec(contents@),
{
    let mut out: Vec<char> = chars_of("HTTP/1.1 503 SERVICE UNAVAIBLE\r\nContent-Length: ");
    push_decimal(&mut out, byte_len(contents.as_str()));
    extend(&mut out, &chars_of("\r\nContent-Type: text/html;charset=utf-8\r\n\r\n"));
    extend(&mut out, &chars_of(contents.as_str()));
    string_of(&out)
}


/// For every state, registered or not, the icon is answered `204 NO CONTENT`, the
/// state is kept, and the request is not forwarded.
pub proof fn lemma_favicon_always_answered(state: Option<Seq<char>>, r: RequestView)
    requires
        r.method == "GET"@,
        r.uri == "/favicon.ico"@,
    ensures
        handle_spec(state, r) == (state, ReplyView::Respond("HTTP/1.1 204 NO CONTENT\r\n\r\n"@)),
{
    reveal_strlit("GET");
    reveal_strlit("POST");
    assert(r.method != "POST"@) by {
        assert("GET"@.len() != "POST"@.len());
    }
}

/// The uploaded content runs from the first blank line to the next `\r\n`, so a bare
/// `\n` inside the file is kept: for a body `h + "\r\n\r\n" + c + "\r\n" + t`, where `h`
/// holds no blank line and does not end with `\r\n` and `c` holds no `\r\n`, the
/// content is `c` without its trailing NULs and surrounding white space.
pub proof fn lemma_upload_content_runs_to_crlf(h: Seq<char>, c: Seq<char>, t: Seq<char>)
    requires
        upload_fields(h + "\r\n\r\n"@ + c + "\r\n"@ + t) is Some,
        !contains(h, "\r\n\r\n"@),
        !ends_with(h, "\r\n"@),
        !contains(c, "\r\n"@),
    ensures
        (upload_fields(h + "\r\n\r\n"@ + c + "\r\n"@ + t)->0).1 == trim(trim_end_char(c, '\0')),
{
    reveal_strlit("\r\n\r\n");
    reveal_strlit("\r\n");
    let blank = "\r\n\r\n"@;
    let crlf = "\r\n"@;
    let b = h + blank + c + crlf + t;
    let hl = h.len() as int;
    lemma_find(h, blank);
    lemma_find(c, crlf);
    assert forall|j: int| 0 <= j < hl implies !matches_at(b, blank, j) by {
        if matches_at(b, blank, j) {
            let m = b.subrange(j, j + 4);
            assert(m == blank);
            if j + 4 <= hl {
                assert(h.subrange(j, j + 4) =~= m);
                assert(matches_at(h, blank, j));
            } else if j == hl - 3 {
                assert(m[3] == b[hl]);
            } else if j == hl - 2 {
                assert(m[0] == h[hl - 2] && m[1] == h[hl - 1]);
                assert(h.skip(hl - 2) =~= crlf);
            } else {
                assert(m[1] == b[hl]);
            }
        }
    }
    assert(b.subrange(hl, hl + 4) =~= blank);
    lemma_find_is(b, blank, hl);
    let after = b.skip(hl + 4);
    assert(after =~= c + crlf + t);
    let cl = c.len() as int;
    assert forall|j: int| 0 <= j < cl implies !matches_at(after, crlf, j) by {
        if matches_at(after, crlf, j) {
            let m = after.subrange(j, j + 2);
            assert(m == crlf);
            if j + 2 <= cl {
                assert(c.subrange(j, j + 2) =~= m);
                assert(matches_at(c, crlf, j));
            } else {
                assert(m[1] == after[cl]);
            }
        }
    }
    assert(after.subrange(cl, cl + 2) =~= crlf);
    lemma_find_is(after, crlf, cl);
    assert(after.take(cl) =~= c);
}


/// The `503` response sent before registration carries the page it was given as its
/// body, with that page's byte count as its `Content-Length`.
pub proof fn lemma_unavailable_frames_page(contents: Seq<char>)
    ensures
        frames_content(unavailable_spec(contents), contents),
{
    reveal_strlit("HTTP/1.1 503 SERVICE UNAVAIBLE\r\nContent-Length: ");
    reveal_strlit("\r\nContent-Type: text/html; charset=utf-8\r\n\r\n");
    reveal_strlit("\r\nContent-Type: text/html; charset=utf-8");
    reveal_strlit("\r\nContent-Length: ");
    reveal_strlit("\r\n\r\n");
    reveal_strlit("\r\n");
    let pre = "HTTP/1.1 503 SERVICE UNAVAIBLE\r\nContent-Length: "@;
    let mid = "\r\nContent-Type: text/html; charset=utf-8"@;
    assert(crlf_clean(pre));
    assert(crlf_clean(mid));
    assert(pre.skip(pre.len() - 18) =~= "\r\nContent-Length: "@);
    assert(mid.take(2) =~= "\r\n"@);
    lemma_length_framed(pre, mid, contents);
    let d = decimal(utf8_len(contents) as nat);
    assert("\r\nContent-Type: text/html; charset=utf-8\r\n\r\n"@ =~= mid + "\r\n\r\n"@);
    assert(unavailable_spec(contents) =~= pre + d + mid + "\r\n\r\n"@ + contents);
}

/// The `503` response sent when the secret's lock is poisoned carries the page it was
/// given as its body, with that page's byte count as its `Content-Length`.
pub proof fn lemma_lock_failure_frames_page(contents: Seq<char>)
    ensures
        frames_content(lock_failure_spec(contents), contents),
{
    reveal_strlit("HTTP/1.1 503 SERVICE UNAVAIBLE\r\nContent-Length: ");
    reveal_strlit("\r\nContent-Type: text/html;charset=utf-8\r\n\r\n");
    reveal_strlit("\r\nContent-Type: text/html;charset=utf-8");
    reveal_strlit("\r\nContent-Length: ");
    reveal_strlit("\r\n\r\n");
    reveal_strlit("\r\n");
    let pre = "HTTP/1.1 503 SERVICE UNAVAIBLE\r\nContent-Length: "@;
    let mid = "\r\nContent-Type: text/html;charset=utf-8"@;
    assert(crlf_clean(pre));
    assert(crlf_clean(mid));
    assert(pre.skip(pre.len() - 18) =~= "\r\nContent-Length: "@);
    assert(mid.take(2) =~= "\r\n"@);
    lemma_length_framed(pre, mid, contents);
    let d = decimal(utf8_len(contents) as nat);
    assert("\r\nContent-Type: text/html;charset=utf-8\r\n\r\n"@ =~= mid + "\r\n\r\n"@);
    assert(lock_failure_spec(contents) =~= pre + d + mid + "\r\n\r\n"@ + contents);
}

} // verus!
