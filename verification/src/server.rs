//! The file server behind the proxy: how it reads a forwarded request, checks its
//! signature, chooses the file to serve or the name to store an upload under, and
//! the responses it sends.

use vstd::prelude::*;
use crate::text::{
    byte_len, chars_of, contains, decimal, ends_with, extend, has_infix, has_suffix, line,
    line_at, push_decimal, remove_first, same_text, split_once, split_once_at, starts_with,
    string_of, trim, trim_end_char, trimmed, trimmed_end_char, utf8_len, without_first, words,
    words_of, has_prefix, lemma_decimal_injective, lemma_decimal_digits, lemma_find,
    crlf_clean, frames_content, lemma_length_framed, lemma_crlf_clean_concat, no_newline,
    lemma_no_newline_clean, lemma_find_char_after,
};
use crate::secret::{hex_spec, lemma_hex_spec};

verus! {

/// A forwarded request as the server sees it.
pub struct Request {
    pub signature: String,
    pub method: String,
    pub uri: String,
    pub host: String,
    pub body: String,
    pub file_name: String,
}

/// The characters of each field of a [`Request`].
pub struct RequestView {
    pub signature: Seq<char>,
    pub method: Seq<char>,
    pub uri: Seq<char>,
    pub host: Seq<char>,
    pub body: Seq<char>,
    pub file_name: Seq<char>,
}

impl View for Request {
    type V = RequestView;

    open spec fn view(&self) -> RequestView {
        RequestView {
            signature: self.signature@,
            method: self.method@,
            uri: self.uri@,
            host: self.host@,
            body: self.body@,
            file_name: self.file_name@,
        }
    }
}

/// The request carries the proxy's signature line.
pub open spec fn is_signed(s: Seq<char>) -> bool {
    contains(s, "X-Proxy-Signature"@)
}

/// The request line: the second line of a signed request, the first of another.
pub open spec fn main_header(s: Seq<char>) -> Seq<char> {
    if is_signed(s) {
        line(s, 1)->0
    } else {
        line(s, 0)->0
    }
}

/// The signature: what follows the first `": "` of the first line of a signed
/// request, `N/A` when that line has none or the request is not signed.
pub open spec fn signature_spec(s: Seq<char>) -> Seq<char> {
    if is_signed(s) {
        match split_once(line(s, 0)->0, ": "@) {
            Some((_, v)) => v,
            None => "N/A"@,
        }
    } else {
        "N/A"@
    }
}

/// The request is an upload.
pub open spec fn is_upload_line(s: Seq<char>) -> bool {
    words(main_header(s))[0] == "POST"@ && words(main_header(s))[1] == "/upload"@
}

/// A request the server can take apart: it has its request line with at least two
/// words and a blank line, and an upload has a fourth line with a `": "` in it.
pub open spec fn parseable(s: Seq<char>) -> bool {
    &&& line(s, 0) is Some
    &&& is_signed(s) ==> line(s, 1) is Some
    &&& words(main_header(s)).len() >= 2
    &&& contains(s, "\r\n\r\n"@)
    &&& is_upload_line(s) ==> (line(s, 3) is Some && split_once(line(s, 3)->0, ": "@) is Some)
}

/// What `parse` makes of a request: the signature, the first two words of the request
/// line, the body after the first blank line and, for an upload, the file name after
/// the first `": "` of the fourth line.
pub open spec fn parse_spec(s: Seq<char>) -> RequestView {
    RequestView {
        signature: signature_spec(s),
        method: words(main_header(s))[0],
        uri: words(main_header(s))[1],
        host: "0.0.0.0:2006"@,
        body: (split_once(s, "\r\n\r\n"@)->0).1,
        file_name: if is_upload_line(s) {
            (split_once(line(s, 3)->0, ": "@)->0).1
        } else {
            "None file has been passed"@
        },
    }
}

/// The parts of a request, or none when it cannot be taken apart.
fn parse_parts(request: &str) -> (r: Option<Request>)
    ensures
        match r {
            Some(q) => parseable(request@) && q@ == parse_spec(request@),
            None => !parseable(request@),
        },
{
    let s = chars_of(request);
    let first = match line_at(&s, 0) {
        Some(l) => l,
        None => return None,
    };
    let signed = has_infix(&s, &chars_of("X-Proxy-Signature"));
    let (signature, header) = if signed {
        let header = match line_at(&s, 1) {
            Some(l) => l,
            None => return None,
        };
        let signature = match split_once_at(&first, &chars_of(": ")) {
            Some((_, v)) => string_of(&v),
            None => "N/A".to_owned(),
        };
        (signature, header)
    } else {
        ("N/A".to_owned(), first)
    };
    let ws = words_of(&header);
    if ws.len() < 2 {
        return None;
    }
    assert(ws@[0]@ == words(header@)[0] && ws@[1]@ == words(header@)[1]);
    let method = string_of(&ws[0]);
    let uri = string_of(&ws[1]);
    let body = match split_once_at(&s, &chars_of("\r\n\r\n")) {
        Some((_, b)) => string_of(&b),
        None => return None,
    };
    let file_name = if same_text(&method, "POST") && same_text(&uri, "/upload") {
        let fourth = match line_at(&s, 3) {
            Some(l) => l,
            None => return None,
        };
        match split_once_at(&fourth, &chars_of(": ")) {
            Some((_, v)) => string_of(&v),
            None => return None,
        }
    } else {
        "None file has been passed".to_owned()
    };
    Some(
        Request {
            method,
            signature,
            uri,
            host: "0.0.0.0:2006".to_owned(),
            body,
            file_name,
        },
    )
}

/// Decides [`parseable`].
pub fn is_parseable(request: &str) -> (b: bool)
    ensures
        b == parseable(request@),
{
    parse_parts(request).is_some()
}

/// Turns a forwarded request into a [`Request`].
pub fn parse(request: String) -> (r: Request)
    requires
        parseable(request@),
    ensures
        r@ == parse_spec(request@),
{
    parse_parts(request.as_str()).unwrap()
}

/// Whether the request carries the server's secret as its signature.
pub fn signature_is_valid(request: &Request, secret: &String) -> (b: bool)
    ensures
        b == (request.signature@ == secret@),
{
    request.signature.eq(secret)
}


/// What the server does with a request whose signature is valid.
pub enum Route {
    /// Serve a file or the index page.
    Get,
    /// Store an uploaded file.
    Upload,
    /// Send nothing back.
    Ignore,
}

/// Chooses the [`Route`] of a request: `GET` serves, `POST /upload` stores, anything
/// else is ignored.
pub fn route_kind(request: &Request) -> (r: Route)
    ensures
        r == (if request.method@ == "GET"@ {
            Route::Get
        } else if request.method@ == "POST"@ && request.uri@ == "/upload"@ {
            Route::Upload
        } else {
            Route::Ignore
        }),
{
    if same_text(&request.method, "GET") {
        Route::Get
    } else if same_text(&request.method, "POST") && same_text(&request.uri, "/upload") {
        Route::Upload
    } else {
        Route::Ignore
    }
}

/// A path the server can take a file name from: with a query (`?`), the query must
/// hold an `=`.
pub open spec fn file_parseable(uri: Seq<char>) -> bool {
    contains(uri, "?"@) ==> split_once((split_once(uri, "?"@)->0).1, "="@) is Some
}

/// The file a `GET` asks for: the value after the first `=` of the query, or the path
/// without its first `/`.
pub open spec fn file_spec(uri: Seq<char>) -> Seq<char> {
    if contains(uri, "?"@) {
        (split_once((split_once(uri, "?"@)->0).1, "="@)->0).1
    } else {
        remove_first(uri, "/"@)
    }
}

/// Decides [`file_parseable`].
pub fn is_file_parseable(uri: &String) -> (b: bool)
    ensures
        b == file_parseable(uri@),
{
    let u = chars_of(uri.as_str());
    match split_once_at(&u, &chars_of("?")) {
        Some((_, after)) => split_once_at(&after, &chars_of("=")).is_some(),
        None => true,
    }
}

/// The file a `GET` asks for (see [`file_spec`]).
pub fn requested_file(uri: &String) -> (file: String)
    requires
        file_parseable(uri@),
    ensures
        file@ == file_spec(uri@),
{
    let u = chars_of(uri.as_str());
    match split_once_at(&u, &chars_of("?")) {
        Some((_, after)) => {
            let (_, name) = split_once_at(&after, &chars_of("=")).unwrap();
            string_of(&name)
        },
        None => string_of(&without_first(&u, &chars_of("/"))),
    }
}

/// The content type and the folder of a requested file: pages hold the HTML pages
/// and style sheets, data holds images and everything else.
pub open spec fn kind_spec(file: Seq<char>) -> (Seq<char>, Seq<char>) {
    if contains(file, "html"@) || file.len() == 0 {
        ("text/html;charset=utf-8"@, "pages"@)
    } else if contains(file, "css"@) {
        ("text/css"@, "pages"@)
    } else if contains(file, "jpg"@) {
        ("image/jpeg"@, "data"@)
    } else if contains(file, "png"@) {
        ("image/png"@, "data"@)
    } else {
        ("text/html;charset=utf-8"@, "data"@)
    }
}

/// Computes [`kind_spec`].
pub fn content_type_and_folder(file: &String) -> (r: (String, String))
    ensures
        (r.0@, r.1@) == kind_spec(file@),
{
    let f = chars_of(file.as_str());
    if has_infix(&f, &chars_of("html")) || f.len() == 0 {
        ("text/html;charset=utf-8".to_owned(), "pages".to_owned())
    } else if has_infix(&f, &chars_of("css")) {
        ("text/css".to_owned(), "pages".to_owned())
    } else if has_infix(&f, &chars_of("jpg")) {
        ("image/jpeg".to_owned(), "data".to_owned())
    } else if has_infix(&f, &chars_of("png")) {
        ("image/png".to_owned(), "data".to_owned())
    } else {
        ("text/html;charset=utf-8".to_owned(), "data".to_owned())
    }
}

/// The path of a requested file: `./{folder}/{file}`.
pub fn file_path(folder: &String, file: &String) -> (path: String)
    ensures
        path@ == "./"@ + folder@ + "/"@ + file@,
{
    let mut out = chars_of("./");
    extend(&mut out, &chars_of(folder.as_str()));
    extend(&mut out, &chars_of("/"));
    extend(&mut out, &chars_of(file.as_str()));
    string_of(&out)
}

/// How an existing requested file is answered.
pub enum PageKind {
    /// The index page with the list of files.
    Index,
    /// The index page showing the file's content, escaped.
    Document,
    /// The file itself, unchanged.
    Stylesheet,
}

/// Chooses the [`PageKind`]: no file name means the index, a name ending in `.css` is
/// sent as it is, any other file is shown inside the index page.
pub fn page_kind(file: &String) -> (k: PageKind)
    ensures
        k == (if file@.len() == 0 {
            PageKind::Index
        } else if !ends_with(file@, ".css"@) {
            PageKind::Document
        } else {
            PageKind::Stylesheet
        }),
{
    let f = chars_of(file.as_str());
    if f.len() == 0 {
        PageKind::Index
    } else if !has_suffix(&f, &chars_of(".css")) {
        PageKind::Document
    } else {
        PageKind::Stylesheet
    }
}

/// The `200 OK` response for a served file.
pub open spec fn ok_spec(content_type: Seq<char>, contents: Seq<char>) -> Seq<char> {
    "HTTP/1.1 200 OK\r\nContent-Type: "@ + content_type + "\r\nContent-Length: "@ + decimal(
        utf8_len(contents) as nat,
    ) + "\r\n\r\n"@ + contents
}

/// Builds [`ok_spec`].
pub fn ok_response(content_type: &String, contents: &String) -> (response: String)
    ensures
        response@ == ok_spec(content_type@, contents@),
{
    let mut out = chars_of("HTTP/1.1 200 OK\r\nContent-Type: ");
    extend(&mut out, &chars_of(content_type.as_str()));
    extend(&mut out, &chars_of("\r\nContent-Length: "));
    push_decimal(&mut out, byte_len(contents.as_str()));
    extend(&mut out, &chars_of("\r\n\r\n"));
    extend(&mut out, &chars_of(contents.as_str()));
    string_of(&out)
}

/// The response for a file that does not exist.
pub open spec fn not_found_spec(contents: Seq<char>) -> Seq<char> {
    "HTTP/1.1 404 NOT FOUND\r\nContent-Length: "@ + decimal(utf8_len(contents) as nat)
        + "\r\nContent-Type: text/html\r\n\r\n"@ + contents
}

/// Builds [`not_found_spec`].
pub fn not_found_response(contents: &String) -> (response: String)
    ensures
        response@ == not_found_spec(contents@),
{
    let mut out = chars_of("HTTP/1.1 404 NOT FOUND\r\nContent-Length: ");
    push_decimal(&mut out, byte_len(contents.as_str()));
    extend(&mut out, &chars_of("\r\nContent-Type: text/html\r\n\r\n"));
    extend(&mut out, &chars_of(contents.as_str()));
    string_of(&out)
}

/// The response for a request without the right signature.
pub open spec fn forbidden_spec(contents: Seq<char>) -> Seq<char> {
    "HTTP/1.1 403 FORBIDDEN\r\nContent-Length: "@ + decimal(utf8_len(contents) as nat)
        + "\r\nContent-Type: text/html\r\n\r\n"@ + contents
}

/// Builds [`forbidden_spec`].
pub fn forbidden_response(contents: &String) -> (response: String)
    ensures
        response@ == forbidden_spec(contents@),
{
    let mut out = chars_of("HTTP/1.1 403 FORBIDDEN\r\nContent-Length: ");
    push_decimal(&mut out, byte_len(contents.as_str()));
    extend(&mut out, &chars_of("\r\nContent-Type: text/html\r\n\r\n"));
    extend(&mut out, &chars_of(contents.as_str()));
    string_of(&out)
}

/// The response after an upload: a redirection to the index page.
pub open spec fn redirect_spec(contents: Seq<char>) -> Seq<char> {
    "HTTP/1.1 302 MOVED PERMANENTLY\r\nLocation:/\r\nContent-Type: text/html\r\nContent-Length: "@
        + decimal(utf8_len(contents) as nat) + "\r\n\r\n"@ + contents
}

/// Builds [`redirect_spec`].
pub fn redirect_response(contents: &String) -> (response: String)
    ensures
        response@ == redirect_spec(contents@),
{
    let mut out = chars_of(
        "HTTP/1.1 302 MOVED PERMANENTLY\r\nLocation:/\r\nContent-Type: text/html\r\nContent-Length: ",
    );
    push_decimal(&mut out, byte_len(contents.as_str()));
    extend(&mut out, &chars_of("\r\n\r\n"));
    extend(&mut out, &chars_of(contents.as_str()));
    string_of(&out)
}

/// What the server stores of an upload: the body without surrounding white space,
/// then without the NUL characters that end it.
pub open spec fn upload_content_spec(body: Seq<char>) -> Seq<char> {
    trim_end_char(trim(body), '\0')
}

/// Computes [`upload_content_spec`] of a request's body.
pub fn upload_content(request: &Request) -> (content: String)
    ensures
        content@ == upload_content_spec(request.body@),
{
    let b = chars_of(request.body.as_str());
    let t = trimmed(&b);
    string_of(&trimmed_end_char(&t, '\0'))
}

/// The first path tried for an upload: `./data/{file_name}`.
pub fn upload_path(file_name: &String) -> (path: String)
    ensures
        path@ == "./data/"@ + file_name@,
{
    let mut out = chars_of("./data/");
    extend(&mut out, &chars_of(file_name.as_str()));
    string_of(&out)
}

/// The path tried for an upload when the previous one is taken:
/// `./data/{name}_{counter}.{extension}`, split at the name's first `.`.
pub open spec fn renamed_spec(file_name: Seq<char>, counter: nat) -> Seq<char> {
    let (name, extension) = split_once(file_name, "."@)->0;
    "./data/"@ + name + "_"@ + decimal(counter) + "."@ + extension
}

/// Whether an upload's name has a `.` to put a counter before.
pub fn has_extension(file_name: &String) -> (b: bool)
    ensures
        b == contains(file_name@, "."@),
{
    has_infix(&chars_of(file_name.as_str()), &chars_of("."))
}

/// Builds [`renamed_spec`].
pub fn renamed_upload_path(file_name: &String, counter: usize) -> (path: String)
    requires
        contains(file_name@, "."@),
    ensures
        path@ == renamed_spec(file_name@, counter as nat),
{
    let f = chars_of(file_name.as_str());
    let (name, extension) = split_once_at(&f, &chars_of(".")).unwrap();
    let mut out = chars_of("./data/");
    extend(&mut out, &name);
    extend(&mut out, &chars_of("_"));
    push_decimal(&mut out, counter);
    extend(&mut out, &chars_of("."));
    extend(&mut out, &extension);
    string_of(&out)
}


/// The request by which the server registers its secret with the proxy.
pub open spec fn registration_spec(secret: Seq<char>) -> Seq<char> {
    "POST /register-secret HTTP/1.1\r\nHost: 0.0.0.0:2006\r\nContent-Type: text/plain\r\nContent-Length: "@
        + decimal(utf8_len(secret) as nat) + "\r\n\r\n"@ + secret
}

/// Builds [`registration_spec`].
pub fn registration_request(secret: &str) -> (request: String)
    ensures
        request@ == registration_spec(secret@),
{
    let mut out = chars_of(
        "POST /register-secret HTTP/1.1\r\nHost: 0.0.0.0:2006\r\nContent-Type: text/plain\r\nContent-Length: ",
    );
    push_decimal(&mut out, byte_len(secret));
    extend(&mut out, &chars_of("\r\n\r\n"));
    extend(&mut out, &chars_of(secret));
    string_of(&out)
}

/// The proxy accepted the registration when its answer starts with `HTTP/1.1 200 OK`;
/// otherwise the error quotes the answer.
pub fn registration_outcome(response: &str) -> (r: Result<(), String>)
    ensures
        r is Ok <==> starts_with(response@, "HTTP/1.1 200 OK"@),
        r matches Err(e) ==> e@ == "Secret Key registration have failed. Proxy's answer: "@
            + response@,
{
    let answer = chars_of(response);
    if has_prefix(&answer, &chars_of("HTTP/1.1 200 OK")) {
        Ok(())
    } else {
        let mut out = chars_of("Secret Key registration have failed. Proxy's answer: ");
        extend(&mut out, &answer);
        Err(string_of(&out))
    }
}


/// The paths tried for an upload are all different: the first one differs from every
/// renamed one, and renamed ones with different counters differ, so each existing file
/// is tried at most once.
pub proof fn lemma_upload_paths_differ(file_name: Seq<char>, n: nat, m: nat)
    requires
        contains(file_name, "."@),
        n != m,
    ensures
        renamed_spec(file_name, n) != renamed_spec(file_name, m),
        renamed_spec(file_name, n) != "./data/"@ + file_name,
{
    reveal_strlit(".");
    reveal_strlit("_");
    lemma_find(file_name, "."@);
    let (name, extension) = split_once(file_name, "."@)->0;
    assert(name.len() + 1 + extension.len() == file_name.len());
    let a = "./data/"@ + name + "_"@;
    let b = "."@ + extension;
    let dn = decimal(n);
    let dm = decimal(m);
    lemma_decimal_digits(n);
    assert(renamed_spec(file_name, n) =~= a + dn + b);
    assert(renamed_spec(file_name, m) =~= a + dm + b);
    if a + dn + b == a + dm + b {
        assert(dn.len() == dm.len());
        assert(dn =~= (a + dn + b).subrange(a.len() as int, (a.len() + dn.len()) as int));
        assert(dm =~= (a + dm + b).subrange(a.len() as int, (a.len() + dm.len()) as int));
        lemma_decimal_injective(n, m);
    }
    assert((a + dn + b).len() > ("./data/"@ + file_name).len());
}


/// The path tried at the `attempt`-th try of storing an upload: `./data/{file_name}`
/// first, then the renamed paths with counters 2, 3, and so on.
pub open spec fn upload_candidate_spec(file_name: Seq<char>, attempt: nat) -> Seq<char> {
    if attempt == 0 {
        "./data/"@ + file_name
    } else {
        renamed_spec(file_name, attempt + 1)
    }
}

/// Builds [`upload_candidate_spec`]; a later try needs a `.` in the name.
pub fn upload_candidate(file_name: &String, attempt: usize) -> (path: String)
    requires
        attempt == 0 || contains(file_name@, "."@),
        attempt < usize::MAX,
    ensures
        path@ == upload_candidate_spec(file_name@, attempt as nat),
{
    if attempt == 0 {
        upload_path(file_name)
    } else {
        renamed_upload_path(file_name, attempt + 1)
    }
}

/// Different tries of storing an upload use different paths.
pub proof fn lemma_upload_candidates_differ(file_name: Seq<char>, a: nat, b: nat)
    requires
        a != b,
        a > 0 || b > 0 ==> contains(file_name, "."@),
    ensures
        upload_candidate_spec(file_name, a) != upload_candidate_spec(file_name, b),
{
    if a > 0 && b > 0 {
        lemma_upload_paths_differ(file_name, a + 1, b + 1);
    } else if a > 0 {
        lemma_upload_paths_differ(file_name, a + 1, a + 2);
    } else {
        lemma_upload_paths_differ(file_name, b + 1, b + 2);
    }
}


/// What the server does after checking whether a candidate path for an upload is
/// taken.
pub enum UploadStep {
    /// Store the upload at the candidate just checked.
    Store,
    /// Try the candidate of this attempt next.
    Next(usize),
    /// No further candidate can be made: the name has no `.` (or the attempts ran out).
    Fail,
}

/// The step after checking the candidate of `attempt`: a free path is used; a taken
/// one leads to the next attempt, which needs a `.` in the name.
pub fn upload_step(file_name: &String, attempt: usize, taken: bool) -> (step: UploadStep)
    ensures
        step == (if !taken {
            UploadStep::Store
        } else if !contains(file_name@, "."@) || attempt >= usize::MAX - 1 {
            UploadStep::Fail
        } else {
            UploadStep::Next((attempt + 1) as usize)
        }),
{
    if !taken {
        UploadStep::Store
    } else if !has_extension(file_name) || attempt >= usize::MAX - 1 {
        UploadStep::Fail
    } else {
        UploadStep::Next(attempt + 1)
    }
}

/// Among the first `n + 1` attempts, where `n` is the number of paths already taken,
/// one finds a free path: the candidates all differ, so the taken paths cannot cover
/// them all.
pub proof fn lemma_upload_free_path_within(file_name: Seq<char>, taken: Set<Seq<char>>)
    requires
        taken.finite(),
        contains(file_name, "."@),
    ensures
        exists|a: nat|
            a <= taken.len() && !taken.contains(#[trigger] upload_candidate_spec(file_name, a)),
{
    let n = taken.len();
    let c = Seq::new(n + 1, |a: int| upload_candidate_spec(file_name, a as nat));
    assert(c.no_duplicates()) by {
        assert forall|i: int, j: int| 0 <= i < c.len() && 0 <= j < c.len() && i != j implies c[i]
            != c[j] by {
            lemma_upload_candidates_differ(file_name, i as nat, j as nat);
        }
    }
    c.unique_seq_to_set();
    if forall|a: nat| a <= n ==> taken.contains(#[trigger] upload_candidate_spec(file_name, a)) {
        assert(c.to_set().subset_of(taken)) by {
            assert forall|p: Seq<char>| c.to_set().contains(p) implies taken.contains(p) by {
                let i = choose|i: int| 0 <= i < c.len() && c[i] == p;
                assert(taken.contains(upload_candidate_spec(file_name, i as nat)));
            }
        }
        vstd::set_lib::lemma_len_subset(c.to_set(), taken);
        assert(false);
    }
}

/// What the server does with a parsed request.
pub enum ConnectionAction {
    /// The signature is the server's secret: route the request.
    Route,
    /// Any other signature: answer with the forbidden page.
    Forbidden,
}

/// Routes a request exactly when its signature is the server's secret, and answers
/// any other with the forbidden page.
pub fn connection_action(request: &Request, secret: &String) -> (action: ConnectionAction)
    ensures
        action == (if request.signature@ == secret@ {
            ConnectionAction::Route
        } else {
            ConnectionAction::Forbidden
        }),
{
    if signature_is_valid(request, secret) {
        ConnectionAction::Route
    } else {
        ConnectionAction::Forbidden
    }
}


/// The redirect sent after an upload carries the page it was given as its body, with
/// that page's byte count as its `Content-Length`.
pub proof fn lemma_redirect_frames_page(contents: Seq<char>)
    ensures
        frames_content(redirect_spec(contents), contents),
{
    reveal_strlit(
        "HTTP/1.1 302 MOVED PERMANENTLY\r\nLocation:/\r\nContent-Type: text/html\r\nContent-Length: ",
    );
    reveal_strlit("\r\nContent-Length: ");
    let pre =
        "HTTP/1.1 302 MOVED PERMANENTLY\r\nLocation:/\r\nContent-Type: text/html\r\nContent-Length: "@;
    assert(crlf_clean(pre));
    assert(pre.skip(pre.len() - 18) =~= "\r\nContent-Length: "@);
    lemma_length_framed(pre, Seq::empty(), contents);
    let d = decimal(utf8_len(contents) as nat);
    assert(redirect_spec(contents) =~= pre + d + Seq::<char>::empty() + "\r\n\r\n"@ + contents);
    assert(pre + d + Seq::<char>::empty() =~= pre + d);
}


/// The `404` response carries the page it was given as its body, with that page's
/// byte count as its `Content-Length`.
pub proof fn lemma_not_found_frames_page(contents: Seq<char>)
    ensures
        frames_content(not_found_spec(contents), contents),
{
    reveal_strlit("HTTP/1.1 404 NOT FOUND\r\nContent-Length: ");
    reveal_strlit("\r\nContent-Type: text/html\r\n\r\n");
    reveal_strlit("\r\nContent-Type: text/html");
    reveal_strlit("\r\nContent-Length: ");
    reveal_strlit("\r\n\r\n");
    reveal_strlit("\r\n");
    let pre = "HTTP/1.1 404 NOT FOUND\r\nContent-Length: "@;
    let mid = "\r\nContent-Type: text/html"@;
    assert(crlf_clean(pre));
    assert(crlf_clean(mid));
    assert(pre.skip(pre.len() - 18) =~= "\r\nContent-Length: "@);
    assert(mid.take(2) =~= "\r\n"@);
    lemma_length_framed(pre, mid, contents);
    let d = decimal(utf8_len(contents) as nat);
    assert("\r\nContent-Type: text/html\r\n\r\n"@ =~= mid + "\r\n\r\n"@);
    assert(not_found_spec(contents) =~= pre + d + mid + "\r\n\r\n"@ + contents);
}

/// The `403` response carries the page it was given as its body, with that page's
/// byte count as its `Content-Length`.
pub proof fn lemma_forbidden_frames_page(contents: Seq<char>)
    ensures
        frames_content(forbidden_spec(contents), contents),
{
    reveal_strlit("HTTP/1.1 403 FORBIDDEN\r\nContent-Length: ");
    reveal_strlit("\r\nContent-Type: text/html\r\n\r\n");
    reveal_strlit("\r\nContent-Type: text/html");
    reveal_strlit("\r\nContent-Length: ");
    reveal_strlit("\r\n\r\n");
    reveal_strlit("\r\n");
    let pre = "HTTP/1.1 403 FORBIDDEN\r\nContent-Length: "@;
    let mid = "\r\nContent-Type: text/html"@;
    assert(crlf_clean(pre));
    assert(crlf_clean(mid));
    assert(pre.skip(pre.len() - 18) =~= "\r\nContent-Length: "@);
    assert(mid.take(2) =~= "\r\n"@);
    lemma_length_framed(pre, mid, contents);
    let d = decimal(utf8_len(contents) as nat);
    assert("\r\nContent-Type: text/html\r\n\r\n"@ =~= mid + "\r\n\r\n"@);
    assert(forbidden_spec(contents) =~= pre + d + mid + "\r\n\r\n"@ + contents);
}

/// The `200` response carries the file's contents as its body, with their byte count
/// as its `Content-Length`, for any content type without a line break.
pub proof fn lemma_ok_frames_contents(content_type: Seq<char>, contents: Seq<char>)
    requires
        no_newline(content_type),
    ensures
        frames_content(ok_spec(content_type, contents), contents),
{
    reveal_strlit("HTTP/1.1 200 OK\r\nContent-Type: ");
    reveal_strlit("\r\nContent-Length: ");
    reveal_strlit("\r\n\r\n");
    let first = "HTTP/1.1 200 OK\r\nContent-Type: "@;
    let key = "\r\nContent-Length: "@;
    assert(crlf_clean(first));
    assert(crlf_clean(key));
    lemma_no_newline_clean(content_type);
    lemma_crlf_clean_concat(first, content_type);
    lemma_crlf_clean_concat(first + content_type, key);
    let pre = first + content_type + key;
    assert(pre.skip(pre.len() - 18) =~= key);
    lemma_length_framed(pre, Seq::empty(), contents);
    let d = decimal(utf8_len(contents) as nat);
    assert(ok_spec(content_type, contents) =~= pre + d + Seq::<char>::empty() + "\r\n\r\n"@
        + contents);
    assert(pre + d + Seq::<char>::empty() =~= pre + d);
}

/// The registration request carries the secret as its body, with the secret's byte
/// count as its `Content-Length`.
pub proof fn lemma_registration_frames_secret(secret: Seq<char>)
    ensures
        frames_content(registration_spec(secret), secret),
{
    reveal_strlit(
        "POST /register-secret HTTP/1.1\r\nHost: 0.0.0.0:2006\r\nContent-Type: text/plain\r\nContent-Length: ",
    );
    reveal_strlit("\r\nContent-Length: ");
    let pre =
        "POST /register-secret HTTP/1.1\r\nHost: 0.0.0.0:2006\r\nContent-Type: text/plain\r\nContent-Length: "@;
    assert(crlf_clean(pre));
    assert(pre.skip(pre.len() - 18) =~= "\r\nContent-Length: "@);
    lemma_length_framed(pre, Seq::empty(), secret);
    let d = decimal(utf8_len(secret) as nat);
    assert(registration_spec(secret) =~= pre + d + Seq::<char>::empty() + "\r\n\r\n"@ + secret);
    assert(pre + d + Seq::<char>::empty() =~= pre + d);
}


/// A path without a query names the file that follows its first `/`.
pub proof fn lemma_file_from_path(a: Seq<char>, b: Seq<char>)
    requires
        forall|i: int| 0 <= i < a.len() ==> #[trigger] a[i] != '/',
        !contains(a + "/"@ + b, "?"@),
    ensures
        file_parseable(a + "/"@ + b),
        file_spec(a + "/"@ + b) == a + b,
{
    reveal_strlit("/");
    assert("/"@ =~= seq!['/']);
    lemma_find_char_after(a, '/', b);
}

/// A path with a query names the file given after the first `=` of the query.
pub proof fn lemma_file_from_query(p: Seq<char>, k: Seq<char>, v: Seq<char>)
    requires
        forall|i: int| 0 <= i < p.len() ==> #[trigger] p[i] != '?',
        forall|i: int| 0 <= i < k.len() ==> #[trigger] k[i] != '=',
    ensures
        file_parseable(p + "?"@ + k + "="@ + v),
        file_spec(p + "?"@ + k + "="@ + v) == v,
{
    reveal_strlit("?");
    reveal_strlit("=");
    assert("?"@ =~= seq!['?']);
    assert("="@ =~= seq!['=']);
    let uri = p + "?"@ + k + "="@ + v;
    assert(uri =~= p + seq!['?'] + (k + seq!['='] + v));
    lemma_find_char_after(p, '?', k + seq!['='] + v);
    lemma_find_char_after(k, '=', v);
}

/// A request without the proxy's signature line is never let through by a server
/// whose secret is written in hex: its signature is `N/A`, which no hex text equals.
pub proof fn lemma_unsigned_request_is_forbidden(s: Seq<char>, digest: Seq<u8>)
    requires
        !contains(s, "X-Proxy-Signature"@),
    ensures
        parse_spec(s).signature != hex_spec(digest),
{
    reveal_strlit("N/A");
    lemma_hex_spec(digest);
    assert(parse_spec(s).signature.len() == 3);
}

} // verus!
