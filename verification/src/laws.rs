//! What the proxy and the server promise each other: the secret the server registers
//! is the one the proxy signs with, and what the proxy forwards the server reads back.

use vstd::prelude::*;
use crate::proxy;
use crate::server;
use crate::text::{
    is_ws, lemma_contains_at, lemma_find_is, lemma_lines_cons, lemma_no_match_before,
    lemma_words_cons, lemma_words_single, line, lines, matches_at, no_newline, no_ws,
    split_once, strip_cr, words, decimal, utf8_len, lemma_decimal_digits,
    lemma_no_blank_line_before, lemma_trim_start_is, lemma_trim_end_is, lemma_trim_end_char_is,
    lemma_words_are_tokens, lemma_no_ws_no_newline, starts_with, no_cr_after_newline,
    lemma_no_cr_after_newline_cons, lemma_lines_no_newline, lemma_split_piece_no_newline,
    lemma_split_once_no_newline, lemma_remove_char_no_newline, split_piece, crlf_clean,
    frames_content, lemma_length_framed, lemma_crlf_clean_concat, lemma_no_newline_clean,
};

verus! {

/// A `GET` forwarded by the proxy is read back by the server with the proxy's
/// signature, method, path and body, as long as the signature and the host hold no
/// line break and the path is a single word (as every path the proxy parses is); the
/// server's host is its own address and the request names no file.
#[verifier::spinoff_prover]
#[verifier::rlimit(40)]
pub proof fn lemma_forwarded_get_keeps_signature(r: proxy::RequestView)
    requires
        r.method == "GET"@,
        no_newline(r.signature),
        no_newline(r.host),
        r.uri.len() > 0,
        no_ws(r.uri),
    ensures
        proxy::forward_spec(r) is Some,
        server::parseable(proxy::forward_spec(r)->0),
        server::parse_spec(proxy::forward_spec(r)->0).signature == r.signature,
        server::parse_spec(proxy::forward_spec(r)->0).method == r.method,
        server::parse_spec(proxy::forward_spec(r)->0).uri == r.uri,
        server::parse_spec(proxy::forward_spec(r)->0).body == r.body,
        server::parse_spec(proxy::forward_spec(r)->0).host == "0.0.0.0:2006"@,
        server::parse_spec(proxy::forward_spec(r)->0).file_name == "None file has been passed"@,
{
    reveal_strlit("X-Proxy-Signature: ");
    reveal_strlit("X-Proxy-Signature");
    reveal_strlit("\r\n");
    reveal_strlit(" ");
    reveal_strlit(" HTTP/1.1\r\nHost: ");
    reveal_strlit("\r\n\r\n");
    reveal_strlit("GET");
    reveal_strlit("POST");
    reveal_strlit(": ");
    let p = "X-Proxy-Signature: "@;
    let tag = "X-Proxy-Signature"@;
    let colon = ": "@;
    let sig = r.signature;
    let m = r.method;
    let u = r.uri;
    let f = proxy::forward_spec(r)->0;
    assert(f == p + sig + "\r\n"@ + m + " "@ + u + " HTTP/1.1\r\nHost: "@ + r.host + "\r\n\r\n"@
        + r.body);
    let version = seq!['H', 'T', 'T', 'P', '/', '1', '.', '1'];
    let a0 = p + sig + seq!['\r'];
    let a1 = m + seq![' '] + u + seq![' '] + version + seq!['\r'];
    let r2 = seq!['H', 'o', 's', 't', ':', ' '] + r.host + "\r\n\r\n"@ + r.body;
    let r1 = a1 + seq!['\n'] + r2;
    assert(f =~= a0 + seq!['\n'] + r1);
    // the first two lines
    assert(no_newline(a0)) by {
        assert forall|i: int| 0 <= i < a0.len() implies #[trigger] a0[i] != '\n' by {
            if i >= p.len() && i < p.len() + sig.len() {
                assert(a0[i] == sig[i - p.len()]);
            }
        }
    }
    assert(no_newline(a1)) by {
        assert forall|i: int| 0 <= i < a1.len() implies #[trigger] a1[i] != '\n' by {
            if 4 <= i < 4 + u.len() {
                assert(a1[i] == u[i - 4]);
                assert(!is_ws(u[i - 4]));
            }
        }
    }
    lemma_lines_cons(a0, r1);
    lemma_lines_cons(a1, r2);
    assert(strip_cr(a0) =~= p + sig);
    let l1 = m + seq![' '] + u + seq![' '] + version;
    assert(strip_cr(a1) =~= l1);
    assert(lines(f) =~= seq![p + sig, l1] + lines(r2));
    assert(line(f, 0) == Some(p + sig));
    assert(line(f, 1) == Some(l1));
    // the words of the request line
    assert(no_ws(m));
    assert(no_ws(version));
    lemma_words_single(version);
    lemma_words_cons(u, ' ', version);
    assert(l1 =~= m + seq![' '] + (u + seq![' '] + version));
    lemma_words_cons(m, ' ', u + seq![' '] + version);
    assert(words(l1) =~= seq![m, u, version]);
    // the signature line
    assert(matches_at(f, tag, 0)) by {
        assert(f.subrange(0, tag.len() as int) =~= tag);
    }
    lemma_contains_at(f, tag, 0);
    let first = p + sig;
    assert forall|j: int| 0 <= j < 17 && j < first.len() implies #[trigger] first[j] != colon[0] by {
        assert(first[j] == p[j]);
    }
    lemma_no_match_before(first, colon, 17);
    assert(first.subrange(17, 19) =~= colon);
    lemma_find_is(first, colon, 17);
    assert(first.skip(19) =~= sig);
    assert(split_once(first, colon) == Some((first.take(17), sig)));
    // the blank line
    let blank = "\r\n\r\n"@;
    let host_key = seq!['H', 'o', 's', 't', ':', ' '];
    assert(r2 =~= host_key + r.host + blank + r.body);
    let q2 = (host_key + r.host).len() as int;
    assert(no_cr_after_newline(r2, q2)) by {
        assert forall|i: int| 0 <= i < q2 && #[trigger] r2[i] == '\n' implies r2[i + 1]
            != '\r' by {
            if i < host_key.len() {
                assert(r2[i] == host_key[i]);
            } else {
                assert(r2[i] == r.host[i - host_key.len()]);
            }
        }
    }
    assert(r2[q2] == '\r');
    assert(r2[0] == 'H');
    lemma_no_cr_after_newline_cons(a1, r2, q2);
    let q1 = a1.len() + 1 + q2;
    assert(r1[0] == 'G');
    lemma_no_cr_after_newline_cons(a0, r1, q1);
    let q = a0.len() + 1 + q1;
    assert(f[q] == '\r') by {
        assert(f[q] == r1[q1]);
        assert(r1[q1] == r2[q2]);
    }
    lemma_no_blank_line_before(f, q);
    assert(f.subrange(q, q + 4) =~= blank) by {
        assert forall|k: int| 0 <= k < 4 implies f[q + k] == #[trigger] blank[k] by {
            assert(f[q + k] == r2[q2 + k]);
        }
    }
    lemma_find_is(f, blank, q);
    lemma_contains_at(f, blank, q);
    assert(f.skip(q + 4) =~= r.body) by {
        assert forall|k: int| 0 <= k < r.body.len() implies f[q + 4 + k] == #[trigger] r.body[k]
            by {
            assert(f[q + 4 + k] == r2[q2 + 4 + k]);
        }
    }
    assert(m != "POST"@) by {
        assert(m.len() != "POST"@.len());
    }
}


/// The registration request of the server, read by the proxy from its buffer (padded
/// with NUL characters), is a registration, and what the proxy stores is exactly the
/// server's secret, as long as the secret holds no white space and no NUL (as every
/// hex secret).
#[verifier::spinoff_prover]
#[verifier::rlimit(40)]
pub proof fn lemma_registration_stores_secret(secret: Seq<char>, pad: Seq<char>)
    requires
        no_ws(secret),
        forall|i: int| 0 <= i < secret.len() ==> #[trigger] secret[i] != '\0',
        forall|i: int| 0 <= i < pad.len() ==> #[trigger] pad[i] == '\0',
    ensures
        proxy::parseable(server::registration_spec(secret) + pad),
        proxy::is_registration(proxy::parse_spec(server::registration_spec(secret) + pad)),
        proxy::registered_secret(proxy::parse_spec(server::registration_spec(secret) + pad).body)
            == secret,
{
    reveal_strlit(
        "POST /register-secret HTTP/1.1\r\nHost: 0.0.0.0:2006\r\nContent-Type: text/plain\r\nContent-Length: ",
    );
    reveal_strlit("Host: 0.0.0.0:2006\r\nContent-Type: text/plain\r\nContent-Length: ");
    reveal_strlit("\r\n\r\n");
    reveal_strlit("POST");
    reveal_strlit("/register-secret");
    let head =
        "POST /register-secret HTTP/1.1\r\nHost: 0.0.0.0:2006\r\nContent-Type: text/plain\r\nContent-Length: "@;
    let rest_head = "Host: 0.0.0.0:2006\r\nContent-Type: text/plain\r\nContent-Length: "@;
    let blank = "\r\n\r\n"@;
    let pst = "POST"@;
    let reg = "/register-secret"@;
    let version = seq!['H', 'T', 'T', 'P', '/', '1', '.', '1'];
    let digits = decimal(utf8_len(secret) as nat);
    lemma_decimal_digits(utf8_len(secret) as nat);
    let x = server::registration_spec(secret) + pad;
    assert(x == head + digits + blank + secret + pad);
    // the request line
    let a0 = pst + seq![' '] + reg + seq![' '] + version + seq!['\r'];
    let r0 = rest_head + digits + blank + secret + pad;
    assert(head =~= a0 + seq!['\n'] + rest_head);
    assert(x =~= a0 + seq!['\n'] + r0);
    assert(no_newline(a0));
    lemma_lines_cons(a0, r0);
    let l0 = pst + seq![' '] + reg + seq![' '] + version;
    assert(strip_cr(a0) =~= l0);
    assert(line(x, 0) == Some(l0));
    assert(no_ws(pst));
    assert(no_ws(reg));
    assert(no_ws(version));
    lemma_words_single(version);
    lemma_words_cons(reg, ' ', version);
    assert(l0 =~= pst + seq![' '] + (reg + seq![' '] + version));
    lemma_words_cons(pst, ' ', reg + seq![' '] + version);
    assert(words(l0) =~= seq![pst, reg, version]);
    // the blank line that starts the body
    let q = (head + digits).len() as int;
    assert forall|i: int| 0 <= i < q && #[trigger] x[i] == '\n' implies x[i + 1] != '\r' by {
        if i < head.len() {
            assert(x[i] == head[i]);
            if i + 1 < head.len() {
                assert(x[i + 1] == head[i + 1]);
            }
        } else {
            assert(x[i] == digits[i - head.len()]);
        }
    }
    assert(x[q] == '\r');
    lemma_no_blank_line_before(x, q);
    assert(x.subrange(q, q + 4) =~= blank);
    lemma_find_is(x, blank, q);
    lemma_contains_at(x, blank, q);
    let body = secret + pad;
    assert(x.skip(q + 4) =~= body);
    // what the proxy keeps of the body
    if body.len() > 0 {
        if secret.len() > 0 {
            assert(body[0] == secret[0]);
        } else {
            assert(body[0] == pad[0]);
        }
    }
    lemma_trim_start_is(body, 0);
    assert(body.skip(0) =~= body);
    if body.len() > 0 {
        if pad.len() > 0 {
            assert(body[body.len() - 1] == pad[pad.len() - 1]);
        } else {
            assert(body[body.len() - 1] == secret[secret.len() - 1]);
        }
    }
    lemma_trim_end_is(body, body.len());
    assert(body.take(body.len() as int) =~= body);
    assert forall|i: int| secret.len() <= i < body.len() implies #[trigger] body[i] == '\0' by {
        assert(body[i] == pad[i - secret.len()]);
    }
    if secret.len() > 0 {
        assert(body[secret.len() - 1] == secret[secret.len() - 1]);
    }
    lemma_trim_end_char_is(body, '\0', secret.len());
    assert(body.take(secret.len() as int) =~= secret);
}


/// Once the proxy has stored the server's registration, a client's `GET` (other than
/// the icon) is forwarded, and the server reads it back with the registered secret as
/// its signature and with the client's method, path and body: the server lets it
/// through.
/// The secret holds no white space and no NUL, as every hex secret.
pub proof fn lemma_registered_proxy_signs_gets(
    state: Option<Seq<char>>,
    secret: Seq<char>,
    pad: Seq<char>,
    client: Seq<char>,
)
    requires
        no_ws(secret),
        forall|i: int| 0 <= i < secret.len() ==> #[trigger] secret[i] != '\0',
        forall|i: int| 0 <= i < pad.len() ==> #[trigger] pad[i] == '\0',
        proxy::parseable(client),
        proxy::parse_spec(client).method == "GET"@,
        !proxy::is_favicon(proxy::parse_spec(client)),
    ensures
        ({
            let registered = proxy::handle_spec(
                state,
                proxy::parse_spec(server::registration_spec(secret) + pad),
            ).0;
            let (after, reply) = proxy::handle_spec(registered, proxy::parse_spec(client));
            &&& registered == Some(secret)
            &&& after == registered
            &&& reply matches proxy::ReplyView::Forward(f) && {
                let sent = proxy::forward_spec(f)->0;
                &&& proxy::forward_spec(f) is Some
                &&& server::parseable(sent)
                &&& server::parse_spec(sent).signature == secret
                &&& server::parse_spec(sent).method == proxy::parse_spec(client).method
                &&& server::parse_spec(sent).uri == proxy::parse_spec(client).uri
                &&& server::parse_spec(sent).body == proxy::parse_spec(client).body
            }
        }),
{
    lemma_registration_stores_secret(secret, pad);
    let c = proxy::parse_spec(client);
    reveal_strlit("GET");
    reveal_strlit("POST");
    assert(!proxy::is_registration(c)) by {
        assert("GET"@.len() != "POST"@.len());
    }
    lemma_words_are_tokens(proxy::main_header(client));
    assert(c.uri == words(proxy::main_header(client))[1]);
    lemma_no_ws_no_newline(secret);
    reveal_strlit("0.0.0.0:2006");
    assert(no_newline(c.host));
    let f = proxy::RequestView {
        signature: secret,
        method: c.method,
        uri: c.uri,
        host: c.host,
        body: c.body,
    };
    lemma_forwarded_get_keeps_signature(f);
}


/// The proxy's answer to a registration, read by the server from its buffer (padded
/// with NUL characters or anything else), is taken as an acceptance.
pub proof fn lemma_registration_reply_accepted(
    state: Option<Seq<char>>,
    secret: Seq<char>,
    pad: Seq<char>,
    tail: Seq<char>,
)
    requires
        no_ws(secret),
        forall|i: int| 0 <= i < secret.len() ==> #[trigger] secret[i] != '\0',
        forall|i: int| 0 <= i < pad.len() ==> #[trigger] pad[i] == '\0',
    ensures
        proxy::handle_spec(state, proxy::parse_spec(server::registration_spec(secret) + pad)).1
            matches proxy::ReplyView::Respond(answer) && starts_with(
            answer + tail,
            "HTTP/1.1 200 OK"@,
        ),
{
    lemma_registration_stores_secret(secret, pad);
    reveal_strlit("HTTP/1.1 200 OK\r\n\r\n");
    reveal_strlit("HTTP/1.1 200 OK");
    let answer = "HTTP/1.1 200 OK\r\n\r\n"@;
    assert((answer + tail).take("HTTP/1.1 200 OK"@.len() as int) =~= "HTTP/1.1 200 OK"@);
}


/// The text the proxy sends for an upload.
pub open spec fn upload_text(
    signature: Seq<char>,
    host: Seq<char>,
    name: Seq<char>,
    content: Seq<char>,
) -> Seq<char> {
    "X-Proxy-Signature: "@ + signature + "\r\n"@ + "POST"@ + " "@ + "/upload"@
        + " HTTP/1.1\r\nHost: "@ + host + "\r\nFile-Name: "@ + name + "\r\nContent-Length: "@
        + decimal(utf8_len(content) as nat) + "\r\n\r\n"@ + content
}

/// An upload forwarded by the proxy is read back by the server as an upload with the
/// proxy's signature, the file name the proxy took from the body, and the file's
/// content as its body, as long as the signature and the host hold no line break.
pub proof fn lemma_forwarded_upload_is_read_back(r: proxy::RequestView)
    requires
        proxy::is_upload(r),
        proxy::forwardable(r),
        no_newline(r.signature),
        no_newline(r.host),
    ensures
        ({
            let sent = proxy::forward_spec(r)->0;
            let (name, content) = proxy::upload_fields(r.body)->0;
            &&& proxy::forward_spec(r) is Some
            &&& server::parseable(sent)
            &&& server::parse_spec(sent).signature == r.signature
            &&& server::parse_spec(sent).method == r.method
            &&& server::parse_spec(sent).uri == r.uri
            &&& server::parse_spec(sent).file_name == name
            &&& server::parse_spec(sent).body == content
        }),
{
    reveal_strlit("GET");
    reveal_strlit("POST");
    let (name, content) = proxy::upload_fields(r.body)->0;
    // the file name holds no line break
    let l = line(r.body, 1)->0;
    lemma_lines_no_newline(r.body);
    assert(l == lines(r.body)[1]);
    let part = split_piece(l, "; "@, 2)->0;
    lemma_split_piece_no_newline(l, "; "@, 2);
    lemma_split_once_no_newline(part, "="@);
    lemma_remove_char_no_newline((split_once(part, "="@)->0).1, '"');
    assert(no_newline(name));
    assert(r.method != "GET"@) by {
        assert(r.method.len() != "GET"@.len());
    }
    assert(proxy::forward_spec(r)->0 == upload_text(r.signature, r.host, name, content));
    lemma_upload_text_is_read_back(r.signature, r.host, name, content);
}

/// The server reads the proxy's upload text back as an upload with the given
/// signature, file name and content, for any signature, host and file name without a
/// line break and any content.
#[verifier::spinoff_prover]
#[verifier::rlimit(40)]
pub proof fn lemma_upload_text_is_read_back(
    sig: Seq<char>,
    host: Seq<char>,
    name: Seq<char>,
    content: Seq<char>,
)
    requires
        no_newline(sig),
        no_newline(host),
        no_newline(name),
    ensures
        ({
            let sent = upload_text(sig, host, name, content);
            &&& server::parseable(sent)
            &&& server::parse_spec(sent).signature == sig
            &&& server::parse_spec(sent).method == "POST"@
            &&& server::parse_spec(sent).uri == "/upload"@
            &&& server::parse_spec(sent).host == "0.0.0.0:2006"@
            &&& server::parse_spec(sent).file_name == name
            &&& server::parse_spec(sent).body == content
        }),
{
    reveal_strlit("X-Proxy-Signature: ");
    reveal_strlit("X-Proxy-Signature");
    reveal_strlit("\r\n");
    reveal_strlit(" ");
    reveal_strlit(" HTTP/1.1\r\nHost: ");
    reveal_strlit("\r\nFile-Name: ");
    reveal_strlit("\r\nContent-Length: ");
    reveal_strlit("\r\n\r\n");
    reveal_strlit("POST");
    reveal_strlit("/upload");
    reveal_strlit(": ");
    let p = "X-Proxy-Signature: "@;
    let tag = "X-Proxy-Signature"@;
    let colon = ": "@;
    let blank = "\r\n\r\n"@;
    let m = "POST"@;
    let u = "/upload"@;
    let digits = decimal(utf8_len(content) as nat);
    lemma_decimal_digits(utf8_len(content) as nat);
    let f = upload_text(sig, host, name, content);
    let version = seq!['H', 'T', 'T', 'P', '/', '1', '.', '1'];
    let host_key = seq!['H', 'o', 's', 't', ':', ' '];
    let name_key = seq!['F', 'i', 'l', 'e', '-', 'N', 'a', 'm', 'e', ':', ' '];
    let length_key = seq![
        'C', 'o', 'n', 't', 'e', 'n', 't', '-', 'L', 'e', 'n', 'g', 't', 'h', ':', ' '
    ];
    let a0 = p + sig + seq!['\r'];
    let a1 = m + seq![' '] + u + seq![' '] + version + seq!['\r'];
    let a2 = host_key + host + seq!['\r'];
    let a3 = name_key + name + seq!['\r'];
    let r4 = length_key + digits + blank + content;
    let r3 = a3 + seq!['\n'] + r4;
    let r2 = a2 + seq!['\n'] + r3;
    let r1 = a1 + seq!['\n'] + r2;
    assert(f =~= a0 + seq!['\n'] + r1);
    assert(no_newline(a0)) by {
        assert forall|i: int| 0 <= i < a0.len() implies #[trigger] a0[i] != '\n' by {
            if i >= p.len() && i < p.len() + sig.len() {
                assert(a0[i] == sig[i - p.len()]);
            }
        }
    }
    assert(no_newline(a1));
    assert(no_newline(a2)) by {
        assert forall|i: int| 0 <= i < a2.len() implies #[trigger] a2[i] != '\n' by {
            if 6 <= i < 6 + host.len() {
                assert(a2[i] == host[i - 6]);
            }
        }
    }
    assert(no_newline(a3)) by {
        assert forall|i: int| 0 <= i < a3.len() implies #[trigger] a3[i] != '\n' by {
            if 11 <= i < 11 + name.len() {
                assert(a3[i] == name[i - 11]);
            }
        }
    }
    lemma_lines_cons(a0, r1);
    lemma_lines_cons(a1, r2);
    lemma_lines_cons(a2, r3);
    lemma_lines_cons(a3, r4);
    let l1 = m + seq![' '] + u + seq![' '] + version;
    let l3 = name_key + name;
    assert(strip_cr(a0) =~= p + sig);
    assert(strip_cr(a1) =~= l1);
    assert(strip_cr(a2) =~= host_key + host);
    assert(strip_cr(a3) =~= l3);
    assert(lines(f) =~= seq![p + sig, l1, host_key + host, l3] + lines(r4));
    assert(line(f, 0) == Some(p + sig));
    assert(line(f, 1) == Some(l1));
    assert(line(f, 3) == Some(l3));
    // the request line
    assert(no_ws(m));
    assert(no_ws(u));
    assert(no_ws(version));
    lemma_words_single(version);
    lemma_words_cons(u, ' ', version);
    assert(l1 =~= m + seq![' '] + (u + seq![' '] + version));
    lemma_words_cons(m, ' ', u + seq![' '] + version);
    assert(words(l1) =~= seq![m, u, version]);
    // the signature line
    assert(matches_at(f, tag, 0)) by {
        assert(f.subrange(0, tag.len() as int) =~= tag);
    }
    lemma_contains_at(f, tag, 0);
    let first = p + sig;
    assert forall|j: int| 0 <= j < 17 && j < first.len() implies #[trigger] first[j] != colon[0] by {
        assert(first[j] == p[j]);
    }
    lemma_no_match_before(first, colon, 17);
    assert(first.subrange(17, 19) =~= colon);
    lemma_find_is(first, colon, 17);
    assert(first.skip(19) =~= sig);
    // the file name line
    assert forall|j: int| 0 <= j < 9 && j < l3.len() implies #[trigger] l3[j] != colon[0] by {
        assert(l3[j] == name_key[j]);
    }
    lemma_no_match_before(l3, colon, 9);
    assert(l3.subrange(9, 11) =~= colon);
    lemma_find_is(l3, colon, 9);
    assert(l3.skip(11) =~= name);
    // the blank line
    let q4 = (length_key + digits).len() as int;
    assert(no_cr_after_newline(r4, q4)) by {
        assert forall|i: int| 0 <= i < q4 && #[trigger] r4[i] == '\n' implies r4[i + 1]
            != '\r' by {
            if i < length_key.len() {
                assert(r4[i] == length_key[i]);
            } else {
                assert(r4[i] == digits[i - length_key.len()]);
            }
        }
    }
    assert(r4[q4] == '\r');
    assert(r4[0] == 'C');
    lemma_no_cr_after_newline_cons(a3, r4, q4);
    let q3 = a3.len() + 1 + q4;
    assert(r3[0] == 'F');
    lemma_no_cr_after_newline_cons(a2, r3, q3);
    let q2 = a2.len() + 1 + q3;
    assert(r2[0] == 'H');
    lemma_no_cr_after_newline_cons(a1, r2, q2);
    let q1 = a1.len() + 1 + q2;
    assert(r1[0] == 'P');
    lemma_no_cr_after_newline_cons(a0, r1, q1);
    let q = a0.len() + 1 + q1;
    assert(f[q] == '\r') by {
        assert(f[q] == r1[q1]);
        assert(r1[q1] == r2[q2]);
        assert(r2[q2] == r3[q3]);
        assert(r3[q3] == r4[q4]);
    }
    lemma_no_blank_line_before(f, q);
    assert(f.subrange(q, q + 4) =~= blank) by {
        assert forall|k: int| 0 <= k < 4 implies f[q + k] == #[trigger] blank[k] by {
            assert(f[q + k] == r4[q4 + k]);
        }
    }
    lemma_find_is(f, blank, q);
    lemma_contains_at(f, blank, q);
    assert(f.skip(q + 4) =~= content) by {
        assert forall|k: int| 0 <= k < content.len() implies f[q + 4 + k] == #[trigger] content[k]
            by {
            assert(f[q + 4 + k] == r4[q4 + 4 + k]);
        }
    }
}



/// Once the proxy has stored the server's registration, a client's upload that the
/// proxy can forward is signed with the registered secret, and the server reads it
/// back with that secret as its signature, as an upload, with the file name and the
/// content the proxy took from the client's body. The secret holds no white space and
/// no NUL, as every hex secret.
pub proof fn lemma_registered_proxy_signs_uploads(
    state: Option<Seq<char>>,
    secret: Seq<char>,
    pad: Seq<char>,
    client: Seq<char>,
)
    requires
        no_ws(secret),
        forall|i: int| 0 <= i < secret.len() ==> #[trigger] secret[i] != '\0',
        forall|i: int| 0 <= i < pad.len() ==> #[trigger] pad[i] == '\0',
        proxy::parseable(client),
        proxy::is_upload(proxy::parse_spec(client)),
        proxy::forwardable(proxy::parse_spec(client)),
    ensures
        ({
            let registered = proxy::handle_spec(
                state,
                proxy::parse_spec(server::registration_spec(secret) + pad),
            ).0;
            let (after, reply) = proxy::handle_spec(registered, proxy::parse_spec(client));
            let (name, content) = proxy::upload_fields(proxy::parse_spec(client).body)->0;
            &&& registered == Some(secret)
            &&& after == registered
            &&& reply matches proxy::ReplyView::Forward(f) && {
                let sent = proxy::forward_spec(f)->0;
                &&& proxy::forward_spec(f) is Some
                &&& server::parseable(sent)
                &&& server::parse_spec(sent).signature == secret
                &&& server::parse_spec(sent).method == "POST"@
                &&& server::parse_spec(sent).uri == "/upload"@
                &&& server::parse_spec(sent).file_name == name
                &&& server::parse_spec(sent).body == content
            }
        }),
{
    lemma_registration_stores_secret(secret, pad);
    let c = proxy::parse_spec(client);
    reveal_strlit("/upload");
    reveal_strlit("/register-secret");
    assert(!proxy::is_registration(c)) by {
        assert("/upload"@.len() != "/register-secret"@.len());
    }
    reveal_strlit("GET");
    reveal_strlit("POST");
    assert(!proxy::is_favicon(c)) by {
        assert("GET"@.len() != "POST"@.len());
    }
    lemma_no_ws_no_newline(secret);
    reveal_strlit("0.0.0.0:2006");
    assert(no_newline(c.host));
    let f = proxy::RequestView {
        signature: secret,
        method: c.method,
        uri: c.uri,
        host: c.host,
        body: c.body,
    };
    lemma_forwarded_upload_is_read_back(f);
}


/// The upload text carries the file's content as its body, with the content's byte
/// count as its `Content-Length`, for any signature, host and file name without a line
/// break.
pub proof fn lemma_upload_text_frames_content(
    sig: Seq<char>,
    host: Seq<char>,
    name: Seq<char>,
    content: Seq<char>,
)
    requires
        no_newline(sig),
        no_newline(host),
        no_newline(name),
    ensures
        frames_content(upload_text(sig, host, name, content), content),
{
    reveal_strlit("X-Proxy-Signature: ");
    reveal_strlit("\r\n");
    reveal_strlit("POST");
    reveal_strlit(" ");
    reveal_strlit("/upload");
    reveal_strlit(" HTTP/1.1\r\nHost: ");
    reveal_strlit("\r\nFile-Name: ");
    reveal_strlit("\r\nContent-Length: ");
    let l0 = "X-Proxy-Signature: "@;
    let l1 = "\r\n"@ + "POST"@ + " "@ + "/upload"@ + " HTTP/1.1\r\nHost: "@;
    let l2 = "\r\nFile-Name: "@;
    let l3 = "\r\nContent-Length: "@;
    assert(crlf_clean(l0));
    assert(crlf_clean(l1));
    assert(crlf_clean(l2));
    assert(crlf_clean(l3));
    lemma_no_newline_clean(sig);
    lemma_no_newline_clean(host);
    lemma_no_newline_clean(name);
    lemma_crlf_clean_concat(l0, sig);
    lemma_crlf_clean_concat(l0 + sig, l1);
    lemma_crlf_clean_concat(l0 + sig + l1, host);
    lemma_crlf_clean_concat(l0 + sig + l1 + host, l2);
    lemma_crlf_clean_concat(l0 + sig + l1 + host + l2, name);
    lemma_crlf_clean_concat(l0 + sig + l1 + host + l2 + name, l3);
    let pre = l0 + sig + l1 + host + l2 + name + l3;
    assert(pre.skip(pre.len() - 18) =~= l3);
    lemma_length_framed(pre, Seq::empty(), content);
    let d = decimal(utf8_len(content) as nat);
    assert(upload_text(sig, host, name, content) =~= pre + d + Seq::<char>::empty() + "\r\n\r\n"@
        + content);
    assert(pre + d + Seq::<char>::empty() =~= pre + d);
}

} // verus!
