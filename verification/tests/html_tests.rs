use signing_proxy::html::{document_page, escape_html, fill_template, list_files, render_index};

#[test]
fn escape_replaces_markup() {
    assert_eq!(escape_html("<a href=\"x\">&</a>"), "&lt;a href=&quot;x&quot;&gt;&amp;&lt;/a&gt;");
    assert_eq!(escape_html("plain 'text' é"), "plain 'text' é");
    assert_eq!(escape_html(""), "");
}

#[test]
fn escaped_text_has_no_markup() {
    let out = escape_html("<<\">>&");
    assert!(!out.contains('<') && !out.contains('>') && !out.contains('"'));
}

#[test]
fn fill_replaces_every_placeholder() {
    assert_eq!(fill_template("a{{X}}b{{X}}", "{{X}}", "<i>"), "a&lt;i&gt;b&lt;i&gt;");
    assert_eq!(fill_template("no placeholder", "{{X}}", "y"), "no placeholder");
    assert_eq!(fill_template("aaa", "aa", "b"), "ba");
    assert_eq!(fill_template("ab", "", "-"), "-a-b-");
}

#[test]
fn listing_is_sorted_and_escaped() {
    let names = vec!["b.txt".to_string(), "A.txt".to_string(), "a<b>.txt".to_string(), "é.txt".to_string(), "a.txt".to_string()];
    assert_eq!(
        list_files("<pre>{{NOMES_DOS_ARQUIVOS}}</pre>", &names),
        "<pre>A.txt\na.txt\na&lt;b&gt;.txt\nb.txt\né.txt</pre>"
    );
    assert_eq!(list_files("[{{NOMES_DOS_ARQUIVOS}}]", &vec![]), "[]");
}

#[test]
fn index_page_fills_all_placeholders() {
    let page = render_index(
        "{{NOMES_DOS_ARQUIVOS}}|{{NOME_ARQUIVO_ABERTO}}|{{CONTEUDO_ARQUIVO_ABERTO}}",
        &vec!["z".to_string(), "y".to_string()],
        "y",
        "&lt;",
    );
    assert_eq!(page, "y\nz|y|&amp;lt;");
}

#[test]
fn document_page_escapes_content_twice() {
    let page = document_page(
        "{{NOMES_DOS_ARQUIVOS}}|{{NOME_ARQUIVO_ABERTO}}|{{CONTEUDO_ARQUIVO_ABERTO}}",
        &vec!["n<1>.txt".to_string()],
        "n<1>.txt",
        "<b>",
    );
    assert_eq!(page, "n&lt;1&gt;.txt|n&lt;1&gt;.txt|&amp;lt;b&amp;gt;");
}
