//! HTML escaping, template filling and the listing of stored files.

use vstd::prelude::*;
use vstd::relations::{sorted_by, total_ordering};
use crate::text::{
    chars_of, contains, extend, find, lemma_find, matches_at, replace_all, replace_all_in, string_of,
    views,
};

verus! {

/// What `escape_html` writes for one character.
pub open spec fn escape_char(c: char) -> Seq<char> {
    if c == '&' {
        seq!['&', 'a', 'm', 'p', ';']
    } else if c == '<' {
        seq!['&', 'l', 't', ';']
    } else if c == '>' {
        seq!['&', 'g', 't', ';']
    } else if c == '"' {
        seq!['&', 'q', 'u', 'o', 't', ';']
    } else {
        seq![c]
    }
}

/// `s` with `&`, `<`, `>` and `"` replaced by their HTML entities.
pub open spec fn escape(s: Seq<char>) -> Seq<char>
    decreases s.len(),
{
    if s.len() == 0 {
        s
    } else {
        escape_char(s[0]) + escape(s.drop_first())
    }
}

/// Makes `text` safe to place inside an HTML page: `&`, `<`, `>` and `"` become
/// `&amp;`, `&lt;`, `&gt;` and `&quot;`, every other character is kept.
pub fn escape_html(text: &str) -> (output: String)
    ensures
        output@ == escape(text@),
{
    let s = chars_of(text);
    let mut out: Vec<char> = Vec::new();
    let mut i: usize = 0;
    assert(s@.skip(0) == s@);
    while i < s.len()
        invariant
            i <= s@.len(),
            s@ == text@,
            out@ + escape(s@.skip(i as int)) == escape(s@),
        decreases s.len() - i,
    {
        let ghost rest = s@.skip(i as int);
        let ghost before = out@;
        let c = s[i];
        if c == '&' {
            out.push('&');
            out.push('a');
            out.push('m');
            out.push('p');
            out.push(';');
        } else if c == '<' {
            out.push('&');
            out.push('l');
            out.push('t');
            out.push(';');
        } else if c == '>' {
            out.push('&');
            out.push('g');
            out.push('t');
            out.push(';');
        } else if c == '"' {
            out.push('&');
            out.push('q');
            out.push('u');
            out.push('o');
            out.push('t');
            out.push(';');
        } else {
            out.push(c);
        }
        assert(out@ =~= before + escape_char(c));
        assert(rest.drop_first() =~= s@.skip(i + 1));
        assert(out@ + escape(s@.skip(i + 1)) =~= before + escape(rest));
        i += 1;
    }
    assert(s@.skip(i as int) =~= Seq::<char>::empty());
    assert(out@ + Seq::<char>::empty() =~= out@);
    string_of(&out)
}

/// `html_template` with every occurrence of `placeholder` replaced by `data` made
/// safe by `escape_html`.
pub fn fill_template(html_template: &str, placeholder: &str, data: &str) -> (page: String)
    ensures
        page@ == replace_all(html_template@, placeholder@, escape(data@)),
{
    let safe_data = escape_html(data);
    let t = chars_of(html_template);
    let p = chars_of(placeholder);
    let d = chars_of(safe_data.as_str());
    let out = replace_all_in(&t, &p, &d);
    string_of(&out)
}

/// Escaping leaves no `<`, `>` or `"` in its output, so escaped text cannot open or
/// close a tag or end a quoted attribute.
pub proof fn lemma_escape_has_no_markup(s: Seq<char>)
    ensures
        forall|i: int|
            0 <= i < escape(s).len() ==> {
                let c = #[trigger] escape(s)[i];
                c != '<' && c != '>' && c != '"'
            },
    decreases s.len(),
{
    if s.len() > 0 {
        lemma_escape_has_no_markup(s.drop_first());
        let head = escape_char(s[0]);
        let tail = escape(s.drop_first());
        assert forall|i: int| 0 <= i < escape(s).len() implies {
            let c = #[trigger] escape(s)[i];
            c != '<' && c != '>' && c != '"'
        } by {
            if i < head.len() {
                assert(escape(s)[i] == head[i]);
            } else {
                assert(escape(s)[i] == tail[i - head.len()]);
            }
        }
    }
}

/// Text holding none of `&`, `<`, `>` and `"` is left as it is by escaping.
pub proof fn lemma_escape_plain_text(s: Seq<char>)
    requires
        forall|i: int|
            0 <= i < s.len() ==> {
                let c = #[trigger] s[i];
                c != '&' && c != '<' && c != '>' && c != '"'
            },
    ensures
        escape(s) == s,
    decreases s.len(),
{
    if s.len() > 0 {
        assert forall|i: int| 0 <= i < s.drop_first().len() implies {
            let c = #[trigger] s.drop_first()[i];
            c != '&' && c != '<' && c != '>' && c != '"'
        } by {
            assert(s.drop_first()[i] == s[i + 1]);
        }
        lemma_escape_plain_text(s.drop_first());
        let c = s[0];
        assert(c != '&' && c != '<' && c != '>' && c != '"');
        assert(seq![s[0]] + s.drop_first() =~= s);
    }
}

/// A template that does not contain the placeholder comes back unchanged.
pub proof fn lemma_replace_absent(s: Seq<char>, p: Seq<char>, r: Seq<char>)
    requires
        p.len() > 0,
        !contains(s, p),
    ensures
        replace_all(s, p, r) == s,
    decreases s.len(),
{
    lemma_find(s, p);
    if s.len() >= p.len() {
        assert(s.take(p.len() as int) == s.subrange(0, p.len() as int));
        assert(!matches_at(s, p, 0));
        let t = s.drop_first();
        lemma_find(t, p);
        if contains(t, p) {
            let j = find(t, p)->0;
            assert(t.subrange(j, j + p.len()) =~= s.subrange(j + 1, j + 1 + p.len()));
            assert(matches_at(s, p, j + 1));
        }
        lemma_replace_absent(t, p, r);
        assert(seq![s[0]] + t =~= s);
    }
}


/// Lexicographic order of character sequences by code point, which is the order
/// `String`'s `Ord` gives (UTF-8 keeps code-point order).
pub open spec fn lex_le(a: Seq<char>, b: Seq<char>) -> bool
    decreases a.len(),
{
    if a.len() == 0 {
        true
    } else if b.len() == 0 {
        false
    } else if a[0] < b[0] {
        true
    } else if a[0] == b[0] {
        lex_le(a.drop_first(), b.drop_first())
    } else {
        false
    }
}

/// [`lex_le`] as a relation.
pub open spec fn name_order() -> spec_fn(Seq<char>, Seq<char>) -> bool {
    |a: Seq<char>, b: Seq<char>| lex_le(a, b)
}

proof fn lemma_lex_reflexive(a: Seq<char>)
    ensures
        lex_le(a, a),
    decreases a.len(),
{
    if a.len() > 0 {
        lemma_lex_reflexive(a.drop_first());
    }
}

proof fn lemma_lex_antisymmetric(a: Seq<char>, b: Seq<char>)
    requires
        lex_le(a, b),
        lex_le(b, a),
    ensures
        a == b,
    decreases a.len(),
{
    if a.len() > 0 && b.len() > 0 {
        assert(a[0] == b[0]);
        lemma_lex_antisymmetric(a.drop_first(), b.drop_first());
        assert(a =~= seq![a[0]] + a.drop_first());
        assert(b =~= seq![b[0]] + b.drop_first());
    } else {
        assert(a =~= b);
    }
}

proof fn lemma_lex_transitive(a: Seq<char>, b: Seq<char>, c: Seq<char>)
    requires
        lex_le(a, b),
        lex_le(b, c),
    ensures
        lex_le(a, c),
    decreases a.len(),
{
    if a.len() > 0 && b.len() > 0 && c.len() > 0 {
        if a[0] == b[0] && b[0] == c[0] {
            lemma_lex_transitive(a.drop_first(), b.drop_first(), c.drop_first());
        }
    }
}

proof fn lemma_lex_total(a: Seq<char>, b: Seq<char>)
    ensures
        lex_le(a, b) || lex_le(b, a),
    decreases a.len(),
{
    if a.len() > 0 && b.len() > 0 {
        if a[0] == b[0] {
            lemma_lex_total(a.drop_first(), b.drop_first());
        }
    }
}

/// [`name_order`] is a total order.
pub proof fn lemma_name_order_total()
    ensures
        total_ordering(name_order()),
{
    let r = name_order();
    assert forall|x: Seq<char>| #[trigger] r(x, x) by {
        lemma_lex_reflexive(x);
    }
    assert forall|x: Seq<char>, y: Seq<char>| #[trigger] r(x, y) && #[trigger] r(y, x) implies x
        == y by {
        lemma_lex_antisymmetric(x, y);
    }
    assert forall|x: Seq<char>, y: Seq<char>, z: Seq<char>| #[trigger]
        r(x, y) && #[trigger] r(y, z) implies r(x, z) by {
        lemma_lex_transitive(x, y, z);
    }
    assert forall|x: Seq<char>, y: Seq<char>| #[trigger] r(x, y) || #[trigger] r(y, x) by {
        lemma_lex_total(x, y);
    }
}

/// Decides [`lex_le`].
pub fn lex_le_exec(a: &[char], b: &[char]) -> (r: bool)
    ensures
        r == lex_le(a@, b@),
{
    let mut i: usize = 0;
    assert(a@.skip(0) == a@ && b@.skip(0) == b@);
    loop
        invariant
            i <= a@.len(),
            i <= b@.len(),
            lex_le(a@, b@) == lex_le(a@.skip(i as int), b@.skip(i as int)),
        decreases a.len() - i,
    {
        let ghost x = a@.skip(i as int);
        let ghost y = b@.skip(i as int);
        if i == a.len() {
            return true;
        }
        if i == b.len() {
            return false;
        }
        assert(x[0] == a@[i as int] && y[0] == b@[i as int]);
        if a[i] < b[i] {
            return true;
        }
        if a[i] != b[i] {
            return false;
        }
        assert(x.drop_first() =~= a@.skip(i + 1));
        assert(y.drop_first() =~= b@.skip(i + 1));
        i += 1;
    }
}

/// The items of `list` with `sep` between each two of them (`[T]::join`).
pub open spec fn join(list: Seq<Seq<char>>, sep: Seq<char>) -> Seq<char>
    decreases list.len(),
{
    if list.len() == 0 {
        Seq::empty()
    } else if list.len() == 1 {
        list[0]
    } else {
        join(list.drop_last(), sep) + sep + list.last()
    }
}

/// Computes [`join`].
pub fn join_with(list: &Vec<Vec<char>>, sep: &[char]) -> (out: Vec<char>)
    ensures
        out@ == join(views(list@), sep@),
{
    let mut out: Vec<char> = Vec::new();
    let ghost l = views(list@);
    for i in 0..list.len()
        invariant
            l == views(list@),
            out@ == join(l.take(i as int), sep@),
    {
        assert(l[i as int] == list@[i as int]@);
        if i == 0 {
            extend(&mut out, &list[i]);
            assert(l.take(1) =~= seq![l[0]]);
        } else {
            extend(&mut out, sep);
            extend(&mut out, &list[i]);
            assert(l.take(i + 1).drop_last() =~= l.take(i as int));
            assert(l.take(i + 1).last() == l[i as int]);
        }
    }
    assert(l.take(list@.len() as int) =~= l);
    out
}

/// Sorts file names by [`name_order`], as `Vec::sort` orders `String`s.
pub fn sort_names(names: Vec<Vec<char>>) -> (out: Vec<Vec<char>>)
    ensures
        views(out@) == views(names@).sort_by(name_order()),
{
    broadcast use vstd::seq_lib::group_to_multiset_ensures;

    let ghost leq = name_order();
    proof {
        lemma_name_order_total();
    }
    let mut rest = names;
    let mut out: Vec<Vec<char>> = Vec::new();
    while rest.len() > 0
        invariant
            leq == name_order(),
            total_ordering(leq),
            sorted_by(views(out@), leq),
            views(out@).to_multiset().add(views(rest@).to_multiset()) == views(
                names@,
            ).to_multiset(),
        decreases rest.len(),
    {
        let ghost old_rest = rest@;
        let ghost s = views(out@);
        let x = rest.pop().unwrap();
        assert(views(old_rest) =~= views(rest@).push(x@));
        let mut pos: usize = 0;
        while pos < out.len() && lex_le_exec(&out[pos], &x)
            invariant
                pos <= out@.len(),
                s == views(out@),
                forall|k: int| 0 <= k < pos ==> lex_le(#[trigger] s[k], x@),
            decreases out.len() - pos,
        {
            assert(s[pos as int] == out@[pos as int]@);
            pos += 1;
        }
        proof {
            if pos < out@.len() {
                assert(s[pos as int] == out@[pos as int]@);
                lemma_lex_total(s[pos as int], x@);
            }
        }
        out.insert(pos, x);
        let ghost t = views(out@);
        assert(t =~= s.insert(pos as int, x@));
        proof {
            assert forall|i: int, j: int| 0 <= i < j < t.len() implies #[trigger] leq(
                t[i],
                t[j],
            ) by {
                if j < pos {
                    assert(leq(s[i], s[j]));
                } else if j == pos {
                    assert(lex_le(s[i], x@));
                } else if i < pos {
                    assert(leq(s[i], s[j - 1]));
                } else if i == pos {
                    if j - 1 > pos {
                        assert(leq(s[pos as int], s[j - 1]));
                        lemma_lex_transitive(x@, s[pos as int], s[j - 1]);
                    }
                } else {
                    assert(leq(s[i - 1], s[j - 1]));
                }
            }
            assert(t.remove(pos as int) =~= s);
            assert(t[pos as int] == x@);
            t.to_multiset_ensures();
            s.to_multiset_ensures();
            assert(t.to_multiset() =~= s.to_multiset().insert(x@)) by {
                assert(t.remove(pos as int).to_multiset() =~= t.to_multiset().remove(x@));
                assert(t.to_multiset().count(x@) > 0) by {
                    assert(t.contains(x@));
                }
            }
            views(rest@).to_multiset_ensures();
            assert(views(old_rest).to_multiset() =~= views(rest@).to_multiset().insert(x@));
            assert(t.to_multiset().add(views(rest@).to_multiset()) =~= s.to_multiset().add(
                views(old_rest).to_multiset(),
            ));
        }
    }
    proof {
        assert(views(rest@) =~= Seq::<Seq<char>>::empty());
        assert(views(out@).to_multiset() =~= views(names@).to_multiset());
        views(names@).lemma_sort_by_ensures(leq);
        vstd::seq_lib::lemma_sorted_unique(
            views(out@),
            views(names@).sort_by(leq),
            leq,
        );
    }
    out
}


/// The views of a list of strings.
pub open spec fn string_views(v: Seq<String>) -> Seq<Seq<char>> {
    v.map_values(|s: String| s@)
}

/// The file names sorted and put one per line.
pub open spec fn listing(names: Seq<Seq<char>>) -> Seq<char> {
    join(names.sort_by(name_order()), seq!['\n'])
}

/// The index page with the sorted names of the stored files, one per line and
/// escaped, in place of `{{NOMES_DOS_ARQUIVOS}}`.
pub fn list_files(index_content: &str, file_names: &Vec<String>) -> (page: String)
    ensures
        page@ == replace_all(
            index_content@,
            "{{NOMES_DOS_ARQUIVOS}}"@,
            escape(listing(string_views(file_names@))),
        ),
{
    let mut names: Vec<Vec<char>> = Vec::new();
    for i in 0..file_names.len()
        invariant
            views(names@) == string_views(file_names@).take(i as int),
    {
        let ghost before = names@;
        names.push(chars_of(file_names[i].as_str()));
        assert(views(names@) =~= views(before).push(file_names@[i as int]@));
        assert(string_views(file_names@).take(i + 1) =~= string_views(file_names@).take(
            i as int,
        ).push(file_names@[i as int]@));
    }
    assert(string_views(file_names@).take(file_names@.len() as int) =~= string_views(
        file_names@,
    ));
    let sorted = sort_names(names);
    let newline = vec!['\n'];
    assert(newline@ == seq!['\n']);
    let all_names = join_with(&sorted, &newline);
    let all_names = string_of(&all_names);
    fill_template(index_content, "{{NOMES_DOS_ARQUIVOS}}", all_names.as_str())
}

/// The index page: the listing of [`list_files`], then `opened_name` in place of
/// `{{NOME_ARQUIVO_ABERTO}}` and `opened_content` in place of
/// `{{CONTEUDO_ARQUIVO_ABERTO}}`, each escaped.
pub fn render_index(
    index_content: &str,
    file_names: &Vec<String>,
    opened_name: &str,
    opened_content: &str,
) -> (page: String)
    ensures
        page@ == replace_all(
            replace_all(
                replace_all(
                    index_content@,
                    "{{NOMES_DOS_ARQUIVOS}}"@,
                    escape(listing(string_views(file_names@))),
                ),
                "{{NOME_ARQUIVO_ABERTO}}"@,
                escape(opened_name@),
            ),
            "{{CONTEUDO_ARQUIVO_ABERTO}}"@,
            escape(opened_content@),
        ),
{
    let listed = list_files(index_content, file_names);
    let named = fill_template(listed.as_str(), "{{NOME_ARQUIVO_ABERTO}}", opened_name);
    fill_template(named.as_str(), "{{CONTEUDO_ARQUIVO_ABERTO}}", opened_content)
}


/// The page that shows a stored document: the index page of [`render_index`] with the
/// document's name, and its content escaped once before filling, so that it appears
/// escaped twice in the page.
pub fn document_page(
    index_content: &str,
    file_names: &Vec<String>,
    file_name: &str,
    file_content: &str,
) -> (page: String)
    ensures
        page@ == replace_all(
            replace_all(
                replace_all(
                    index_content@,
                    "{{NOMES_DOS_ARQUIVOS}}"@,
                    escape(listing(string_views(file_names@))),
                ),
                "{{NOME_ARQUIVO_ABERTO}}"@,
                escape(file_name@),
            ),
            "{{CONTEUDO_ARQUIVO_ABERTO}}"@,
            escape(escape(file_content@)),
        ),
{
    let escaped = escape_html(file_content);
    render_index(index_content, file_names, file_name, escaped.as_str())
}


/// Escaping works character by character: the escape of two texts put together is the
/// two escapes put together.
pub proof fn lemma_escape_concat(a: Seq<char>, b: Seq<char>)
    ensures
        escape(a + b) == escape(a) + escape(b),
    decreases a.len(),
{
    if a.len() == 0 {
        assert(a + b =~= b);
        assert(escape(a) + escape(b) =~= escape(b));
    } else {
        lemma_escape_concat(a.drop_first(), b);
        assert((a + b).drop_first() =~= a.drop_first() + b);
        assert((a + b)[0] == a[0]);
        assert(escape(a + b) =~= escape(a) + escape(b));
    }
}

/// Each of `&`, `<`, `>` and `"` becomes its entity wherever it stands in the text,
/// and every other character is kept as it is, with the text around it escaped.
pub proof fn lemma_escape_each_character(a: Seq<char>, c: char, b: Seq<char>)
    ensures
        c == '&' ==> escape(a + seq![c] + b) == escape(a) + seq!['&', 'a', 'm', 'p', ';'] + escape(b),
        c == '<' ==> escape(a + seq![c] + b) == escape(a) + seq!['&', 'l', 't', ';'] + escape(b),
        c == '>' ==> escape(a + seq![c] + b) == escape(a) + seq!['&', 'g', 't', ';'] + escape(b),
        c == '"' ==> escape(a + seq![c] + b) == escape(a) + seq!['&', 'q', 'u', 'o', 't', ';']
            + escape(b),
        c != '&' && c != '<' && c != '>' && c != '"' ==> escape(a + seq![c] + b) == escape(a)
            + seq![c] + escape(b),
{
    lemma_escape_concat(a + seq![c], b);
    lemma_escape_concat(a, seq![c]);
    let one = seq![c];
    assert(one.drop_first() =~= Seq::<char>::empty());
    assert(escape(one) == escape_char(c) + escape(Seq::<char>::empty()));
    assert(escape(one) =~= escape_char(c));
}

/// A name comes before every longer name that starts with it.
pub proof fn lemma_lex_prefix_first(a: Seq<char>, b: Seq<char>)
    ensures
        lex_le(a, a + b),
        lex_le(a + b, a) ==> b.len() == 0,
    decreases a.len(),
{
    if a.len() > 0 {
        lemma_lex_prefix_first(a.drop_first(), b);
        assert((a + b).drop_first() =~= a.drop_first() + b);
        assert((a + b)[0] == a[0]);
    } else {
        assert(a + b =~= b);
    }
}

/// Names that agree up to a position are ordered by their characters there: the one
/// with the smaller code point comes first, and not the other way round.
pub proof fn lemma_lex_first_difference(a: Seq<char>, b: Seq<char>, k: int)
    requires
        0 <= k < a.len(),
        k < b.len(),
        a.take(k) == b.take(k),
        a[k] < b[k],
    ensures
        lex_le(a, b),
        !lex_le(b, a),
    decreases k,
{
    if k > 0 {
        assert(a[0] == a.take(k)[0] && b[0] == b.take(k)[0]);
        assert(a.drop_first().take(k - 1) =~= a.take(k).drop_first());
        assert(b.drop_first().take(k - 1) =~= b.take(k).drop_first());
        assert(a.drop_first()[k - 1] == a[k] && b.drop_first()[k - 1] == b[k]);
        lemma_lex_first_difference(a.drop_first(), b.drop_first(), k - 1);
    }
}

} // verus!
