//! Character-sequence primitives shared by the proxy and the server.

use vstd::prelude::*;
use vstd::std_specs::iter::IteratorSpec;

verus! {

broadcast use vstd::string::group_string_axioms;

/// `String::push`: the claim is that the string afterwards is the old one with `c`
/// added at its end.
#[verifier::external_body]
fn push_char(s: &mut String, c: char)
    ensures
        final(s)@ == old(s)@.push(c),
{
    s.push(c);
}

/// The characters of a string, in order.
pub fn chars_of(s: &str) -> (v: Vec<char>)
    ensures
        v@ == s@,
{
    let mut v: Vec<char> = Vec::new();
    for c in it: s.chars()
        invariant
            v@ == it.seq().take(it.index() as int),
            it.seq() == s@,
    {
        v.push(c);
    }
    v
}

/// The string made of the given characters.
pub fn string_of(v: &[char]) -> (s: String)
    ensures
        s@ == v@,
{
    let mut s = String::new();
    for i in 0..v.len()
        invariant
            s@ == v@.take(i as int),
    {
        push_char(&mut s, v[i]);
        assert(v@.take(i + 1) == v@.take(i as int).push(v@[i as int]));
    }
    assert(v@.take(v.len() as int) == v@);
    s
}


/// Whether `c` has the Unicode White_Space property (what `char::is_whitespace` tests).
pub open spec fn is_ws(c: char) -> bool {
    let u = c as u32;
    ||| 0x09 <= u <= 0x0d
    ||| u == 0x20
    ||| u == 0x85
    ||| u == 0xa0
    ||| u == 0x1680
    ||| 0x2000 <= u <= 0x200a
    ||| u == 0x2028
    ||| u == 0x2029
    ||| u == 0x202f
    ||| u == 0x205f
    ||| u == 0x3000
}

/// Decides [`is_ws`].
pub fn is_white_space(c: char) -> (b: bool)
    ensures
        b == is_ws(c),
{
    let u = c as u32;
    (0x09 <= u && u <= 0x0d) || u == 0x20 || u == 0x85 || u == 0xa0 || u == 0x1680 || (0x2000
        <= u && u <= 0x200a) || u == 0x2028 || u == 0x2029 || u == 0x202f || u == 0x205f || u
        == 0x3000
}

/// A copy of `s[from..to]`.
pub fn slice_of(s: &[char], from: usize, to: usize) -> (v: Vec<char>)
    requires
        from <= to <= s@.len(),
    ensures
        v@ == s@.subrange(from as int, to as int),
{
    let mut v: Vec<char> = Vec::new();
    let mut i = from;
    while i < to
        invariant
            from <= i <= to <= s@.len(),
            v@ == s@.subrange(from as int, i as int),
        decreases to - i,
    {
        v.push(s[i]);
        i += 1;
    }
    v
}

/// `p` occurs in `s` at position `i`.
pub open spec fn matches_at(s: Seq<char>, p: Seq<char>, i: int) -> bool {
    0 <= i && i + p.len() <= s.len() && s.subrange(i, i + p.len()) == p
}

/// The first position at or after `i` where `p` occurs in `s`.
pub open spec fn find_from(s: Seq<char>, p: Seq<char>, i: int) -> Option<int>
    decreases s.len() - i,
{
    if i < 0 || i + p.len() > s.len() {
        None
    } else if p.len() == 0 || matches_at(s, p, i) {
        Some(i)
    } else {
        find_from(s, p, i + 1)
    }
}

/// The first position where `p` occurs in `s` (`str::find`).
pub open spec fn find(s: Seq<char>, p: Seq<char>) -> Option<int> {
    find_from(s, p, 0)
}

/// `s` contains `p` (`str::contains`).
pub open spec fn contains(s: Seq<char>, p: Seq<char>) -> bool {
    find(s, p) is Some
}

/// What [`find_from`] returns: the least match at or after `i`, or none.
pub proof fn lemma_find_from(s: Seq<char>, p: Seq<char>, i: int)
    requires
        0 <= i,
    ensures
        match find_from(s, p, i) {
            Some(k) => i <= k && matches_at(s, p, k) && forall|j: int|
                i <= j < k ==> !matches_at(s, p, j),
            None => forall|j: int| i <= j ==> !matches_at(s, p, j),
        },
    decreases s.len() - i,
{
    if i + p.len() > s.len() {
    } else if p.len() == 0 || matches_at(s, p, i) {
        if p.len() == 0 {
            assert(s.subrange(i, i + p.len()) =~= p);
        }
    } else {
        lemma_find_from(s, p, i + 1);
    }
}

/// [`find`] is the least position where `p` occurs.
pub proof fn lemma_find(s: Seq<char>, p: Seq<char>)
    ensures
        match find(s, p) {
            Some(k) => 0 <= k && k + p.len() <= s.len() && matches_at(s, p, k) && forall|j: int|
                0 <= j < k ==> !matches_at(s, p, j),
            None => forall|j: int| !matches_at(s, p, j),
        },
{
    lemma_find_from(s, p, 0);
}

/// A least match is what [`find`] returns.
pub proof fn lemma_find_is(s: Seq<char>, p: Seq<char>, k: int)
    requires
        matches_at(s, p, k),
        forall|j: int| 0 <= j < k ==> !matches_at(s, p, j),
    ensures
        find(s, p) == Some(k),
{
    lemma_find(s, p);
}

/// No match anywhere means [`find`] finds nothing.
pub proof fn lemma_find_none(s: Seq<char>, p: Seq<char>)
    requires
        forall|j: int| 0 <= j ==> !matches_at(s, p, j),
    ensures
        find(s, p) is None,
{
    lemma_find(s, p);
}

/// Whether `p` occurs in `s` at `i`, decided.
fn matches_here(s: &[char], p: &[char], i: usize) -> (b: bool)
    requires
        i + p@.len() <= s@.len(),
    ensures
        b == matches_at(s@, p@, i as int),
{
    let mut k: usize = 0;
    while k < p.len()
        invariant
            i + p.len() <= s.len(),
            k <= p@.len(),
            forall|j: int| 0 <= j < k ==> s@[i + j] == p@[j],
        decreases p.len() - k,
    {
        if s[i + k] != p[k] {
            assert(s@.subrange(i as int, i + p@.len())[k as int] != p@[k as int]);
            return false;
        }
        k += 1;
    }
    assert(s@.subrange(i as int, i + p@.len()) =~= p@);
    true
}

/// The first position where `p` occurs in `s`, if any.
pub fn find_in(s: &[char], p: &[char]) -> (r: Option<usize>)
    ensures
        match r {
            Some(k) => find(s@, p@) == Some(k as int),
            None => find(s@, p@) is None,
        },
{
    proof {
        lemma_find(s@, p@);
    }
    if p.len() > s.len() {
        return None;
    }
    if p.len() == 0 {
        proof {
            assert(s@.subrange(0, 0) =~= p@);
            lemma_find_is(s@, p@, 0);
        }
        return Some(0);
    }
    let last = s.len() - p.len();
    let mut i: usize = 0;
    while i <= last
        invariant
            1 <= p.len() <= s.len(),
            last == s.len() - p.len(),
            i <= last + 1,
            forall|j: int| 0 <= j < i ==> !matches_at(s@, p@, j),
        decreases last + 1 - i,
    {
        if matches_here(s, p, i) {
            proof {
                lemma_find_is(s@, p@, i as int);
            }
            return Some(i);
        }
        i += 1;
    }
    proof {
        lemma_find_none(s@, p@);
    }
    None
}


/// `s` begins with `p`.
pub open spec fn starts_with(s: Seq<char>, p: Seq<char>) -> bool {
    p.len() <= s.len() && s.take(p.len() as int) == p
}

/// `s` ends with `p`.
pub open spec fn ends_with(s: Seq<char>, p: Seq<char>) -> bool {
    p.len() <= s.len() && s.skip(s.len() - p.len()) == p
}

/// Decides [`starts_with`].
pub fn has_prefix(s: &[char], p: &[char]) -> (b: bool)
    ensures
        b == starts_with(s@, p@),
{
    if p.len() > s.len() {
        return false;
    }
    let b = matches_here(s, p, 0);
    assert(s@.subrange(0, p@.len() as int) == s@.take(p@.len() as int));
    b
}

/// Decides [`ends_with`].
pub fn has_suffix(s: &[char], p: &[char]) -> (b: bool)
    ensures
        b == ends_with(s@, p@),
{
    if p.len() > s.len() {
        return false;
    }
    let b = matches_here(s, p, s.len() - p.len());
    assert(s@.subrange(s@.len() - p@.len(), s@.len() as int) == s@.skip(s@.len() - p@.len()));
    b
}

/// Decides [`contains`].
pub fn has_infix(s: &[char], p: &[char]) -> (b: bool)
    ensures
        b == contains(s@, p@),
{
    find_in(s, p).is_some()
}

/// The two sides of the first occurrence of `p` (`str::split_once`).
pub open spec fn split_once(s: Seq<char>, p: Seq<char>) -> Option<(Seq<char>, Seq<char>)> {
    match find(s, p) {
        Some(i) => Some((s.take(i), s.skip(i + p.len()))),
        None => None,
    }
}

/// Computes [`split_once`].
pub fn split_once_at(s: &[char], p: &[char]) -> (r: Option<(Vec<char>, Vec<char>)>)
    ensures
        match r {
            Some((a, b)) => split_once(s@, p@) == Some((a@, b@)),
            None => split_once(s@, p@) is None,
        },
{
    proof {
        lemma_find(s@, p@);
    }
    let len = s.len();
    match find_in(s, p) {
        Some(i) => {
            assert(i + p@.len() <= len);
            let a = slice_of(s, 0, i);
            let b = slice_of(s, i + p.len(), s.len());
            assert(a@ == s@.take(i as int));
            assert(b@ == s@.skip(i + p@.len()));
            Some((a, b))
        },
        None => None,
    }
}

/// The `n`-th piece of `s` split at every occurrence of `p` (`str::split(p).nth(n)`).
pub open spec fn split_piece(s: Seq<char>, p: Seq<char>, n: nat) -> Option<Seq<char>>
    decreases n,
{
    match split_once(s, p) {
        Some((a, b)) => if n == 0 {
            Some(a)
        } else {
            split_piece(b, p, (n - 1) as nat)
        },
        None => if n == 0 {
            Some(s)
        } else {
            None
        },
    }
}

/// Computes [`split_piece`].
pub fn nth_piece(s: &[char], p: &[char], n: usize) -> (r: Option<Vec<char>>)
    ensures
        match r {
            Some(v) => split_piece(s@, p@, n as nat) == Some(v@),
            None => split_piece(s@, p@, n as nat) is None,
        },
    decreases n,
{
    match split_once_at(s, p) {
        Some((a, b)) => if n == 0 {
            Some(a)
        } else {
            nth_piece(&b, p, n - 1)
        },
        None => if n == 0 {
            Some(slice_of(s, 0, s.len()))
        } else {
            None
        },
    }
}

/// `s` without the first occurrence of `p` (`str::replacen(p, "", 1)`).
pub open spec fn remove_first(s: Seq<char>, p: Seq<char>) -> Seq<char> {
    match find(s, p) {
        Some(i) => s.take(i) + s.skip(i + p.len()),
        None => s,
    }
}

/// Computes [`remove_first`].
pub fn without_first(s: &[char], p: &[char]) -> (v: Vec<char>)
    ensures
        v@ == remove_first(s@, p@),
{
    proof {
        lemma_find(s@, p@);
    }
    let len = s.len();
    match find_in(s, p) {
        Some(i) => {
            assert(i + p@.len() <= len);
            let mut a = slice_of(s, 0, i);
            let mut b = slice_of(s, i + p.len(), s.len());
            a.append(&mut b);
            a
        },
        None => slice_of(s, 0, s.len()),
    }
}

/// A line without the carriage return that ends it, if any.
pub open spec fn strip_cr(l: Seq<char>) -> Seq<char> {
    if l.len() > 0 && l.last() == '\r' {
        l.drop_last()
    } else {
        l
    }
}

/// The lines of `s` (`str::lines`): pieces ended by `\n`, each without its `\n` and
/// without one `\r` right before it; a last piece without `\n` is kept as it is.
pub open spec fn lines(s: Seq<char>) -> Seq<Seq<char>>
    decreases s.len(),
{
    if s.len() == 0 {
        Seq::empty()
    } else {
        match find(s, seq!['\n']) {
            Some(i) => {
                proof {
                    lemma_find(s, seq!['\n']);
                }
                seq![strip_cr(s.take(i))] + lines(s.skip(i + 1))
            },
            None => seq![s],
        }
    }
}

/// The `n`-th line of `s`, if it has one (`str::lines().nth(n)`).
pub open spec fn line(s: Seq<char>, n: nat) -> Option<Seq<char>> {
    if n < lines(s).len() {
        Some(lines(s)[n as int])
    } else {
        None
    }
}

/// Computes [`line`].
pub fn line_at(s: &[char], n: usize) -> (r: Option<Vec<char>>)
    ensures
        match r {
            Some(v) => line(s@, n as nat) == Some(v@),
            None => line(s@, n as nat) is None,
        },
{
    let newline = vec!['\n'];
    assert(newline@ == seq!['\n']);
    let mut rest = slice_of(s, 0, s.len());
    assert(rest@ == s@);
    let mut k: usize = 0;
    while k < n
        invariant
            k <= n,
            newline@ == seq!['\n'],
            lines(s@).len() >= k,
            lines(s@).skip(k as int) == lines(rest@),
        decreases n - k,
    {
        if rest.len() == 0 {
            assert(lines(s@).skip(k as int).len() == 0);
            return None;
        }
        proof {
            lemma_find(rest@, seq!['\n']);
        }
        match find_in(&rest, &newline) {
            Some(i) => {
                let ghost old_rest = rest@;
                rest = slice_of(&rest, i + 1, rest.len());
                assert(rest@ == old_rest.skip(i + 1));
                assert(lines(s@).skip(k + 1) =~= lines(old_rest).skip(1));
            },
            None => {
                assert(lines(rest@) == seq![rest@]);
                assert(lines(s@).skip(k as int).len() == 1);
                return None;
            },
        }
        k += 1;
    }
    if rest.len() == 0 {
        assert(lines(s@).skip(k as int).len() == 0);
        return None;
    }
    proof {
        lemma_find(rest@, seq!['\n']);
    }
    assert(lines(rest@).len() > 0);
    assert(lines(s@).len() > n);
    match find_in(&rest, &newline) {
        Some(i) => {
            let mut l = slice_of(&rest, 0, i);
            if l.len() > 0 && l[l.len() - 1] == '\r' {
                l.pop();
            }
            assert(lines(rest@)[0] == lines(s@)[n as int]);
            Some(l)
        },
        None => {
            assert(lines(rest@)[0] == lines(s@)[n as int]);
            Some(rest)
        },
    }
}


/// Length of the run of non-white-space characters that starts `s`.
pub open spec fn token_len(s: Seq<char>) -> nat
    decreases s.len(),
{
    if s.len() == 0 || is_ws(s[0]) {
        0
    } else {
        1 + token_len(s.drop_first())
    }
}

/// Basic facts about [`token_len`].
pub proof fn lemma_token_len(s: Seq<char>)
    ensures
        token_len(s) <= s.len(),
        s.len() > 0 && !is_ws(s[0]) ==> token_len(s) >= 1,
        forall|i: int| 0 <= i < token_len(s) ==> !is_ws(#[trigger] s[i]),
        token_len(s) < s.len() ==> is_ws(s[token_len(s) as int]),
    decreases s.len(),
{
    if s.len() > 0 && !is_ws(s[0]) {
        lemma_token_len(s.drop_first());
        assert forall|i: int| 0 <= i < token_len(s) implies !is_ws(#[trigger] s[i]) by {
            if i > 0 {
                assert(s[i] == s.drop_first()[i - 1]);
            }
        }
    }
}

/// A run of non-white-space characters ended by white space or by the end has
/// [`token_len`] as its length.
pub proof fn lemma_token_len_is(s: Seq<char>, n: nat)
    requires
        n <= s.len(),
        forall|i: int| 0 <= i < n ==> !is_ws(#[trigger] s[i]),
        n == s.len() || is_ws(s[n as int]),
    ensures
        token_len(s) == n,
    decreases n,
{
    if n > 0 {
        assert(!is_ws(s[0]));
        assert forall|i: int| 0 <= i < n - 1 implies !is_ws(#[trigger] s.drop_first()[i]) by {
            assert(s.drop_first()[i] == s[i + 1]);
        }
        if n < s.len() {
            assert(s.drop_first()[n - 1] == s[n as int]);
        }
        lemma_token_len_is(s.drop_first(), (n - 1) as nat);
    }
}

/// The white-space separated words of `s` (`str::split_whitespace`).
pub open spec fn words(s: Seq<char>) -> Seq<Seq<char>>
    decreases s.len(),
{
    if s.len() == 0 {
        Seq::empty()
    } else if is_ws(s[0]) {
        words(s.drop_first())
    } else {
        proof {
            lemma_token_len(s);
        }
        seq![s.take(token_len(s) as int)] + words(s.skip(token_len(s) as int))
    }
}

/// The views of a list of character vectors.
pub open spec fn views(v: Seq<Vec<char>>) -> Seq<Seq<char>> {
    v.map_values(|w: Vec<char>| w@)
}

/// Computes [`words`].
pub fn words_of(s: &[char]) -> (out: Vec<Vec<char>>)
    ensures
        views(out@) == words(s@),
{
    let mut out: Vec<Vec<char>> = Vec::new();
    let mut i: usize = 0;
    assert(s@.skip(0) == s@);
    while i < s.len()
        invariant
            i <= s@.len(),
            words(s@) == views(out@) + words(s@.skip(i as int)),
        decreases s.len() - i,
    {
        let ghost rest = s@.skip(i as int);
        if is_white_space(s[i]) {
            assert(rest.drop_first() =~= s@.skip(i + 1));
            i += 1;
        } else {
            let mut j = i;
            while j < s.len() && !is_white_space(s[j])
                invariant
                    i <= j <= s@.len(),
                    forall|k: int| i <= k < j ==> !is_ws(#[trigger] s@[k]),
                decreases s.len() - j,
            {
                j += 1;
            }
            proof {
                assert forall|k: int| 0 <= k < j - i implies !is_ws(#[trigger] rest[k]) by {
                    assert(rest[k] == s@[i + k]);
                }
                if j < s.len() {
                    assert(rest[j - i] == s@[j as int]);
                }
                lemma_token_len_is(rest, (j - i) as nat);
            }
            let w = slice_of(s, i, j);
            let ghost before = out@;
            out.push(w);
            assert(rest.take(j - i) =~= w@);
            assert(rest.skip(j - i) =~= s@.skip(j as int));
            assert(views(out@) =~= views(before) + seq![w@]);
            i = j;
        }
    }
    assert(views(out@) + words(s@.skip(i as int)) =~= views(out@));
    out
}

/// `s` without leading white space.
pub open spec fn trim_start(s: Seq<char>) -> Seq<char>
    decreases s.len(),
{
    if s.len() > 0 && is_ws(s[0]) {
        trim_start(s.drop_first())
    } else {
        s
    }
}

/// `s` without trailing white space.
pub open spec fn trim_end(s: Seq<char>) -> Seq<char>
    decreases s.len(),
{
    if s.len() > 0 && is_ws(s.last()) {
        trim_end(s.drop_last())
    } else {
        s
    }
}

/// `s` without leading and trailing white space (`str::trim`).
pub open spec fn trim(s: Seq<char>) -> Seq<char> {
    trim_end(trim_start(s))
}

/// `s` without the copies of `c` that end it (`str::trim_end_matches(c)`).
pub open spec fn trim_end_char(s: Seq<char>, c: char) -> Seq<char>
    decreases s.len(),
{
    if s.len() > 0 && s.last() == c {
        trim_end_char(s.drop_last(), c)
    } else {
        s
    }
}

/// [`trim_start`] drops exactly the leading run of white space.
pub proof fn lemma_trim_start_is(s: Seq<char>, a: nat)
    requires
        a <= s.len(),
        forall|i: int| 0 <= i < a ==> is_ws(#[trigger] s[i]),
        a == s.len() || !is_ws(s[a as int]),
    ensures
        trim_start(s) == s.skip(a as int),
    decreases a,
{
    if a == 0 {
        assert(s.skip(0) =~= s);
    } else {
        assert(is_ws(s[0]));
        assert forall|i: int| 0 <= i < a - 1 implies is_ws(#[trigger] s.drop_first()[i]) by {
            assert(s.drop_first()[i] == s[i + 1]);
        }
        if a < s.len() {
            assert(s.drop_first()[a - 1] == s[a as int]);
        }
        lemma_trim_start_is(s.drop_first(), (a - 1) as nat);
        assert(s.drop_first().skip(a - 1) =~= s.skip(a as int));
    }
}

/// [`trim_end`] drops exactly the trailing run of white space.
pub proof fn lemma_trim_end_is(s: Seq<char>, b: nat)
    requires
        b <= s.len(),
        forall|i: int| b <= i < s.len() ==> is_ws(#[trigger] s[i]),
        b == 0 || !is_ws(s[b - 1]),
    ensures
        trim_end(s) == s.take(b as int),
    decreases s.len() - b,
{
    if b == s.len() {
        assert(s.take(b as int) =~= s);
    } else {
        assert(is_ws(s.last()));
        assert forall|i: int| b <= i < s.len() - 1 implies is_ws(#[trigger] s.drop_last()[i]) by {
            assert(s.drop_last()[i] == s[i]);
        }
        if b > 0 {
            assert(s.drop_last()[b - 1] == s[b - 1]);
        }
        lemma_trim_end_is(s.drop_last(), b);
        assert(s.drop_last().take(b as int) =~= s.take(b as int));
    }
}

/// [`trim_end_char`] drops exactly the trailing run of `c`.
pub proof fn lemma_trim_end_char_is(s: Seq<char>, c: char, b: nat)
    requires
        b <= s.len(),
        forall|i: int| b <= i < s.len() ==> #[trigger] s[i] == c,
        b == 0 || s[b - 1] != c,
    ensures
        trim_end_char(s, c) == s.take(b as int),
    decreases s.len() - b,
{
    if b == s.len() {
        assert(s.take(b as int) =~= s);
    } else {
        assert(s.last() == c);
        assert forall|i: int| b <= i < s.len() - 1 implies #[trigger] s.drop_last()[i] == c by {
            assert(s.drop_last()[i] == s[i]);
        }
        if b > 0 {
            assert(s.drop_last()[b - 1] == s[b - 1]);
        }
        lemma_trim_end_char_is(s.drop_last(), c, b);
        assert(s.drop_last().take(b as int) =~= s.take(b as int));
    }
}

/// Computes [`trim`].
pub fn trimmed(s: &[char]) -> (v: Vec<char>)
    ensures
        v@ == trim(s@),
{
    let mut a: usize = 0;
    while a < s.len() && is_white_space(s[a])
        invariant
            a <= s@.len(),
            forall|i: int| 0 <= i < a ==> is_ws(#[trigger] s@[i]),
        decreases s.len() - a,
    {
        a += 1;
    }
    let mut b: usize = s.len();
    while b > a && is_white_space(s[b - 1])
        invariant
            a <= b <= s@.len(),
            forall|i: int| b <= i < s@.len() ==> is_ws(#[trigger] s@[i]),
        decreases b,
    {
        b -= 1;
    }
    proof {
        lemma_trim_start_is(s@, a as nat);
        let t = s@.skip(a as int);
        assert forall|i: int| b - a <= i < t.len() implies is_ws(#[trigger] t[i]) by {
            assert(t[i] == s@[a + i]);
        }
        if b > a {
            assert(t[b - a - 1] == s@[b - 1]);
        }
        lemma_trim_end_is(t, (b - a) as nat);
        assert(t.take(b - a) =~= s@.subrange(a as int, b as int));
    }
    slice_of(s, a, b)
}

/// Computes [`trim_end_char`].
pub fn trimmed_end_char(s: &[char], c: char) -> (v: Vec<char>)
    ensures
        v@ == trim_end_char(s@, c),
{
    let mut b: usize = s.len();
    while b > 0 && s[b - 1] == c
        invariant
            b <= s@.len(),
            forall|i: int| b <= i < s@.len() ==> #[trigger] s@[i] == c,
        decreases b,
    {
        b -= 1;
    }
    proof {
        lemma_trim_end_char_is(s@, c, b as nat);
    }
    slice_of(s, 0, b)
}


/// Appends the characters of `r` to `out`.
pub fn extend(out: &mut Vec<char>, r: &[char])
    ensures
        final(out)@ == old(out)@ + r@,
{
    let ghost start = out@;
    for i in 0..r.len()
        invariant
            out@ == start + r@.take(i as int),
    {
        out.push(r[i]);
        assert(r@.take(i + 1) == r@.take(i as int).push(r@[i as int]));
    }
    assert(r@.take(r@.len() as int) == r@);
}

/// `s` with every occurrence of `p` replaced by `r`, scanning from the left
/// (`str::replace`; an empty `p` matches before every character and at the end).
pub open spec fn replace_all(s: Seq<char>, p: Seq<char>, r: Seq<char>) -> Seq<char>
    decreases s.len(),
{
    if p.len() == 0 {
        if s.len() == 0 {
            r
        } else {
            r + seq![s[0]] + replace_all(s.drop_first(), p, r)
        }
    } else if s.len() < p.len() {
        s
    } else if s.take(p.len() as int) == p {
        r + replace_all(s.skip(p.len() as int), p, r)
    } else {
        seq![s[0]] + replace_all(s.drop_first(), p, r)
    }
}

/// Computes [`replace_all`].
pub fn replace_all_in(s: &[char], p: &[char], r: &[char]) -> (v: Vec<char>)
    ensures
        v@ == replace_all(s@, p@, r@),
{
    let mut out: Vec<char> = Vec::new();
    let mut i: usize = 0;
    assert(s@.skip(0) == s@);
    if p.len() == 0 {
        while i < s.len()
            invariant
                p@.len() == 0,
                i <= s@.len(),
                out@ + replace_all(s@.skip(i as int), p@, r@) == replace_all(s@, p@, r@),
            decreases s.len() - i,
        {
            let ghost rest = s@.skip(i as int);
            let ghost before = out@;
            extend(&mut out, r);
            out.push(s[i]);
            assert(rest.drop_first() =~= s@.skip(i + 1));
            assert(out@ + replace_all(s@.skip(i + 1), p@, r@) =~= before + replace_all(
                rest,
                p@,
                r@,
            ));
            i += 1;
        }
        let ghost before = out@;
        extend(&mut out, r);
        assert(s@.skip(i as int) =~= Seq::<char>::empty());
    } else {
        while i < s.len()
            invariant
                p@.len() > 0,
                i <= s@.len(),
                out@ + replace_all(s@.skip(i as int), p@, r@) == replace_all(s@, p@, r@),
            decreases s.len() - i,
        {
            let ghost rest = s@.skip(i as int);
            let ghost before = out@;
            if s.len() - i < p.len() {
                let tail = slice_of(s, i, s.len());
                extend(&mut out, &tail);
                assert(s@.skip(s@.len() as int) =~= Seq::<char>::empty());
                assert(tail@ =~= rest);
                i = s.len();
            } else if matches_here(s, p, i) {
                extend(&mut out, r);
                assert(rest.take(p@.len() as int) =~= s@.subrange(i as int, i + p@.len()));
                assert(rest.skip(p@.len() as int) =~= s@.skip(i + p@.len()));
                assert(out@ + replace_all(s@.skip(i + p@.len()), p@, r@) =~= before
                    + replace_all(rest, p@, r@));
                i += p.len();
            } else {
                out.push(s[i]);
                assert(rest.take(p@.len() as int) =~= s@.subrange(i as int, i + p@.len()));
                assert(rest.drop_first() =~= s@.skip(i + 1));
                assert(out@ + replace_all(s@.skip(i + 1), p@, r@) =~= before + replace_all(
                    rest,
                    p@,
                    r@,
                ));
                i += 1;
            }
        }
        assert(s@.skip(i as int) =~= Seq::<char>::empty());
        assert(out@ + Seq::<char>::empty() =~= out@);
    }
    out
}

/// `s` without any copy of `c` (`str::replace(c, "")`).
pub open spec fn remove_char(s: Seq<char>, c: char) -> Seq<char>
    decreases s.len(),
{
    if s.len() == 0 {
        s
    } else if s[0] == c {
        remove_char(s.drop_first(), c)
    } else {
        seq![s[0]] + remove_char(s.drop_first(), c)
    }
}

/// Computes [`remove_char`].
pub fn without_char(s: &[char], c: char) -> (v: Vec<char>)
    ensures
        v@ == remove_char(s@, c),
{
    let mut out: Vec<char> = Vec::new();
    let mut i: usize = 0;
    assert(s@.skip(0) == s@);
    while i < s.len()
        invariant
            i <= s@.len(),
            out@ + remove_char(s@.skip(i as int), c) == remove_char(s@, c),
        decreases s.len() - i,
    {
        let ghost rest = s@.skip(i as int);
        let ghost before = out@;
        if s[i] != c {
            out.push(s[i]);
        }
        assert(rest.drop_first() =~= s@.skip(i + 1));
        assert(out@ + remove_char(s@.skip(i + 1), c) =~= before + remove_char(rest, c));
        i += 1;
    }
    assert(s@.skip(i as int) =~= Seq::<char>::empty());
    assert(out@ + Seq::<char>::empty() =~= out@);
    out
}

/// The decimal digit for `d < 10`.
pub open spec fn digit(d: nat) -> char {
    seq!['0', '1', '2', '3', '4', '5', '6', '7', '8', '9'][d as int]
}

/// The decimal numeral of `n`, without sign or leading zeros.
pub open spec fn decimal(n: nat) -> Seq<char>
    decreases n,
{
    if n < 10 {
        seq![digit(n)]
    } else {
        decimal(n / 10).push(digit(n % 10))
    }
}

/// Appends the decimal numeral of `n` to `out`.
pub fn push_decimal(out: &mut Vec<char>, n: usize)
    ensures
        final(out)@ == old(out)@ + decimal(n as nat),
    decreases n,
{
    let digits = vec!['0', '1', '2', '3', '4', '5', '6', '7', '8', '9'];
    assert(digits@ == seq!['0', '1', '2', '3', '4', '5', '6', '7', '8', '9']);
    if n < 10 {
        out.push(digits[n]);
        assert(decimal(n as nat) == seq![digit(n as nat)]);
    } else {
        let ghost start = out@;
        push_decimal(out, n / 10);
        out.push(digits[n % 10]);
        assert(decimal(n as nat) == decimal((n / 10) as nat).push(digit((n % 10) as nat)));
        assert(out@ =~= start + decimal(n as nat));
    }
}

/// Number of bytes in the UTF-8 encoding of `s`, as the `usize` that `str::len`
/// reports for a string held in memory.
pub open spec fn utf8_len(s: Seq<char>) -> usize {
    vstd::utf8::encode_utf8(s).len() as usize
}

/// Computes [`utf8_len`] of a string (`str::len`).
pub fn byte_len(s: &str) -> (n: usize)
    ensures
        n == utf8_len(s@),
{
    s.len()
}


/// Whether a string holds exactly the characters of `b`.
pub fn same_text(a: &String, b: &str) -> (r: bool)
    ensures
        r == (a@ == b@),
{
    let o = b.to_owned();
    a.eq(&o)
}


/// No character of `s` is white space.
pub open spec fn no_ws(s: Seq<char>) -> bool {
    forall|i: int| 0 <= i < s.len() ==> !is_ws(#[trigger] s[i])
}

/// `s` holds no line break.
pub open spec fn no_newline(s: Seq<char>) -> bool {
    forall|i: int| 0 <= i < s.len() ==> #[trigger] s[i] != '\n'
}

/// A match of `p` at `j` starts with `p[0]`; where that character is absent from the
/// first `k` positions, no match starts there.
pub proof fn lemma_no_match_before(s: Seq<char>, p: Seq<char>, k: int)
    requires
        p.len() > 0,
        forall|j: int| 0 <= j < k && j < s.len() ==> #[trigger] s[j] != p[0],
    ensures
        forall|j: int| 0 <= j < k ==> !matches_at(s, p, j),
{
    assert forall|j: int| 0 <= j < k implies !matches_at(s, p, j) by {
        if matches_at(s, p, j) {
            assert(s.subrange(j, j + p.len())[0] == s[j]);
        }
    }
}

/// A match anywhere means [`find`] finds one.
pub proof fn lemma_contains_at(s: Seq<char>, p: Seq<char>, k: int)
    requires
        matches_at(s, p, k),
    ensures
        contains(s, p),
{
    lemma_find(s, p);
}

/// A line without `\n` followed by `\n` is the first line, without its final `\r`.
pub proof fn lemma_lines_cons(a: Seq<char>, rest: Seq<char>)
    requires
        no_newline(a),
    ensures
        lines(a + seq!['\n'] + rest) == seq![strip_cr(a)] + lines(rest),
{
    let s = a + seq!['\n'] + rest;
    let nl = seq!['\n'];
    assert forall|j: int| 0 <= j < a.len() && j < s.len() implies #[trigger] s[j] != nl[0] by {
        assert(s[j] == a[j]);
    }
    lemma_no_match_before(s, nl, a.len() as int);
    assert(s.subrange(a.len() as int, a.len() + 1int) =~= nl);
    lemma_find_is(s, nl, a.len() as int);
    assert(s.take(a.len() as int) =~= a);
    assert(s.skip(a.len() + 1int) =~= rest);
}

/// A non-empty text without `\n` is one line.
pub proof fn lemma_lines_single(a: Seq<char>)
    requires
        a.len() > 0,
        no_newline(a),
    ensures
        lines(a) == seq![a],
{
    let nl = seq!['\n'];
    lemma_no_match_before(a, nl, a.len() as int);
    lemma_find(a, nl);
}

/// A word followed by white space is the first word.
pub proof fn lemma_words_cons(t: Seq<char>, c: char, rest: Seq<char>)
    requires
        t.len() > 0,
        no_ws(t),
        is_ws(c),
    ensures
        words(t + seq![c] + rest) == seq![t] + words(rest),
{
    let s = t + seq![c] + rest;
    assert forall|i: int| 0 <= i < t.len() implies !is_ws(#[trigger] s[i]) by {
        assert(s[i] == t[i]);
    }
    assert(s[t.len() as int] == c);
    lemma_token_len_is(s, t.len());
    assert(s.take(t.len() as int) =~= t);
    let after = s.skip(t.len() as int);
    assert(after[0] == c);
    assert(after.drop_first() =~= rest);
    assert(!is_ws(s[0]));
    assert(words(s) == seq![s.take(t.len() as int)] + words(after));
    assert(words(after) == words(after.drop_first()));
}

/// A non-empty text without white space is one word.
pub proof fn lemma_words_single(t: Seq<char>)
    requires
        t.len() > 0,
        no_ws(t),
    ensures
        words(t) == seq![t],
{
    lemma_token_len_is(t, t.len());
    assert(t.take(t.len() as int) =~= t);
    assert(t.skip(t.len() as int) =~= Seq::<char>::empty());
    assert(!is_ws(t[0]));
    assert(words(t) == seq![t] + words(Seq::<char>::empty()));
    assert(seq![t] + Seq::<Seq<char>>::empty() =~= seq![t]);
}

/// Every word is non-empty and holds no white space.
pub proof fn lemma_words_are_tokens(s: Seq<char>)
    ensures
        forall|i: int|
            0 <= i < words(s).len() ==> #[trigger] words(s)[i].len() > 0 && no_ws(words(s)[i]),
    decreases s.len(),
{
    if s.len() > 0 {
        if is_ws(s[0]) {
            lemma_words_are_tokens(s.drop_first());
            assert(words(s) == words(s.drop_first()));
        } else {
            lemma_token_len(s);
            let n = token_len(s);
            lemma_words_are_tokens(s.skip(n as int));
            let w = s.take(n as int);
            assert(words(s) == seq![w] + words(s.skip(n as int)));
            assert forall|i: int| 0 <= i < words(s).len() implies #[trigger] words(s)[i].len() > 0
                && no_ws(words(s)[i]) by {
                if i == 0 {
                    assert(words(s)[0] == w);
                    assert forall|k: int| 0 <= k < w.len() implies !is_ws(#[trigger] w[k]) by {
                        assert(w[k] == s[k]);
                    }
                } else {
                    assert(words(s)[i] == words(s.skip(n as int))[i - 1]);
                }
            }
        }
    }
}

/// Text without white space has no line break.
pub proof fn lemma_no_ws_no_newline(s: Seq<char>)
    requires
        no_ws(s),
    ensures
        no_newline(s),
{
    assert forall|i: int| 0 <= i < s.len() implies #[trigger] s[i] != '\n' by {
        assert(!is_ws(s[i]));
    }
}


/// Decimal numerals are made of the digits `0`-`9` only.
pub proof fn lemma_decimal_digits(n: nat)
    ensures
        decimal(n).len() > 0,
        forall|i: int| 0 <= i < decimal(n).len() ==> '0' <= #[trigger] decimal(n)[i] <= '9',
    decreases n,
{
    if n >= 10 {
        lemma_decimal_digits(n / 10);
        assert forall|i: int| 0 <= i < decimal(n).len() implies '0' <= #[trigger] decimal(n)[i]
            <= '9' by {
            if i < decimal(n / 10).len() {
                assert(decimal(n)[i] == decimal(n / 10)[i]);
            }
        }
    }
}

/// Where no `\n` before position `q` is followed by `\r` and no `\n` stands at `q`,
/// no blank line (`\r\n\r\n`) starts before `q`.
pub proof fn lemma_no_blank_line_before(s: Seq<char>, q: int)
    requires
        0 <= q < s.len(),
        s[q] != '\n',
        forall|i: int| 0 <= i < q && #[trigger] s[i] == '\n' ==> s[i + 1] != '\r',
    ensures
        forall|j: int| 0 <= j < q ==> !matches_at(s, "\r\n\r\n"@, j),
{
    reveal_strlit("\r\n\r\n");
    assert forall|j: int| 0 <= j < q implies !matches_at(s, "\r\n\r\n"@, j) by {
        if matches_at(s, "\r\n\r\n"@, j) {
            let m = s.subrange(j, j + 4);
            assert(m[1] == s[j + 1] && m[2] == s[j + 2]);
            assert(s[j + 1] == '\n' && s[j + 2] == '\r');
        }
    }
}


/// Different numbers have different numerals.
pub proof fn lemma_decimal_injective(n: nat, m: nat)
    requires
        decimal(n) == decimal(m),
    ensures
        n == m,
    decreases n,
{
    let digits = seq!['0', '1', '2', '3', '4', '5', '6', '7', '8', '9'];
    lemma_decimal_digits(n / 10);
    lemma_decimal_digits(m / 10);
    if n < 10 && m < 10 {
        assert(decimal(n)[0] == digits[n as int]);
        assert(decimal(m)[0] == digits[m as int]);
    } else if n >= 10 && m >= 10 {
        let dn = decimal(n);
        assert(dn.drop_last() =~= decimal(n / 10));
        assert(decimal(m).drop_last() =~= decimal(m / 10));
        assert(dn.last() == digits[(n % 10) as int]);
        assert(decimal(m).last() == digits[(m % 10) as int]);
        lemma_decimal_injective(n / 10, m / 10);
    } else if n < 10 {
        assert(decimal(m) == decimal(m / 10).push(digit(m % 10)));
        assert(decimal(n).len() != decimal(m).len());
    } else {
        assert(decimal(n) == decimal(n / 10).push(digit(n % 10)));
        assert(decimal(n).len() != decimal(m).len());
    }
}


/// No `\n` before position `q` is followed by `\r`.
pub open spec fn no_cr_after_newline(s: Seq<char>, q: int) -> bool {
    forall|i: int| 0 <= i < q && #[trigger] s[i] == '\n' ==> s[i + 1] != '\r'
}

/// A line without `\n`, a `\n`, then text that does not start with `\r`: the property
/// [`no_cr_after_newline`] carries over from the text to the whole.
pub proof fn lemma_no_cr_after_newline_cons(a: Seq<char>, rest: Seq<char>, q: int)
    requires
        no_newline(a),
        rest.len() > 0,
        rest[0] != '\r',
        0 <= q < rest.len(),
        no_cr_after_newline(rest, q),
    ensures
        no_cr_after_newline(a + seq!['\n'] + rest, a.len() + 1 + q),
{
    let s = a + seq!['\n'] + rest;
    assert forall|i: int| 0 <= i < a.len() + 1 + q && #[trigger] s[i] == '\n' implies s[i + 1]
        != '\r' by {
        if i < a.len() {
            assert(s[i] == a[i]);
        } else if i == a.len() {
            assert(s[i + 1] == rest[0]);
        } else {
            assert(s[i] == rest[i - a.len() - 1]);
            assert(s[i + 1] == rest[i - a.len()]);
        }
    }
}

/// The lines of a text hold no `\n`.
pub proof fn lemma_lines_no_newline(s: Seq<char>)
    ensures
        forall|k: int| 0 <= k < lines(s).len() ==> no_newline(#[trigger] lines(s)[k]),
    decreases s.len(),
{
    if s.len() > 0 {
        let nl = seq!['\n'];
        lemma_find(s, nl);
        if find(s, nl) is Some {
            let i = find(s, nl)->0;
            assert(lines(s) == seq![strip_cr(s.take(i))] + lines(s.skip(i + 1)));
            lemma_lines_no_newline(s.skip(i + 1));
            let l = strip_cr(s.take(i));
            assert forall|j: int| 0 <= j < l.len() implies #[trigger] l[j] != '\n' by {
                assert(l[j] == s[j]);
                assert(!matches_at(s, nl, j));
                if s[j] == '\n' {
                    assert(s.subrange(j, j + 1) =~= nl);
                }
            }
            assert forall|k: int| 0 <= k < lines(s).len() implies no_newline(
                #[trigger] lines(s)[k],
            ) by {
                if k > 0 {
                    assert(lines(s)[k] == lines(s.skip(i + 1))[k - 1]);
                }
            }
        } else {
            assert(lines(s) == seq![s]);
            assert forall|j: int| 0 <= j < s.len() implies #[trigger] s[j] != '\n' by {
                assert(!matches_at(s, nl, j));
                if s[j] == '\n' {
                    assert(s.subrange(j, j + 1) =~= nl);
                }
            }
            assert forall|k: int| 0 <= k < lines(s).len() implies no_newline(
                #[trigger] lines(s)[k],
            ) by {
                assert(lines(s)[k] == s);
            }
        }
    }
}

/// Both sides of a split of a text without `\n` hold no `\n`.
pub proof fn lemma_split_once_no_newline(s: Seq<char>, p: Seq<char>)
    requires
        no_newline(s),
        split_once(s, p) is Some,
    ensures
        no_newline((split_once(s, p)->0).0),
        no_newline((split_once(s, p)->0).1),
{
    lemma_find(s, p);
    let i = find(s, p)->0;
    let a = s.take(i);
    let b = s.skip(i + p.len());
    assert forall|j: int| 0 <= j < a.len() implies #[trigger] a[j] != '\n' by {
        assert(a[j] == s[j]);
    }
    assert forall|j: int| 0 <= j < b.len() implies #[trigger] b[j] != '\n' by {
        assert(b[j] == s[i + p.len() + j]);
    }
}

/// The pieces of a text without `\n` hold no `\n`.
pub proof fn lemma_split_piece_no_newline(s: Seq<char>, p: Seq<char>, n: nat)
    requires
        no_newline(s),
        split_piece(s, p, n) is Some,
    ensures
        no_newline(split_piece(s, p, n)->0),
    decreases n,
{
    if split_once(s, p) is Some {
        lemma_split_once_no_newline(s, p);
        if n > 0 {
            lemma_split_piece_no_newline((split_once(s, p)->0).1, p, (n - 1) as nat);
        }
    }
}

/// Removing a character keeps a text free of `\n`.
pub proof fn lemma_remove_char_no_newline(s: Seq<char>, c: char)
    requires
        no_newline(s),
    ensures
        no_newline(remove_char(s, c)),
    decreases s.len(),
{
    if s.len() > 0 {
        assert forall|j: int| 0 <= j < s.drop_first().len() implies #[trigger] s.drop_first()[j]
            != '\n' by {
            assert(s.drop_first()[j] == s[j + 1]);
        }
        lemma_remove_char_no_newline(s.drop_first(), c);
        let r = remove_char(s.drop_first(), c);
        if s[0] != c {
            assert forall|j: int| 0 <= j < r.len() + 1 implies #[trigger] (seq![s[0]] + r)[j]
                != '\n' by {
                if j > 0 {
                    assert((seq![s[0]] + r)[j] == r[j - 1]);
                }
            }
        }
    }
}


/// Every `\n` of `x` is followed, inside `x`, by a character other than `\r`: `x`
/// holds no blank line and does not end a line.
pub open spec fn crlf_clean(x: Seq<char>) -> bool {
    forall|k: int| 0 <= k < x.len() && #[trigger] x[k] == '\n' ==> k + 1 < x.len() && x[k + 1] != '\r'
}

/// [`crlf_clean`] texts put together stay clean.
pub proof fn lemma_crlf_clean_concat(a: Seq<char>, b: Seq<char>)
    requires
        crlf_clean(a),
        crlf_clean(b),
    ensures
        crlf_clean(a + b),
{
    let s = a + b;
    assert forall|k: int| 0 <= k < s.len() && #[trigger] s[k] == '\n' implies k + 1 < s.len()
        && s[k + 1] != '\r' by {
        if k < a.len() {
            assert(s[k] == a[k]);
            assert(s[k + 1] == a[k + 1]);
        } else {
            assert(s[k] == b[k - a.len()]);
            assert(s[k + 1] == b[k + 1 - a.len()]);
        }
    }
}

/// Decimal numerals are [`crlf_clean`].
pub proof fn lemma_decimal_clean(n: nat)
    ensures
        crlf_clean(decimal(n)),
{
    lemma_decimal_digits(n);
}

/// A [`crlf_clean`] head followed by a blank line: the first blank line is the one after
/// the head, so splitting there gives back the head and what follows.
pub proof fn lemma_split_at_first_blank(head: Seq<char>, rest: Seq<char>)
    requires
        crlf_clean(head),
    ensures
        split_once(head + "\r\n\r\n"@ + rest, "\r\n\r\n"@) == Some((head, rest)),
{
    reveal_strlit("\r\n\r\n");
    let blank = "\r\n\r\n"@;
    let s = head + blank + rest;
    let q = head.len() as int;
    assert forall|i: int| 0 <= i < q && #[trigger] s[i] == '\n' implies s[i + 1] != '\r' by {
        assert(s[i] == head[i]);
        assert(s[i + 1] == head[i + 1]);
    }
    assert(s[q] == '\r');
    lemma_no_blank_line_before(s, q);
    assert(s.subrange(q, q + 4) =~= blank);
    lemma_find_is(s, blank, q);
    assert(s.take(q) =~= head);
    assert(s.skip(q + 4) =~= rest);
}

/// A response `pre + n + mid + blank line + c`, where `pre` ends with the
/// `Content-Length` key and `n` is the byte count of `c`: the text after the first blank
/// line is exactly `c`, and the head states that byte count as its `Content-Length`.
pub proof fn lemma_length_framed(pre: Seq<char>, mid: Seq<char>, c: Seq<char>)
    requires
        crlf_clean(pre),
        crlf_clean(mid),
        ends_with(pre, "\r\nContent-Length: "@),
        mid.len() == 0 || starts_with(mid, "\r\n"@),
    ensures
        ({
            let d = decimal(utf8_len(c) as nat);
            let r = pre + d + mid + "\r\n\r\n"@ + c;
            &&& split_once(r, "\r\n\r\n"@) == Some((pre + d + mid, c))
            &&& contains(pre + d + mid + "\r\n"@, "\r\nContent-Length: "@ + d + "\r\n"@)
        }),
{
    reveal_strlit("\r\n");
    reveal_strlit("\r\nContent-Length: ");
    let d = decimal(utf8_len(c) as nat);
    lemma_decimal_clean(utf8_len(c) as nat);
    lemma_crlf_clean_concat(pre, d);
    lemma_crlf_clean_concat(pre + d, mid);
    lemma_split_at_first_blank(pre + d + mid, c);
    let key = "\r\nContent-Length: "@;
    let h = pre + d + mid + "\r\n"@;
    let want = key + d + "\r\n"@;
    let at = pre.len() - key.len();
    assert(h.subrange(at, at + want.len()) =~= want) by {
        assert forall|k: int| 0 <= k < want.len() implies #[trigger] h[at + k] == want[k] by {
            if k < key.len() {
                assert(pre.skip(at)[k] == key[k]);
                assert(h[at + k] == pre[at + k]);
            } else if k < key.len() + d.len() {
                assert(h[at + k] == d[k - key.len()]);
            } else if mid.len() == 0 {
                assert(h[at + k] == "\r\n"@[k - key.len() - d.len()]);
            } else {
                assert(mid.take(2)[k - key.len() - d.len()] == "\r\n"@[k - key.len() - d.len()]);
                assert(h[at + k] == mid[k - key.len() - d.len()]);
            }
        }
    }
    lemma_contains_at(h, want, at);
}


/// The HTTP message `r` carries `c` as its body: the text after its first blank line is
/// exactly `c`, and its head holds a `Content-Length` line with the UTF-8 byte count of
/// `c`.
pub open spec fn frames_content(r: Seq<char>, c: Seq<char>) -> bool {
    &&& split_once(r, "\r\n\r\n"@) is Some
    &&& (split_once(r, "\r\n\r\n"@)->0).1 == c
    &&& contains(
        (split_once(r, "\r\n\r\n"@)->0).0 + "\r\n"@,
        "\r\nContent-Length: "@ + decimal(utf8_len(c) as nat) + "\r\n"@,
    )
}

/// Text without `\n` is [`crlf_clean`].
pub proof fn lemma_no_newline_clean(x: Seq<char>)
    requires
        no_newline(x),
    ensures
        crlf_clean(x),
{
}


/// The first match of a one-character pattern comes right after a prefix that lacks
/// that character.
pub proof fn lemma_find_char_after(a: Seq<char>, c: char, b: Seq<char>)
    requires
        forall|i: int| 0 <= i < a.len() ==> #[trigger] a[i] != c,
    ensures
        find(a + seq![c] + b, seq![c]) == Some(a.len() as int),
        split_once(a + seq![c] + b, seq![c]) == Some((a, b)),
{
    let s = a + seq![c] + b;
    assert forall|j: int| 0 <= j < a.len() && j < s.len() implies #[trigger] s[j] != seq![c][0] by {
        assert(s[j] == a[j]);
    }
    lemma_no_match_before(s, seq![c], a.len() as int);
    assert(s.subrange(a.len() as int, a.len() + 1int) =~= seq![c]);
    lemma_find_is(s, seq![c], a.len() as int);
    assert(s.take(a.len() as int) =~= a);
    assert(s.skip(a.len() + 1int) =~= b);
}

/// `trim_start` drops a run of white space and stops at the first other character.
pub proof fn lemma_trim_start_shape(s: Seq<char>)
    ensures
        exists|k: int|
            0 <= k <= s.len() && trim_start(s) == s.skip(k) && (forall|i: int|
                0 <= i < k ==> is_ws(#[trigger] s[i])) && (k < s.len() ==> !is_ws(s[k])),
    decreases s.len(),
{
    if s.len() > 0 && is_ws(s[0]) {
        lemma_trim_start_shape(s.drop_first());
        let k = choose|k: int|
            0 <= k <= s.drop_first().len() && trim_start(s.drop_first()) == s.drop_first().skip(k)
                && (forall|i: int| 0 <= i < k ==> is_ws(#[trigger] s.drop_first()[i])) && (k
                < s.drop_first().len() ==> !is_ws(s.drop_first()[k]));
        assert(s.drop_first().skip(k) =~= s.skip(k + 1));
        assert forall|i: int| 0 <= i < k + 1 implies is_ws(#[trigger] s[i]) by {
            if i > 0 {
                assert(s[i] == s.drop_first()[i - 1]);
            }
        }
        if k + 1 < s.len() {
            assert(s[k + 1] == s.drop_first()[k]);
        }
    } else {
        assert(s.skip(0) =~= s);
    }
}

/// `trim_end` drops a run of white space at the end and stops at the last other
/// character.
pub proof fn lemma_trim_end_shape(s: Seq<char>)
    ensures
        exists|k: int|
            0 <= k <= s.len() && trim_end(s) == s.take(k) && (forall|i: int|
                k <= i < s.len() ==> is_ws(#[trigger] s[i])) && (k > 0 ==> !is_ws(s[k - 1])),
    decreases s.len(),
{
    if s.len() > 0 && is_ws(s.last()) {
        lemma_trim_end_shape(s.drop_last());
        let t = s.drop_last();
        let k = choose|k: int|
            0 <= k <= t.len() && trim_end(t) == t.take(k) && (forall|i: int|
                k <= i < t.len() ==> is_ws(#[trigger] t[i])) && (k > 0 ==> !is_ws(t[k - 1]));
        assert(t.take(k) =~= s.take(k));
        assert forall|i: int| k <= i < s.len() implies is_ws(#[trigger] s[i]) by {
            if i < s.len() - 1 {
                assert(s[i] == t[i]);
            }
        }
        if k > 0 {
            assert(s[k - 1] == t[k - 1]);
        }
    } else {
        assert(s.take(s.len() as int) =~= s);
    }
}

/// `trim` keeps a stretch of the text that neither starts nor ends with white space,
/// with only white space before and after it.
pub proof fn lemma_trim_shape(s: Seq<char>)
    ensures
        trim(s).len() == 0 || (!is_ws(trim(s)[0]) && !is_ws(trim(s).last())),
        exists|a: int|
            0 <= a && a + trim(s).len() <= s.len() && #[trigger] s.subrange(a, a + trim(s).len())
                == trim(s)
                && (forall|i: int| 0 <= i < a ==> is_ws(#[trigger] s[i])) && (forall|i: int|
                a + trim(s).len() <= i < s.len() ==> is_ws(#[trigger] s[i])),
{
    lemma_trim_start_shape(s);
    let a = choose|k: int|
        0 <= k <= s.len() && trim_start(s) == s.skip(k) && (forall|i: int|
            0 <= i < k ==> is_ws(#[trigger] s[i])) && (k < s.len() ==> !is_ws(s[k]));
    let u = s.skip(a);
    lemma_trim_end_shape(u);
    let b = choose|k: int|
        0 <= k <= u.len() && trim_end(u) == u.take(k) && (forall|i: int|
            k <= i < u.len() ==> is_ws(#[trigger] u[i])) && (k > 0 ==> !is_ws(u[k - 1]));
    let t = trim(s);
    assert(t == u.take(b));
    if b > 0 {
        assert(t[0] == u[0]);
        assert(u[0] == s[a]);
        assert(t.last() == u[b - 1]);
    }
    assert(s.subrange(a, a + b) =~= t);
    assert forall|i: int| a + b <= i < s.len() implies is_ws(#[trigger] s[i]) by {
        assert(s[i] == u[i - a]);
    }
}

/// `trim_end_char` drops the copies of `c` that end the text and nothing else.
pub proof fn lemma_trim_end_char_shape(s: Seq<char>, c: char)
    ensures
        exists|k: int|
            0 <= k <= s.len() && trim_end_char(s, c) == s.take(k) && (forall|i: int|
                k <= i < s.len() ==> #[trigger] s[i] == c) && (k > 0 ==> s[k - 1] != c),
    decreases s.len(),
{
    if s.len() > 0 && s.last() == c {
        lemma_trim_end_char_shape(s.drop_last(), c);
        let t = s.drop_last();
        let k = choose|k: int|
            0 <= k <= t.len() && trim_end_char(t, c) == t.take(k) && (forall|i: int|
                k <= i < t.len() ==> #[trigger] t[i] == c) && (k > 0 ==> t[k - 1] != c);
        assert(t.take(k) =~= s.take(k));
        assert forall|i: int| k <= i < s.len() implies #[trigger] s[i] == c by {
            if i < s.len() - 1 {
                assert(s[i] == t[i]);
            }
        }
        if k > 0 {
            assert(s[k - 1] == t[k - 1]);
        }
    } else {
        assert(s.take(s.len() as int) =~= s);
    }
}

/// Where the first occurrence of `p` starts right after `a`, the text before it is
/// kept, that occurrence becomes `r`, and the rest is filled the same way.
pub proof fn lemma_replace_first_occurrence(a: Seq<char>, p: Seq<char>, r: Seq<char>, b: Seq<char>)
    requires
        p.len() > 0,
        find(a + p + b, p) == Some(a.len() as int),
    ensures
        replace_all(a + p + b, p, r) == a + r + replace_all(b, p, r),
    decreases a.len(),
{
    let s = a + p + b;
    lemma_find(s, p);
    if a.len() == 0 {
        assert(s =~= p + b);
        assert(s.take(p.len() as int) =~= p);
        assert(s.skip(p.len() as int) =~= b);
        assert(a + r + replace_all(b, p, r) =~= r + replace_all(b, p, r));
    } else {
        assert(!matches_at(s, p, 0));
        assert(s.take(p.len() as int) =~= s.subrange(0, p.len() as int));
        let t = s.drop_first();
        assert(t =~= a.drop_first() + p + b);
        assert forall|j: int| 0 <= j < a.len() - 1 implies !matches_at(t, p, j) by {
            if matches_at(t, p, j) {
                assert(t.subrange(j, j + p.len()) =~= s.subrange(j + 1, j + 1 + p.len()));
                assert(matches_at(s, p, j + 1));
            }
        }
        assert(t.subrange(a.len() - 1, a.len() - 1 + p.len()) =~= p);
        lemma_find_is(t, p, a.len() - 1);
        lemma_replace_first_occurrence(a.drop_first(), p, r, b);
        assert(seq![s[0]] + (a.drop_first() + r + replace_all(b, p, r)) =~= a + r + replace_all(
            b,
            p,
            r,
        ));
    }
}


/// The number that a string of decimal digits stands for.
pub open spec fn digits_value(s: Seq<char>) -> int
    decreases s.len(),
{
    if s.len() == 0 {
        0
    } else {
        digits_value(s.drop_last()) * 10 + (s.last() as int - '0' as int)
    }
}

proof fn lemma_digit_value(d: nat)
    requires
        d < 10,
    ensures
        digit(d) as int - '0' as int == d,
{
    let t = seq!['0', '1', '2', '3', '4', '5', '6', '7', '8', '9'];
    assert(t[0] == '0' && t[1] == '1' && t[2] == '2' && t[3] == '3' && t[4] == '4');
    assert(t[5] == '5' && t[6] == '6' && t[7] == '7' && t[8] == '8' && t[9] == '9');
    assert('0' as int == 48 && '1' as int == 49 && '2' as int == 50 && '3' as int == 51);
    assert('4' as int == 52 && '5' as int == 53 && '6' as int == 54 && '7' as int == 55);
    assert('8' as int == 56 && '9' as int == 57);
}

/// The numeral of `n` stands for `n`.
pub proof fn lemma_decimal_value(n: nat)
    ensures
        digits_value(decimal(n)) == n,
    decreases n,
{
    let s = decimal(n);
    assert(digits_value(s) == digits_value(s.drop_last()) * 10 + (s.last() as int - '0' as int));
    if n < 10 {
        lemma_digit_value(n);
        assert(decimal(n).drop_last() =~= Seq::<char>::empty());
        assert(digits_value(Seq::<char>::empty()) == 0);
        assert(decimal(n).last() == digit(n));
    } else {
        lemma_decimal_value(n / 10);
        lemma_digit_value(n % 10);
        assert(decimal(n).drop_last() =~= decimal(n / 10));
        assert(decimal(n).last() == digit(n % 10));
        assert(n == (n / 10) * 10 + n % 10);
    }
}

} // verus!
