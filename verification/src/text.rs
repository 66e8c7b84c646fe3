//! Plain-text helpers of the conversion: whitespace, the keys paragraphs
//! are matched by, and the pieces of Typst source a table or caption is
//! read from.
//!
//! Text is handled as its sequence of characters; where a position is
//! handed out as a byte offset, it is the length in UTF-8 of the characters
//! before it.

use vstd::prelude::*;

use crate::ancestry::{contains, range_within, SourceRange};
use crate::fmt::{chars_of, chars_start_with, starts_with, string_from_chars, utf8_len, utf8_length};
use vstd::string::StringSliceAdditionalSpecFns;
use vstd::utf8::{decode_utf8, is_char_boundary};

verus! {

/// Whether `c` has the Unicode `White_Space` property, as `char::is_whitespace`.
pub open spec fn is_ws(c: char) -> bool {
    let u = c as u32;
    (0x9 <= u && u <= 0xd) || u == 0x20 || u == 0x85 || u == 0xa0 || u == 0x1680 || (0x2000 <= u
        && u <= 0x200a) || u == 0x2028 || u == 0x2029 || u == 0x202f || u == 0x205f || u == 0x3000
}

/// Whether `c` is whitespace.
pub fn is_whitespace(c: char) -> (r: bool)
    ensures
        r == is_ws(c),
{
    let u = c as u32;
    (0x9 <= u && u <= 0xd) || u == 0x20 || u == 0x85 || u == 0xa0 || u == 0x1680 || (0x2000 <= u
        && u <= 0x200a) || u == 0x2028 || u == 0x2029 || u == 0x202f || u == 0x205f || u == 0x3000
}

/// The whitespace-separated words of `s`, in order.
pub open spec fn words(s: Seq<char>) -> Seq<Seq<char>>
    decreases s.len(),
{
    if s.len() == 0 {
        Seq::empty()
    } else {
        let w = words(s.drop_last());
        let c = s.last();
        if is_ws(c) {
            w
        } else if s.len() > 1 && !is_ws(s[s.len() - 2]) {
            w.update(w.len() - 1, w.last().push(c))
        } else {
            w.push(seq![c])
        }
    }
}

/// The words `ws` joined by `sep`.
pub open spec fn join(ws: Seq<Seq<char>>, sep: Seq<char>) -> Seq<char>
    decreases ws.len(),
{
    if ws.len() == 0 {
        Seq::empty()
    } else if ws.len() == 1 {
        ws[0]
    } else {
        join(ws.drop_last(), sep) + sep + ws.last()
    }
}

proof fn lemma_words_nonempty(s: Seq<char>)
    ensures
        s.len() > 0 && !is_ws(s.last()) ==> words(s).len() > 0,
        forall|j: int| 0 <= j < words(s).len() ==> (#[trigger] words(s)[j]).len() > 0,
    decreases s.len(),
{
    if s.len() > 0 {
        lemma_words_nonempty(s.drop_last());
        let w = words(s.drop_last());
        if s.len() > 1 {
            assert(s.drop_last().last() == s[s.len() - 2]);
        }
    }
}

proof fn lemma_join_empty(w: Seq<Seq<char>>, sep: Seq<char>)
    requires
        forall|j: int| 0 <= j < w.len() ==> (#[trigger] w[j]).len() > 0,
    ensures
        (join(w, sep).len() == 0) == (w.len() == 0),
    decreases w.len(),
{
    if w.len() > 1 {
        assert(w.last() == w[w.len() - 1]);
    } else if w.len() == 1 {
        assert(w[0].len() > 0);
    }
}

/// The words of `s` joined by `sep`: `split_whitespace` then `join`.
pub fn join_words(s: &Vec<char>, sep: &Vec<char>) -> (r: Vec<char>)
    ensures
        r@ == join(words(s@), sep@),
{
    let mut out: Vec<char> = Vec::new();
    let mut i: usize = 0;
    while i < s.len()
        invariant
            0 <= i <= s@.len(),
            out@ == join(words(s@.take(i as int)), sep@),
        decreases s@.len() - i,
    {
        let ghost before = s@.take(i as int);
        let ghost now = s@.take(i + 1);
        assert(now.drop_last() == before);
        assert(now.last() == s@[i as int]);
        let c = s[i];
        proof {
            lemma_words_nonempty(before);
            lemma_join_empty(words(before), sep@);
        }
        if !is_whitespace(c) {
            let ghost w = words(before);
            if i > 0 && !is_whitespace(s[i - 1]) {
                proof {
                    assert(now[now.len() - 2] == s@[i - 1]);
                    assert(before.last() == s@[i - 1]);
                    lemma_words_nonempty(before);
                    let w2 = w.update(w.len() - 1, w.last().push(c));
                    assert(words(now) == w2);
                    if w.len() == 1 {
                        assert(join(w2, sep@) == w2[0]);
                    } else {
                        assert(w2.drop_last() =~= w.drop_last());
                        assert(join(w2, sep@) =~= join(w, sep@).push(c));
                    }
                }
                out.push(c);
            } else {
                proof {
                    if i > 0 {
                        assert(now[now.len() - 2] == s@[i - 1]);
                    }
                    assert(words(now) == w.push(seq![c]));
                    assert(w.push(seq![c]).drop_last() =~= w);
                }
                if out.len() > 0 {
                    let mut k: usize = 0;
                    let ghost o = out@;
                    while k < sep.len()
                        invariant
                            0 <= k <= sep@.len(),
                            out@ == o + sep@.take(k as int),
                        decreases sep@.len() - k,
                    {
                        out.push(sep[k]);
                        k += 1;
                        assert(sep@.take(k as int) == sep@.take(k - 1).push(sep@[k - 1]));
                    }
                    assert(sep@.take(k as int) == sep@);
                }
                proof {
                    if w.len() == 0 {
                        assert(join(w, sep@).len() == 0);
                    }
                }
                out.push(c);
                proof {
                    let w2 = w.push(seq![c]);
                    if w.len() == 0 {
                        assert(out@ =~= seq![c]);
                        assert(join(w2, sep@) == w2[0]);
                    } else {
                        assert(join(w2, sep@) == join(w, sep@) + sep@ + seq![c]);
                        assert(out@ =~= join(w2, sep@));
                    }
                }
            }
        } else {
            assert(words(now) == words(before));
        }
        i += 1;
    }
    assert(s@.take(i as int) == s@);
    out
}

// ---------------------------------------------------------------------------
// Paragraph keys

/// Whether `c` is a quotation mark or a non-breaking space, which a
/// paragraph key leaves out.
pub open spec fn is_quote(c: char) -> bool {
    c == '\u{201c}' || c == '\u{201d}' || c == '\u{2018}' || c == '\u{2019}' || c == '"' || c
        == '\u{ab}' || c == '\u{bb}' || c == '\u{2039}' || c == '\u{203a}' || c == '\u{202f}' || c
        == '\u{a0}'
}

/// Keeps the characters that are not quotation marks.
pub open spec fn not_quote() -> spec_fn(char) -> bool {
    |c: char| !is_quote(c)
}

/// `c` in ASCII lower case.
pub open spec fn ascii_lower(c: char) -> char {
    if 'A' <= c && c <= 'Z' {
        ((c as u8) + 32) as char
    } else {
        c
    }
}

/// The key a paragraph's text is matched by: quotation marks and
/// non-breaking spaces dropped, runs of whitespace made one space, ends
/// trimmed, ASCII letters in lower case.
pub open spec fn paragraph_key(s: Seq<char>) -> Seq<char> {
    join(words(s.filter(not_quote())), seq![' ']).map_values(|c: char| ascii_lower(c))
}

/// The key paragraph text `text` is matched by.
pub fn normalize_paragraph_key(text: &str) -> (r: String)
    ensures
        r@ == paragraph_key(text@),
{
    let cs = chars_of(text);
    let mut kept: Vec<char> = Vec::new();
    let mut i: usize = 0;
    while i < cs.len()
        invariant
            0 <= i <= cs@.len(),
            kept@ == cs@.take(i as int).filter(not_quote()),
        decreases cs@.len() - i,
    {
        let c = cs[i];
        proof {
            assert(cs@.take(i + 1) == cs@.take(i as int).push(c));
            cs@.take(i as int).lemma_filter_push(c, not_quote());
        }
        let q = c == '\u{201c}' || c == '\u{201d}' || c == '\u{2018}' || c == '\u{2019}' || c == '"'
            || c == '\u{ab}' || c == '\u{bb}' || c == '\u{2039}' || c == '\u{203a}' || c == '\u{202f}'
            || c == '\u{a0}';
        if !q {
            kept.push(c);
        }
        i += 1;
    }
    assert(cs@.take(i as int) == cs@);
    let mut sep: Vec<char> = Vec::new();
    sep.push(' ');
    assert(sep@ =~= seq![' ']);
    let joined = join_words(&kept, &sep);
    let mut out: Vec<char> = Vec::new();
    let mut j: usize = 0;
    while j < joined.len()
        invariant
            0 <= j <= joined@.len(),
            out@ == joined@.take(j as int).map_values(|c: char| ascii_lower(c)),
        decreases joined@.len() - j,
    {
        let c = joined[j];
        let l = if 'A' <= c && c <= 'Z' {
            ((c as u8) + 32) as char
        } else {
            c
        };
        out.push(l);
        j += 1;
        assert(joined@.take(j as int).map_values(|c: char| ascii_lower(c)) =~= joined@.take(j - 1).map_values(
            |c: char| ascii_lower(c),
        ).push(l));
    }
    assert(joined@.take(j as int) == joined@);
    string_from_chars(&out)
}

/// Whether `k` has the form of a paragraph key: no whitespace at either
/// end, every whitespace a single space between two other characters, no
/// quotation mark or non-breaking space, and no ASCII capital.
pub open spec fn is_paragraph_key(k: Seq<char>) -> bool {
    &&& k.len() > 0 ==> !is_ws(k[0]) && !is_ws(k[k.len() - 1])
    &&& forall|i: int| 0 <= i < k.len() ==> !is_quote(#[trigger] k[i]) && !('A' <= k[i] && k[i] <= 'Z')
    &&& forall|i: int| 0 <= i < k.len() && is_ws(#[trigger] k[i]) ==> k[i] == ' '
    &&& forall|i: int| 0 <= i < k.len() - 1 ==> !#[trigger] ws_pair(k, i)
}

/// Whether `k` holds whitespace at both `i` and `i + 1`.
pub open spec fn ws_pair(k: Seq<char>, i: int) -> bool {
    is_ws(k[i]) && is_ws(k[i + 1])
}

proof fn lemma_words_chars(s: Seq<char>)
    requires
        forall|i: int| 0 <= i < s.len() ==> !is_quote(#[trigger] s[i]),
    ensures
        forall|j: int| 0 <= j < words(s).len() ==> (#[trigger] words(s)[j]).len() > 0,
        forall|j: int, m: int|
            0 <= j < words(s).len() && 0 <= m < words(s)[j].len() ==> !is_ws(#[trigger] words(s)[j][m])
                && !is_quote(words(s)[j][m]),
    decreases s.len(),
{
    if s.len() > 0 {
        let q = s.drop_last();
        assert forall|i: int| 0 <= i < q.len() implies !is_quote(#[trigger] q[i]) by {
            assert(q[i] == s[i]);
        }
        lemma_words_chars(q);
        lemma_words_nonempty(s);
        lemma_words_nonempty(q);
        let c = s.last();
        assert(c == s[s.len() - 1]);
        assert(!is_quote(c));
        let w = words(q);
        if is_ws(c) {
            assert(words(s) == w);
        } else if s.len() > 1 && !is_ws(s[s.len() - 2]) {
            assert(q[q.len() - 1] == s[s.len() - 2]);
            let w2 = w.update(w.len() - 1, w.last().push(c));
            assert(words(s) == w2);
            assert forall|j: int, m: int|
                0 <= j < w2.len() && 0 <= m < w2[j].len() implies !is_ws(#[trigger] w2[j][m]) && !is_quote(
                    w2[j][m],
                ) by {
                if j == w.len() - 1 {
                    if m < w[j].len() {
                        assert(w2[j][m] == w[j][m]);
                    } else {
                        assert(w2[j][m] == c);
                    }
                } else {
                    assert(w2[j] == w[j]);
                }
            }
        } else {
            let w2 = w.push(seq![c]);
            assert(words(s) == w2);
            assert forall|j: int, m: int|
                0 <= j < w2.len() && 0 <= m < w2[j].len() implies !is_ws(#[trigger] w2[j][m]) && !is_quote(
                    w2[j][m],
                ) by {
                if j < w.len() {
                    assert(w2[j] == w[j]);
                }
            }
        }
    }
}

proof fn lemma_join_form(ws: Seq<Seq<char>>)
    requires
        forall|j: int| 0 <= j < ws.len() ==> (#[trigger] ws[j]).len() > 0,
        forall|j: int, m: int|
            0 <= j < ws.len() && 0 <= m < ws[j].len() ==> !is_ws(#[trigger] ws[j][m]) && !is_quote(ws[j][m]),
    ensures
        ({
            let k = join(ws, seq![' ']);
            &&& k.len() > 0 ==> !is_ws(k[0]) && !is_ws(k[k.len() - 1])
            &&& forall|i: int| 0 <= i < k.len() ==> !is_quote(#[trigger] k[i])
            &&& forall|i: int| 0 <= i < k.len() && is_ws(#[trigger] k[i]) ==> k[i] == ' '
            &&& forall|i: int| 0 <= i < k.len() - 1 ==> !#[trigger] ws_pair(k, i)
        }),
    decreases ws.len(),
{
    let k = join(ws, seq![' ']);
    if ws.len() == 1 {
        assert(k == ws[0]);
        assert forall|i: int| 0 <= i < k.len() - 1 implies !#[trigger] ws_pair(k, i) by {
            assert(!is_ws(ws[0][i]));
        }
    } else if ws.len() > 1 {
        let v = ws.drop_last();
        assert forall|j: int, m: int|
            0 <= j < v.len() && 0 <= m < v[j].len() implies !is_ws(#[trigger] v[j][m]) && !is_quote(v[j][m]) by {
            assert(v[j] == ws[j]);
        }
        assert forall|j: int| 0 <= j < v.len() implies (#[trigger] v[j]).len() > 0 by {
            assert(v[j] == ws[j]);
        }
        lemma_join_form(v);
        lemma_join_empty(v, seq![' ']);
        let a = join(v, seq![' ']);
        let w = ws.last();
        assert(w == ws[ws.len() - 1]);
        assert(k == a + seq![' '] + w);
        let n = a.len();
        assert forall|i: int| 0 <= i < k.len() implies !is_quote(#[trigger] k[i]) by {
            if i < n {
                assert(k[i] == a[i]);
            } else if i > n {
                assert(k[i] == w[i - n - 1]);
            }
        }
        assert forall|i: int| 0 <= i < k.len() && is_ws(#[trigger] k[i]) implies k[i] == ' ' by {
            if i < n {
                assert(k[i] == a[i]);
            } else if i > n {
                assert(k[i] == w[i - n - 1]);
            }
        }
        assert forall|i: int| 0 <= i < k.len() - 1 implies !#[trigger] ws_pair(k, i) by {
            if i < n - 1 {
                assert(k[i] == a[i] && k[i + 1] == a[i + 1]);
                assert(!ws_pair(a, i));
            } else if i == n - 1 {
                assert(k[i] == a[n - 1]);
            } else if i == n {
                assert(k[i + 1] == w[0]);
            } else {
                assert(k[i] == w[i - n - 1]);
            }
        }
        assert(k[0] == a[0]);
        assert(k[k.len() - 1] == w[w.len() - 1]);
    }
}

proof fn lemma_lower_keeps(c: char)
    ensures
        is_ws(ascii_lower(c)) == is_ws(c),
        (ascii_lower(c) == ' ') == (c == ' '),
        !is_quote(c) ==> !is_quote(ascii_lower(c)),
        !('A' <= ascii_lower(c) && ascii_lower(c) <= 'Z'),
        !('A' <= c && c <= 'Z') ==> ascii_lower(c) == c,
{
    if 'A' <= c && c <= 'Z' {
        let u = c as u8;
        assert(65 <= u <= 90);
        assert(97 <= ascii_lower(c) as u32 <= 122);
    }
}

proof fn lemma_filter_keeps_all(k: Seq<char>)
    requires
        forall|i: int| 0 <= i < k.len() ==> !is_quote(#[trigger] k[i]),
    ensures
        k.filter(not_quote()) == k,
    decreases k.len(),
{
    reveal(Seq::filter);
    if k.len() > 0 {
        let q = k.drop_last();
        assert forall|i: int| 0 <= i < q.len() implies !is_quote(#[trigger] q[i]) by {
            assert(q[i] == k[i]);
        }
        lemma_filter_keeps_all(q);
        assert(!is_quote(k[k.len() - 1]));
        assert(not_quote()(k.last()));
        reveal(Seq::filter);
        assert(k.filter(not_quote()) == q.filter(not_quote()).push(k.last()));
        assert(q.push(k.last()) =~= k);
    }
}

/// Whether `p` can begin a paragraph key: no whitespace first, every
/// whitespace a space, and no two whitespace in a row.
pub open spec fn key_prefix(p: Seq<char>) -> bool {
    &&& p.len() > 0 ==> !is_ws(p[0])
    &&& forall|i: int| 0 <= i < p.len() && is_ws(#[trigger] p[i]) ==> p[i] == ' '
    &&& forall|i: int| 0 <= i < p.len() - 1 ==> !#[trigger] ws_pair(p, i)
}

proof fn lemma_join_words_prefix(p: Seq<char>)
    requires
        key_prefix(p),
    ensures
        p.len() > 0 ==> words(p).len() > 0,
        join(words(p), seq![' ']) == (if p.len() > 0 && is_ws(p[p.len() - 1]) {
            p.drop_last()
        } else {
            p
        }),
    decreases p.len(),
{
    if p.len() > 0 {
        let q = p.drop_last();
        let c = p.last();
        assert(c == p[p.len() - 1]);
        assert forall|i: int| 0 <= i < q.len() - 1 implies !#[trigger] ws_pair(q, i) by {
            assert(!ws_pair(p, i));
        }
        assert forall|i: int| 0 <= i < q.len() && is_ws(#[trigger] q[i]) implies q[i] == ' ' by {
            assert(q[i] == p[i]);
        }
        if q.len() > 0 {
            assert(q[0] == p[0]);
        }
        lemma_join_words_prefix(q);
        let w = words(q);
        lemma_words_nonempty(q);
        if is_ws(c) {
            if q.len() > 0 {
                assert(!ws_pair(p, p.len() - 2));
                assert(q[q.len() - 1] == p[p.len() - 2]);
            } else {
                assert(!is_ws(p[0]));
            }
        } else if p.len() > 1 && !is_ws(p[p.len() - 2]) {
            assert(q[q.len() - 1] == p[p.len() - 2]);
            let w2 = w.update(w.len() - 1, w.last().push(c));
            assert(words(p) == w2);
            if w.len() == 1 {
                assert(join(w2, seq![' ']) == w2[0]);
                assert(join(w, seq![' ']) == w[0]);
            } else {
                assert(w2.drop_last() =~= w.drop_last());
            }
            assert(join(w2, seq![' ']) =~= join(w, seq![' ']).push(c));
            assert(q.push(c) =~= p);
        } else {
            let w2 = w.push(seq![c]);
            assert(words(p) == w2);
            if q.len() == 0 {
                assert(join(w2, seq![' ']) == w2[0]);
                assert(p =~= seq![c]);
            } else {
                assert(q[q.len() - 1] == p[p.len() - 2]);
                assert(q[q.len() - 1] == ' ');
                assert(w2.drop_last() =~= w);
                assert(join(w2, seq![' ']) == join(w, seq![' ']) + seq![' '] + seq![c]);
                assert(join(w2, seq![' ']) =~= p);
            }
        }
    }
}

/// A paragraph key has the form of one, and is its own key: normalizing
/// a key again changes nothing.
pub proof fn law_paragraph_key_normal(s: Seq<char>)
    ensures
        is_paragraph_key(paragraph_key(s)),
        paragraph_key(paragraph_key(s)) == paragraph_key(s),
{
    let t = s.filter(not_quote());
    t.filter_lemma(not_quote());
    assert forall|i: int| 0 <= i < t.len() implies !is_quote(#[trigger] t[i]) by {
        assert(not_quote()(t[i]));
    }
    lemma_words_chars(t);
    lemma_join_form(words(t));
    let j = join(words(t), seq![' ']);
    let k = paragraph_key(s);
    assert(k == j.map_values(|c: char| ascii_lower(c)));
    assert forall|i: int| 0 <= i < k.len() implies #[trigger] k[i] == ascii_lower(j[i]) by {}
    assert forall|i: int| 0 <= i < k.len() implies !is_quote(#[trigger] k[i]) && !('A' <= k[i] && k[i] <= 'Z') by {
        lemma_lower_keeps(j[i]);
    }
    assert forall|i: int| 0 <= i < k.len() && is_ws(#[trigger] k[i]) implies k[i] == ' ' by {
        lemma_lower_keeps(j[i]);
    }
    assert forall|i: int| 0 <= i < k.len() - 1 implies !#[trigger] ws_pair(k, i) by {
        lemma_lower_keeps(j[i]);
        lemma_lower_keeps(j[i + 1]);
        assert(k[i + 1] == ascii_lower(j[i + 1]));
        assert(!ws_pair(j, i));
    }
    if k.len() > 0 {
        lemma_lower_keeps(j[0]);
        lemma_lower_keeps(j[j.len() - 1]);
        assert(k[k.len() - 1] == ascii_lower(j[j.len() - 1]));
    }
    assert(is_paragraph_key(k));
    // The key of a key.
    assert forall|i: int| 0 <= i < k.len() implies !is_quote(#[trigger] k[i]) by {}
    lemma_filter_keeps_all(k);
    lemma_join_words_prefix(k);
    let j2 = join(words(k.filter(not_quote())), seq![' ']);
    assert(j2 == k);
    assert forall|i: int| 0 <= i < k.len() implies #[trigger] ascii_lower(k[i]) == k[i] by {
        lemma_lower_keeps(k[i]);
    }
    assert(k.map_values(|c: char| ascii_lower(c)) =~= k);
}

/// Whether paragraph key `key` repeats text carried elsewhere: some skip
/// key starts with it, or, for a key of ten bytes or more, it starts with
/// some skip key. The empty key never does.
pub open spec fn key_skipped(key: Seq<char>, skip: Seq<String>) -> bool {
    key.len() > 0 && exists|i: int|
        0 <= i < skip.len() && (starts_with((#[trigger] skip[i])@, key) || (utf8_len(key) >= 10
            && starts_with(key, skip[i]@)))
}

/// Whether paragraph key `key` repeats text carried elsewhere.
pub fn paragraph_text_is_skipped(key: &str, skip_texts: &Vec<String>) -> (r: bool)
    ensures
        r == key_skipped(key@, skip_texts@),
{
    let k = chars_of(key);
    if k.len() == 0 {
        return false;
    }
    let long = match utf8_length(&k) {
        Some(n) => n >= 10,
        None => true,
    };
    let mut i: usize = 0;
    while i < skip_texts.len()
        invariant
            0 <= i <= skip_texts@.len(),
            k@ == key@,
            k@.len() > 0,
            long == (utf8_len(key@) >= 10),
            forall|j: int|
                0 <= j < i ==> !(starts_with((#[trigger] skip_texts@[j])@, key@) || (utf8_len(key@) >= 10
                    && starts_with(key@, skip_texts@[j]@))),
        decreases skip_texts@.len() - i,
    {
        let s = chars_of(skip_texts[i].as_str());
        if chars_start_with(&s, &k) || (long && chars_start_with(&k, &s)) {
            return true;
        }
        i += 1;
    }
    false
}

/// Whether some string of `v` holds the characters `s`.
pub open spec fn has_text(v: Seq<String>, s: Seq<char>) -> bool {
    exists|i: int| 0 <= i < v.len() && (#[trigger] v[i])@ == s
}

/// Adds the key of `text` to the skip keys, unless it is empty or there.
pub fn push_text_key(skip: &mut Vec<String>, text: &str)
    ensures
        paragraph_key(text@).len() == 0 || has_text(old(skip)@, paragraph_key(text@))
            ==> final(skip)@ == old(skip)@,
        paragraph_key(text@).len() > 0 && !has_text(old(skip)@, paragraph_key(text@))
            ==> final(skip)@ == old(skip)@.push(final(skip)@.last()) && final(skip)@.last()@ == paragraph_key(text@),
{
    let key = normalize_paragraph_key(text);
    if key.as_str().is_empty() {
        return;
    }
    let mut i: usize = 0;
    while i < skip.len()
        invariant
            0 <= i <= skip@.len(),
            skip@ == old(skip)@,
            key@ == paragraph_key(text@),
            forall|j: int| 0 <= j < i ==> (#[trigger] skip@[j])@ != key@,
        decreases skip@.len() - i,
    {
        if skip[i] == key {
            assert(skip@[i as int]@ == key@);
            assert(has_text(old(skip)@, key@));
            assert(key@ == paragraph_key(text@));
            assert(has_text(old(skip)@, paragraph_key(text@)));
            return;
        }
        i += 1;
    }
    skip.push(key);
}

/// The skip keys of `texts`: the texts whose paragraphs repeat them (quote
/// bodies, list and term items, captions), keyed, each key once.
pub fn skip_keys(texts: &Vec<String>) -> (r: Vec<String>)
    ensures
        forall|s: Seq<char>|
            has_text(r@, s) <==> s.len() > 0 && exists|i: int|
                0 <= i < texts@.len() && paragraph_key((#[trigger] texts@[i])@) == s,
{
    let mut skip: Vec<String> = Vec::new();
    let mut i: usize = 0;
    while i < texts.len()
        invariant
            0 <= i <= texts@.len(),
            forall|s: Seq<char>|
                has_text(skip@, s) <==> s.len() > 0 && exists|j: int|
                    0 <= j < i && paragraph_key((#[trigger] texts@[j])@) == s,
        decreases texts@.len() - i,
    {
        let ghost before = skip@;
        push_text_key(&mut skip, texts[i].as_str());
        proof {
            let k = paragraph_key(texts@[i as int]@);
            assert forall|s: Seq<char>| has_text(skip@, s) <==> s.len() > 0 && exists|j: int|
                0 <= j < i + 1 && paragraph_key((#[trigger] texts@[j])@) == s by {
                if has_text(skip@, s) {
                    let w = choose|w: int| 0 <= w < skip@.len() && (#[trigger] skip@[w])@ == s;
                    if w < before.len() {
                        assert(before[w] == skip@[w]);
                        assert(has_text(before, s));
                    }
                }
                if s.len() > 0 && exists|j: int| 0 <= j < i + 1 && paragraph_key((#[trigger] texts@[j])@) == s {
                    let j = choose|j: int| 0 <= j < i + 1 && paragraph_key((#[trigger] texts@[j])@) == s;
                    if j < i {
                        assert(has_text(before, s));
                        let w = choose|w: int| 0 <= w < before.len() && (#[trigger] before[w])@ == s;
                        if skip@.len() > before.len() {
                            assert(skip@[w] == before[w]);
                        }
                    } else {
                        if !has_text(before, k) {
                            assert(skip@[before.len() as int]@ == k);
                        }
                    }
                }
            }
        }
        i += 1;
    }
    skip
}

/// Whether a paragraph repeats content emitted elsewhere: its source range
/// lies within one of `skip_ranges` (quotes, lists, terms, figures), or its
/// key is skipped.
pub fn should_skip_paragraph(
    par_range: Option<SourceRange>,
    text: &str,
    skip_ranges: &Vec<SourceRange>,
    skip_texts: &Vec<String>,
) -> (r: bool)
    ensures
        r == ((par_range matches Some(p) && exists|i: int|
            0 <= i < skip_ranges@.len() && range_within(#[trigger] skip_ranges@[i], p)) || has_text(
            skip_texts@,
            paragraph_key(text@),
        ) || key_skipped(paragraph_key(text@), skip_texts@)),
{
    let ghost in_range = par_range matches Some(p) && exists|i: int|
        0 <= i < skip_ranges@.len() && range_within(#[trigger] skip_ranges@[i], p);
    match par_range {
        Some(p) => {
            let mut i: usize = 0;
            while i < skip_ranges.len()
                invariant
                    0 <= i <= skip_ranges@.len(),
                    par_range == Some(p),
                    forall|j: int| 0 <= j < i ==> !range_within(#[trigger] skip_ranges@[j], p),
                decreases skip_ranges@.len() - i,
            {
                if contains(skip_ranges[i], p) {
                    assert(range_within(skip_ranges@[i as int], p));
                    return true;
                }
                i += 1;
            }
            assert(!in_range);
        },
        None => {},
    }
    assert(!in_range);
    let key = normalize_paragraph_key(text);
    let mut i: usize = 0;
    while i < skip_texts.len()
        invariant
            0 <= i <= skip_texts@.len(),
            key@ == paragraph_key(text@),
            forall|j: int| 0 <= j < i ==> (#[trigger] skip_texts@[j])@ != key@,
        decreases skip_texts@.len() - i,
    {
        if skip_texts[i] == key {
            assert(skip_texts@[i as int]@ == key@);
            assert(has_text(skip_texts@, key@));
            return true;
        }
        i += 1;
    }
    assert(!has_text(skip_texts@, key@));
    let r = paragraph_text_is_skipped(key.as_str(), skip_texts);
    assert(r == key_skipped(key@, skip_texts@));
    r
}

// ---------------------------------------------------------------------------
// Reading Typst source

/// How many characters at the start of `s` satisfy `p`.
pub open spec fn lead(s: Seq<char>, p: spec_fn(char) -> bool) -> nat
    decreases s.len(),
{
    if s.len() == 0 || !p(s[0]) {
        0
    } else {
        1 + lead(s.drop_first(), p)
    }
}

/// How many characters at the end of `s` satisfy `p`.
pub open spec fn trail(s: Seq<char>, p: spec_fn(char) -> bool) -> nat
    decreases s.len(),
{
    if s.len() == 0 || !p(s.last()) {
        0
    } else {
        1 + trail(s.drop_last(), p)
    }
}

/// `s` without the characters satisfying `p` at its start and its end.
pub open spec fn strip_start(s: Seq<char>, p: spec_fn(char) -> bool) -> Seq<char> {
    s.skip(lead(s, p) as int)
}

/// `s` without the characters satisfying `p` at its start and its end.
pub open spec fn strip(s: Seq<char>, p: spec_fn(char) -> bool) -> Seq<char> {
    let t = strip_start(s, p);
    t.take(t.len() - trail(t, p))
}

/// Whitespace.
pub open spec fn ws() -> spec_fn(char) -> bool {
    |c: char| is_ws(c)
}

/// Square brackets.
pub open spec fn bracket() -> spec_fn(char) -> bool {
    |c: char| c == '[' || c == ']'
}

proof fn lemma_lead_le(s: Seq<char>, p: spec_fn(char) -> bool)
    ensures
        lead(s, p) <= s.len(),
    decreases s.len(),
{
    if s.len() > 0 && p(s[0]) {
        lemma_lead_le(s.drop_first(), p);
    }
}

proof fn lemma_trail_le(s: Seq<char>, p: spec_fn(char) -> bool)
    ensures
        trail(s, p) <= s.len(),
    decreases s.len(),
{
    if s.len() > 0 && p(s.last()) {
        lemma_trail_le(s.drop_last(), p);
    }
}

fn strips(c: char, brackets: bool) -> (r: bool)
    ensures
        r == (if brackets { bracket() } else { ws() })(c),
{
    if brackets {
        c == '[' || c == ']'
    } else {
        is_whitespace(c)
    }
}

/// `s` without leading and trailing characters that are whitespace, or,
/// with `brackets`, square brackets.
pub fn strip_chars(s: &Vec<char>, brackets: bool) -> (r: Vec<char>)
    ensures
        r@ == strip(s@, if brackets { bracket() } else { ws() }),
{
    let ghost p = if brackets { bracket() } else { ws() };
    let mut a: usize = 0;
    assert(s@.skip(0) == s@);
    while a < s.len() && strips(s[a], brackets)
        invariant
            0 <= a <= s@.len(),
            p == (if brackets { bracket() } else { ws() }),
            lead(s@, p) == a + lead(s@.skip(a as int), p),
        decreases s@.len() - a,
    {
        assert(s@.skip(a as int)[0] == s@[a as int]);
        assert(s@.skip(a as int).drop_first() == s@.skip(a + 1));
        a += 1;
    }
    proof {
        if a < s@.len() {
            assert(s@.skip(a as int)[0] == s@[a as int]);
        }
    }
    let ghost t = s@.skip(a as int);
    let mut b: usize = s.len();
    assert(t.take(t.len() as int) == t);
    while b > a && strips(s[b - 1], brackets)
        invariant
            a <= b <= s@.len(),
            t == s@.skip(a as int),
            p == (if brackets { bracket() } else { ws() }),
            trail(t, p) == (s@.len() - b) + trail(t.take(b - a), p),
        decreases b,
    {
        assert(t.take(b - a).last() == s@[b - 1]);
        assert(t.take(b - a).drop_last() == t.take(b - 1 - a));
        b -= 1;
    }
    proof {
        if b > a {
            assert(t.take(b - a).last() == s@[b - 1]);
        }
    }
    let mut out: Vec<char> = Vec::new();
    let mut k: usize = a;
    while k < b
        invariant
            a <= k <= b,
            b <= s@.len(),
            out@ == s@.subrange(a as int, k as int),
        decreases b - k,
    {
        out.push(s[k]);
        k += 1;
        assert(s@.subrange(a as int, k as int) == s@.subrange(a as int, k - 1).push(s@[k - 1]));
    }
    assert(out@ =~= t.take(t.len() - trail(t, p)));
    out
}

/// `s` without leading and trailing whitespace, as `str::trim`.
pub fn trim(s: &str) -> (r: String)
    ensures
        r@ == strip(s@, ws()),
{
    let cs = chars_of(s);
    let t = strip_chars(&cs, false);
    string_from_chars(&t)
}

/// Whether `n` occurs in `h` at `i`.
pub open spec fn occurs_at(h: Seq<char>, n: Seq<char>, i: int) -> bool {
    0 <= i && i + n.len() <= h.len() && h.subrange(i, i + n.len()) == n
}

/// The first position, from `i` on, at which `n` occurs in `h`.
pub open spec fn first_from(h: Seq<char>, n: Seq<char>, i: int) -> Option<int>
    decreases h.len() + 1 - i,
{
    if i < 0 || i + n.len() > h.len() {
        None
    } else if occurs_at(h, n, i) {
        Some(i)
    } else {
        first_from(h, n, i + 1)
    }
}

pub proof fn lemma_first_from_bounds(h: Seq<char>, n: Seq<char>, i: int)
    ensures
        first_from(h, n, i) matches Some(j) ==> i <= j && j + n.len() <= h.len() && occurs_at(h, n, j),
    decreases h.len() + 1 - i,
{
    if 0 <= i && i + n.len() <= h.len() && !occurs_at(h, n, i) {
        lemma_first_from_bounds(h, n, i + 1);
    }
}

/// The first position at which `n` occurs in `h`.
pub open spec fn first_occurrence(h: Seq<char>, n: Seq<char>) -> Option<int> {
    first_from(h, n, 0)
}

fn matches_at(h: &Vec<char>, n: &Vec<char>, i: usize) -> (r: bool)
    requires
        i + n@.len() <= h@.len(),
    ensures
        r == occurs_at(h@, n@, i as int),
{
    let mut k: usize = 0;
    while k < n.len()
        invariant
            0 <= k <= n@.len(),
            i + n@.len() <= h.len(),
            forall|j: int| 0 <= j < k ==> h@[i + j] == n@[j],
        decreases n@.len() - k,
    {
        if h[i + k] != n[k] {
            assert(h@.subrange(i as int, i + n@.len())[k as int] != n@[k as int]);
            return false;
        }
        k += 1;
    }
    assert(h@.subrange(i as int, i + n@.len()) =~= n@);
    true
}

/// The first position at which `n` occurs in `h`, in characters.
pub fn find_chars(h: &Vec<char>, n: &Vec<char>) -> (r: Option<usize>)
    ensures
        r == (match first_occurrence(h@, n@) {
            Some(i) => Some(i as usize),
            None => None::<usize>,
        }),
        r matches Some(i) ==> occurs_at(h@, n@, i as int),
{
    if n.len() > h.len() {
        return None;
    }
    let last = h.len() - n.len();
    let mut i: usize = 0;
    while i <= last
        invariant
            0 <= i <= last + 1,
            last == h@.len() - n@.len(),
            first_from(h@, n@, 0) == first_from(h@, n@, i as int),
        decreases last + 1 - i,
    {
        if matches_at(h, n, i) {
            return Some(i);
        }
        if i == last {
            assert(first_from(h@, n@, i + 1) is None);
            return None;
        }
        i += 1;
    }
    None
}

/// The end, just after it, of the closing `close` that brings the count of
/// open `open`s at position `i` (`depth`) back to zero; a close with
/// nothing open counts as closing.
pub open spec fn close_scan(s: Seq<char>, i: int, depth: nat, open: char, close: char) -> Option<int>
    decreases s.len() - i,
{
    if i < 0 || i >= s.len() {
        None
    } else if s[i] == open {
        close_scan(s, i + 1, depth + 1, open, close)
    } else if s[i] == close {
        let d: nat = if depth > 0 {
            (depth - 1) as nat
        } else {
            0
        };
        if d == 0 {
            Some(i + 1)
        } else {
            close_scan(s, i + 1, d, open, close)
        }
    } else {
        close_scan(s, i + 1, depth, open, close)
    }
}

proof fn lemma_close_scan_bounds(s: Seq<char>, i: int, depth: nat, open: char, close: char)
    ensures
        close_scan(s, i, depth, open, close) matches Some(e) ==> i < e <= s.len(),
    decreases s.len() - i,
{
    if 0 <= i < s.len() {
        lemma_close_scan_bounds(s, i + 1, depth + 1, open, close);
        if depth > 1 {
            lemma_close_scan_bounds(s, i + 1, (depth - 1) as nat, open, close);
        }
        lemma_close_scan_bounds(s, i + 1, depth, open, close);
    }
}

/// The end, in characters, of the group opened first in `s`.
fn close_end(s: &Vec<char>, from: usize, open: char, close: char) -> (r: Option<usize>)
    requires
        from <= s@.len(),
    ensures
        r == (match close_scan(s@, from as int, 0, open, close) {
            Some(e) => Some(e as usize),
            None => None::<usize>,
        }),
        r matches Some(e) ==> from < e <= s@.len(),
{
    let mut depth: usize = 0;
    let mut i: usize = from;
    while i < s.len()
        invariant
            from <= i <= s@.len(),
            depth <= i - from,
            close_scan(s@, from as int, 0, open, close) == close_scan(s@, i as int, depth as nat, open, close),
        decreases s@.len() - i,
    {
        let c = s[i];
        if c == open {
            depth += 1;
        } else if c == close {
            depth = if depth > 0 {
                depth - 1
            } else {
                0
            };
            if depth == 0 {
                return Some(i + 1);
            }
        }
        i += 1;
    }
    None
}

/// `(` then `)`.
pub open spec fn paren_end(s: Seq<char>) -> Option<int> {
    close_scan(s, 0, 0, '(', ')')
}

/// The byte offset just after the `)` that closes the first `(` of `text`
/// (or the first `)` met with nothing open).
pub fn matching_paren_end(text: &str) -> (r: Option<usize>)
    requires
        utf8_len(text@) <= usize::MAX,
    ensures
        r == (match paren_end(text@) {
            Some(e) => Some(utf8_len(text@.take(e)) as usize),
            None => None::<usize>,
        }),
{
    let cs = chars_of(text);
    let total = cs.len();
    assert(total as int == cs@.len());
    proof {
        lemma_close_scan_bounds(cs@, 0, 0, '(', ')');
    }
    match close_end(&cs, 0, '(', ')') {
        Some(e) => {
            assert(paren_end(text@) == Some(e as int));
            let mut prefix: Vec<char> = Vec::new();
            let mut k: usize = 0;
            while k < e
                invariant
                    0 <= k <= e,
                    e <= cs@.len(),
                    cs@ == text@,
                    prefix@ == cs@.take(k as int),
                decreases e - k,
            {
                prefix.push(cs[k]);
                k += 1;
                assert(cs@.take(k as int) == cs@.take(k - 1).push(cs@[k - 1]));
            }
            proof {
                crate::fmt::lemma_utf8_len_prefix(text@, e as int);
                assert(prefix@ == text@.take(e as int));
                assert(paren_end(text@) == Some(e as int));
            }
            match utf8_length(&prefix) {
                Some(n) => Some(n),
                None => {
                    assert(false);
                    None
                },
            }
        },
        None => None,
    }
}

/// `table(`.
pub open spec fn table_open() -> Seq<char> {
    seq!['t', 'a', 'b', 'l', 'e', '(']
}

/// The `table(...)` call of a piece of Typst source, trimmed; the whole
/// piece, trimmed, when it holds no complete call.
pub open spec fn table_snippet(s: Seq<char>) -> Seq<char> {
    match first_occurrence(s, table_open()) {
        Some(start) => match paren_end(s.skip(start)) {
            Some(e) => strip(s.subrange(start, start + e), ws()),
            None => strip(s, ws()),
        },
        None => strip(s, ws()),
    }
}

proof fn lemma_scan_shift(s: Seq<char>, start: int, i: int, depth: nat, open: char, close: char)
    requires
        0 <= start <= s.len(),
        start <= i,
    ensures
        close_scan(s, i, depth, open, close) == (match close_scan(s.skip(start), i - start, depth, open, close) {
            Some(e) => Some(e + start),
            None => None::<int>,
        }),
    decreases s.len() - i,
{
    if i < s.len() {
        assert(s.skip(start)[i - start] == s[i]);
        lemma_scan_shift(s, start, i + 1, depth + 1, open, close);
        if depth > 1 {
            lemma_scan_shift(s, start, i + 1, (depth - 1) as nat, open, close);
        }
        lemma_scan_shift(s, start, i + 1, depth, open, close);
    }
}

pub fn sub_chars(s: &Vec<char>, a: usize, b: usize) -> (r: Vec<char>)
    requires
        a <= b <= s@.len(),
    ensures
        r@ == s@.subrange(a as int, b as int),
{
    let mut out: Vec<char> = Vec::new();
    let mut k: usize = a;
    while k < b
        invariant
            a <= k <= b,
            b <= s@.len(),
            out@ == s@.subrange(a as int, k as int),
        decreases b - k,
    {
        out.push(s[k]);
        k += 1;
        assert(s@.subrange(a as int, k as int) == s@.subrange(a as int, k - 1).push(s@[k - 1]));
    }
    out
}

/// Where the `table(...)` call of `cs` starts and ends, if it has a complete
/// one.
fn table_call(cs: &Vec<char>) -> (r: Option<(usize, usize)>)
    ensures
        match r {
            Some((a, b)) => {
                &&& first_occurrence(cs@, table_open()) == Some(a as int)
                &&& paren_end(cs@.skip(a as int)) == Some(b - a)
                &&& a < b <= cs@.len()
            },
            None => match first_occurrence(cs@, table_open()) {
                Some(start) => paren_end(cs@.skip(start)) is None,
                None => true,
            },
        },
{
    let mut needle: Vec<char> = Vec::new();
    needle.push('t');
    needle.push('a');
    needle.push('b');
    needle.push('l');
    needle.push('e');
    needle.push('(');
    assert(needle@ =~= table_open());
    proof {
        lemma_first_from_bounds(cs@, table_open(), 0);
    }
    match find_chars(cs, &needle) {
        Some(start) => {
            proof {
                lemma_scan_shift(cs@, start as int, start as int, 0, '(', ')');
                lemma_close_scan_bounds(cs@, start as int, 0, '(', ')');
                lemma_close_scan_bounds(cs@.skip(start as int), 0, 0, '(', ')');
            }
            let total = cs.len();
            assert(total as int == cs@.len());
            assert(first_occurrence(cs@, table_open()) == Some(start as int));
            match close_end(cs, start, '(', ')') {
                Some(end) => {
                    assert(close_scan(cs@, start as int, 0, '(', ')') == Some(end as int));
                    assert(paren_end(cs@.skip(start as int)) == Some(end - start));
                    Some((start, end))
                },
                None => None,
            }
        },
        None => None,
    }
}

/// The `table(...)` call in a piece of Typst source, or the whole piece,
/// trimmed.
pub fn extract_table_snippet(text: &str) -> (r: String)
    ensures
        r@ == table_snippet(text@),
{
    let cs = chars_of(text);
    match table_call(&cs) {
        Some((a, b)) => {
            let piece = sub_chars(&cs, a, b);
            let t = strip_chars(&piece, false);
            string_from_chars(&t)
        },
        None => {
            let t = strip_chars(&cs, false);
            string_from_chars(&t)
        },
    }
}

/// `caption:`.
pub open spec fn caption_marker() -> Seq<char> {
    seq!['c', 'a', 'p', 't', 'i', 'o', 'n', ':']
}

/// The caption written in a piece of Typst source: the first `caption:`
/// followed, after whitespace, by a bracketed body, whose outer brackets
/// are dropped.
pub open spec fn caption_of(s: Seq<char>) -> Option<Seq<char>> {
    match first_occurrence(s, caption_marker()) {
        None => None,
        Some(i) => {
            let rest = strip_start(s.skip(i + 8), ws());
            if rest.len() == 0 || rest[0] != '[' {
                None
            } else {
                match close_scan(rest, 0, 0, '[', ']') {
                    None => None,
                    Some(e) => Some(strip(rest.take(e), bracket())),
                }
            }
        }
    }
}

fn skip_ws(s: &Vec<char>, from: usize) -> (r: usize)
    requires
        from <= s@.len(),
    ensures
        r == from + lead(s@.skip(from as int), ws()),
        r <= s@.len(),
{
    let mut a: usize = from;
    assert(s@.skip(from as int).skip(0) == s@.skip(from as int));
    while a < s.len() && is_whitespace(s[a])
        invariant
            from <= a <= s@.len(),
            lead(s@.skip(from as int), ws()) == (a - from) + lead(s@.skip(a as int), ws()),
        decreases s@.len() - a,
    {
        assert(s@.skip(a as int)[0] == s@[a as int]);
        assert(s@.skip(a as int).drop_first() == s@.skip(a + 1));
        a += 1;
    }
    proof {
        if a < s@.len() {
            assert(s@.skip(a as int)[0] == s@[a as int]);
        }
    }
    a
}

/// The caption written in `text`, if any.
pub fn parse_caption(text: &str) -> (r: Option<String>)
    ensures
        match r {
            Some(c) => caption_of(text@) == Some(c@),
            None => caption_of(text@) is None,
        },
{
    let cs = chars_of(text);
    let total = cs.len();
    let mut marker: Vec<char> = Vec::new();
    marker.push('c');
    marker.push('a');
    marker.push('p');
    marker.push('t');
    marker.push('i');
    marker.push('o');
    marker.push('n');
    marker.push(':');
    assert(marker@ =~= caption_marker());
    proof {
        lemma_first_from_bounds(cs@, caption_marker(), 0);
    }
    let i = match find_chars(&cs, &marker) {
        Some(i) => i,
        None => return None,
    };
    assert(first_occurrence(cs@, caption_marker()) == Some(i as int));
    let a = skip_ws(&cs, i + 8);
    let ghost rest = strip_start(cs@.skip(i + 8), ws());
    assert(rest =~= cs@.skip(a as int));
    if a >= cs.len() || cs[a] != '[' {
        return None;
    }
    proof {
        lemma_scan_shift(cs@, a as int, a as int, 0, '[', ']');
        lemma_close_scan_bounds(cs@, a as int, 0, '[', ']');
        lemma_close_scan_bounds(rest, 0, 0, '[', ']');
    }
    match close_end(&cs, a, '[', ']') {
        Some(e) => {
            assert(close_scan(rest, 0, 0, '[', ']') == Some(e - a));
            let piece = sub_chars(&cs, a, e);
            assert(piece@ =~= rest.take(e - a));
            let t = strip_chars(&piece, true);
            Some(string_from_chars(&t))
        },
        None => None,
    }
}

/// The fingerprint a table is recognised by: the words of its text joined
/// by `|`.
pub fn table_fingerprint(text: &str) -> (r: String)
    ensures
        r@ == join(words(text@), seq!['|']),
{
    let cs = chars_of(text);
    let mut sep: Vec<char> = Vec::new();
    sep.push('|');
    assert(sep@ =~= seq!['|']);
    let j = join_words(&cs, &sep);
    string_from_chars(&j)
}

/// The last position, at `j` or before, at which `n` occurs in `h`.
pub open spec fn last_down(h: Seq<char>, n: Seq<char>, j: int) -> Option<int>
    decreases j + 1,
{
    if j < 0 {
        None
    } else if occurs_at(h, n, j) {
        Some(j)
    } else {
        last_down(h, n, j - 1)
    }
}

/// The last position at which `n` occurs in `h`.
pub open spec fn last_occurrence(h: Seq<char>, n: Seq<char>) -> Option<int> {
    last_down(h, n, h.len() - n.len())
}

proof fn lemma_last_down_bounds(h: Seq<char>, n: Seq<char>, j: int)
    ensures
        last_down(h, n, j) matches Some(i) ==> 0 <= i <= j && occurs_at(h, n, i),
    decreases j + 1,
{
    if j >= 0 && !occurs_at(h, n, j) {
        lemma_last_down_bounds(h, n, j - 1);
    }
}

/// The last position at which `n` occurs in `h`, in characters.
pub fn rfind_chars(h: &Vec<char>, n: &Vec<char>) -> (r: Option<usize>)
    ensures
        r == (match last_occurrence(h@, n@) {
            Some(i) => Some(i as usize),
            None => None::<usize>,
        }),
{
    proof {
        lemma_last_down_bounds(h@, n@, h@.len() - n@.len());
    }
    if n.len() > h.len() {
        return None;
    }
    let mut j: usize = h.len() - n.len();
    loop
        invariant
            0 <= j <= h@.len() - n@.len(),
            last_occurrence(h@, n@) == last_down(h@, n@, j as int),
        decreases j,
    {
        if matches_at(h, n, j) {
            return Some(j);
        }
        if j == 0 {
            assert(last_down(h@, n@, -1) is None);
            return None;
        }
        j -= 1;
    }
}

/// The source of the figure labelled `label` in `source`: from the last
/// `#figure(` before the label's first `<label>` marker to the marker's
/// end, reduced to its `table(...)` call.
pub open spec fn figure_snippet(source: Seq<char>, label: Seq<char>) -> Option<Seq<char>> {
    let marker = seq!['<'] + label + seq!['>'];
    match first_occurrence(source, marker) {
        None => None,
        Some(m) => {
            let end = m + marker.len();
            match last_occurrence(source.take(end), seq!['#', 'f', 'i', 'g', 'u', 'r', 'e', '(']) {
                None => None,
                Some(f) => Some(table_snippet(source.subrange(f, end))),
            }
        },
    }
}

/// The Typst source of the figure labelled `label` in the main file's
/// text `source`, reduced to its table call.
pub fn raw_typst_from_label(source: &str, label: &str) -> (r: Option<String>)
    ensures
        match r {
            Some(s) => figure_snippet(source@, label@) == Some(s@),
            None => figure_snippet(source@, label@) is None,
        },
{
    let cs = chars_of(source);
    let total = cs.len();
    let mut marker: Vec<char> = Vec::new();
    marker.push('<');
    let l = chars_of(label);
    let mut i: usize = 0;
    while i < l.len()
        invariant
            0 <= i <= l@.len(),
            marker@ == seq!['<'] + l@.take(i as int),
        decreases l@.len() - i,
    {
        marker.push(l[i]);
        i += 1;
        assert(l@.take(i as int) == l@.take(i - 1).push(l@[i - 1]));
    }
    marker.push('>');
    assert(l@.take(i as int) == l@);
    assert(marker@ =~= seq!['<'] + label@ + seq!['>']);
    proof {
        lemma_first_from_bounds(cs@, marker@, 0);
    }
    let m = match find_chars(&cs, &marker) {
        Some(m) => m,
        None => return None,
    };
    assert(first_occurrence(cs@, marker@) == Some(m as int));
    let end = m + marker.len();
    let before = sub_chars(&cs, 0, end);
    assert(before@ =~= cs@.take(end as int));
    let mut fig: Vec<char> = Vec::new();
    push_str_chars(&mut fig, "#figure(");
    proof {
        reveal_strlit("#figure(");
    }
    assert(fig@ =~= seq!['#', 'f', 'i', 'g', 'u', 'r', 'e', '(']);
    proof {
        lemma_last_down_bounds(before@, fig@, before@.len() - fig@.len());
    }
    let f = match rfind_chars(&before, &fig) {
        Some(f) => f,
        None => return None,
    };
    let piece = sub_chars(&cs, f, end);
    let snippet = string_from_chars(&piece);
    Some(extract_table_snippet(snippet.as_str()))
}

fn push_str_chars(out: &mut Vec<char>, s: &str)
    ensures
        final(out)@ == old(out)@ + s@,
{
    crate::fmt::push_str(out, s);
}

/// `i` clamped to `n`.
pub open spec fn clamp(i: int, n: int) -> int {
    if i < n {
        i
    } else {
        n
    }
}

/// Whether a span's byte range `start..end`, clamped to the length of
/// `text`, may be cut out of it: empty, or bounded by character boundaries.
pub open spec fn range_cuttable(text: &str, start: usize, end: usize) -> bool {
    let n = text.spec_bytes().len() as int;
    clamp(start as int, n) < clamp(end as int, n) ==> {
        &&& is_char_boundary(text.spec_bytes(), clamp(start as int, n))
        &&& is_char_boundary(text.spec_bytes(), clamp(end as int, n))
    }
}

/// The text between the byte offsets `start` and `end` of `text`, both
/// clamped to its length; `None` where that range is empty.
pub fn range_text<'a>(text: &'a str, start: usize, end: usize) -> (r: Option<&'a str>)
    requires
        text.spec_bytes().len() <= usize::MAX,
        range_cuttable(text, start, end),
    ensures
        ({
            let n = text.spec_bytes().len() as int;
            let a = clamp(start as int, n);
            let b = clamp(end as int, n);
            match r {
                None => a >= b,
                Some(p) => a < b && p@ == decode_utf8(text.spec_bytes().subrange(a, b)),
            }
        }),
{
    broadcast use vstd::utf8::group_utf8_lib;

    let n = text.len();
    let a = if start < n {
        start
    } else {
        n
    };
    let b = if end < n {
        end
    } else {
        n
    };
    if a >= b {
        return None;
    }
    let ghost bytes = text.spec_bytes();
    proof {
        vstd::utf8::encode_utf8_valid_utf8(text@);
        vstd::utf8::valid_utf8_split(bytes, b as int);
    }
    let (head, _) = text.split_at(b);
    proof {
        let hb = head.spec_bytes();
        assert(hb =~= bytes.subrange(0, b as int));
        if a > 0 {
            vstd::utf8::is_char_boundary_iff_not_is_continuation_byte(bytes, a as int);
            vstd::utf8::is_char_boundary_iff_not_is_continuation_byte(hb, a as int);
            assert(hb[a as int] == bytes[a as int]);
        }
    }
    let (_, piece) = head.split_at(a);
    proof {
        assert(piece.spec_bytes() =~= bytes.subrange(a as int, b as int));
        vstd::utf8::decode_utf8_encode_utf8(piece.spec_bytes());
        vstd::utf8::encode_utf8_decode_utf8(piece@);
    }
    Some(piece)
}

/// The Typst source of a table element spanning the byte range
/// `start..end` of its file's text, reduced to its table call.
pub fn raw_typst_from_span(text: &str, start: usize, end: usize) -> (r: Option<String>)
    requires
        text.spec_bytes().len() <= usize::MAX,
        range_cuttable(text, start, end),
    ensures
        ({
            let n = text.spec_bytes().len() as int;
            let a = clamp(start as int, n);
            let b = clamp(end as int, n);
            match r {
                None => a >= b,
                Some(s) => a < b && s@ == table_snippet(
                    decode_utf8(text.spec_bytes().subrange(a, b)),
                ),
            }
        }),
{
    match range_text(text, start, end) {
        Some(piece) => Some(extract_table_snippet(piece)),
        None => None,
    }
}

/// The Typst source of an equation spanning the byte range `start..end` of
/// its file's text, without surrounding whitespace.
pub fn raw_math_from_span(text: &str, start: usize, end: usize) -> (r: Option<String>)
    requires
        text.spec_bytes().len() <= usize::MAX,
        range_cuttable(text, start, end),
    ensures
        ({
            let n = text.spec_bytes().len() as int;
            let a = clamp(start as int, n);
            let b = clamp(end as int, n);
            match r {
                None => a >= b,
                Some(s) => a < b && s@ == strip(
                    decode_utf8(text.spec_bytes().subrange(a, b)),
                    ws(),
                ),
            }
        }),
{
    match range_text(text, start, end) {
        Some(piece) => Some(trim(piece)),
        None => None,
    }
}

} // verus!
