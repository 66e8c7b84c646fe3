//! Sets of texts kept as strictly ascending sequences, and the names a
//! vector of strings holds.

use vstd::prelude::*;

use crate::fmt::{
    chars_lt, lemma_chars_lt_asymmetric, lemma_chars_lt_irreflexive, lemma_chars_lt_total,
    lemma_chars_lt_transitive, str_eq, str_lt,
};

verus! {

/// Whether `s` is in strictly ascending order.
pub open spec fn ascending(s: Seq<Seq<char>>) -> bool {
    forall|i: int, j: int| 0 <= i < j < s.len() ==> chars_lt(#[trigger] s[i], #[trigger] s[j])
}


/// `s` with `n` inserted in its place, unless it holds it.
pub open spec fn insert_name(s: Seq<Seq<char>>, n: Seq<char>) -> Seq<Seq<char>>
    decreases s.len(),
{
    if s.len() == 0 {
        seq![n]
    } else if s[0] == n {
        s
    } else if chars_lt(n, s[0]) {
        seq![n] + s
    } else {
        seq![s[0]] + insert_name(s.drop_first(), n)
    }
}


/// The names held by `v`.
pub open spec fn names_of(v: Seq<String>) -> Set<Seq<char>> {
    Set::new(|s: Seq<char>| exists|i: int| 0 <= i < v.len() && (#[trigger] v[i])@ == s)
}

/// The texts of `v`, in order.
pub open spec fn texts_of(v: Seq<String>) -> Seq<Seq<char>> {
    v.map_values(|s: String| s@)
}


pub proof fn lemma_names_finite(v: Seq<String>)
    ensures
        names_of(v).finite(),
    decreases v.len(),
{
    if v.len() == 0 {
        assert(names_of(v) =~= Set::empty());
    } else {
        lemma_names_finite(v.drop_last());
        assert(names_of(v) =~= names_of(v.drop_last()).insert(v.last()@)) by {
            assert forall|s: Seq<char>| names_of(v).contains(s) implies names_of(v.drop_last()).insert(
                v.last()@,
            ).contains(s) by {
                let i = choose|i: int| 0 <= i < v.len() && (#[trigger] v[i])@ == s;
                if i < v.len() - 1 {
                    assert(v.drop_last()[i] == v[i]);
                }
            }
            assert forall|s: Seq<char>| names_of(v.drop_last()).insert(v.last()@).contains(s) implies names_of(
                v,
            ).contains(s) by {
                if s != v.last()@ {
                    let i = choose|i: int| 0 <= i < v.drop_last().len() && (#[trigger] v.drop_last()[i])@ == s;
                    assert(v[i] == v.drop_last()[i]);
                } else {
                    assert(v[v.len() - 1]@ == s);
                }
            }
        }
    }
}


pub proof fn lemma_filter_ascending(s: Seq<Seq<char>>, p: spec_fn(Seq<char>) -> bool)
    requires
        ascending(s),
    ensures
        ascending(s.filter(p)),
    decreases s.len(),
{
    reveal(Seq::filter);
    if s.len() > 0 {
        let t = s.drop_last();
        assert forall|a: int, b: int| 0 <= a < b < t.len() implies chars_lt(#[trigger] t[a], #[trigger] t[b]) by {
            assert(t[a] == s[a] && t[b] == s[b]);
        }
        lemma_filter_ascending(t, p);
        if p(s.last()) {
            let f = t.filter(p);
            let r = f.push(s.last());
            assert forall|a: int, b: int| 0 <= a < b < r.len() implies chars_lt(#[trigger] r[a], #[trigger] r[b]) by {
                if b == r.len() - 1 {
                    assert(f.contains(r[a]));
                    t.lemma_filter_contains_rev(p, r[a]);
                    let w = choose|w: int| 0 <= w < t.len() && t[w] == r[a];
                    assert(s[w] == r[a]);
                } else {
                    assert(r[a] == f[a] && r[b] == f[b]);
                }
            }
        }
    }
}


pub proof fn lemma_insert_name_at(s: Seq<Seq<char>>, n: Seq<char>, j: int)
    requires
        ascending(s),
        0 <= j <= s.len(),
        forall|i: int| 0 <= i < j ==> chars_lt(#[trigger] s[i], n),
        j < s.len() ==> !chars_lt(s[j], n),
    ensures
        insert_name(s, n) == (if j < s.len() && s[j] == n {
            s
        } else {
            s.insert(j, n)
        }),
    decreases j,
{
    if j == 0 {
        if s.len() == 0 {
            assert(seq![n] =~= s.insert(0, n));
        } else if s[0] != n {
            lemma_chars_lt_total(n, s[0]);
            assert(seq![n] + s =~= s.insert(0, n));
        }
    } else {
        lemma_chars_lt_asymmetric(s[0], n);
        lemma_chars_lt_irreflexive(n);
        let t = s.drop_first();
        assert forall|a: int, b: int| 0 <= a < b < t.len() implies chars_lt(#[trigger] t[a], #[trigger] t[b]) by {
            assert(t[a] == s[a + 1]);
            assert(t[b] == s[b + 1]);
        }
        assert forall|i: int| 0 <= i < j - 1 implies chars_lt(#[trigger] t[i], n) by {
            assert(t[i] == s[i + 1]);
        }
        lemma_insert_name_at(t, n, j - 1);
        if j < s.len() && s[j] == n {
            assert(seq![s[0]] + t =~= s);
        } else {
            assert(seq![s[0]] + t.insert(j - 1, n) =~= s.insert(j, n));
        }
    }
}

pub proof fn lemma_insert_name_ascending(s: Seq<Seq<char>>, n: Seq<char>)
    requires
        ascending(s),
    ensures
        ascending(insert_name(s, n)),
    decreases s.len(),
{
    let r = insert_name(s, n);
    if s.len() == 0 {
    } else if s[0] == n {
    } else if chars_lt(n, s[0]) {
        assert forall|i: int, j: int| 0 <= i < j < r.len() implies chars_lt(#[trigger] r[i], #[trigger] r[j]) by {
            assert(r[j] == s[j - 1]);
            if i > 0 {
                assert(r[i] == s[i - 1]);
            } else if j > 1 {
                lemma_chars_lt_transitive(n, s[0], s[j - 1]);
            }
        }
    } else {
        let t = s.drop_first();
        assert forall|a: int, b: int| 0 <= a < b < t.len() implies chars_lt(#[trigger] t[a], #[trigger] t[b]) by {
            assert(t[a] == s[a + 1]);
            assert(t[b] == s[b + 1]);
        }
        lemma_insert_name_ascending(t, n);
        lemma_insert_name_members(t, n);
        lemma_chars_lt_total(n, s[0]);
        let rt = insert_name(t, n);
        assert forall|i: int, j: int| 0 <= i < j < r.len() implies chars_lt(#[trigger] r[i], #[trigger] r[j]) by {
            assert(r[j] == rt[j - 1]);
            if i > 0 {
                assert(r[i] == rt[i - 1]);
            } else {
                if rt[j - 1] != n {
                    let w = choose|w: int| 0 <= w < t.len() && t[w] == rt[j - 1];
                    assert(t[w] == s[w + 1]);
                }
            }
        }
    }
}

pub proof fn lemma_insert_name_members(s: Seq<Seq<char>>, n: Seq<char>)
    ensures
        forall|i: int|
            0 <= i < insert_name(s, n).len() ==> #[trigger] insert_name(s, n)[i] == n || exists|w: int|
                0 <= w < s.len() && s[w] == insert_name(s, n)[i],
        forall|w: int| 0 <= w < s.len() ==> insert_name(s, n).contains(#[trigger] s[w]),
        insert_name(s, n).contains(n),
    decreases s.len(),
{
    let r = insert_name(s, n);
    if s.len() == 0 {
        assert(r[0] == n);
    } else if s[0] == n {
        assert forall|i: int| 0 <= i < r.len() implies #[trigger] r[i] == n || exists|w: int|
            0 <= w < s.len() && s[w] == r[i] by {
            assert(s[i] == r[i]);
        }
        assert(r[0] == n);
        assert forall|w: int| 0 <= w < s.len() implies r.contains(#[trigger] s[w]) by {
            assert(r[w] == s[w]);
        }
    } else if chars_lt(n, s[0]) {
        assert forall|i: int| 0 <= i < r.len() implies #[trigger] r[i] == n || exists|w: int|
            0 <= w < s.len() && s[w] == r[i] by {
            if i > 0 {
                assert(s[i - 1] == r[i]);
            }
        }
        assert(r[0] == n);
        assert forall|w: int| 0 <= w < s.len() implies r.contains(#[trigger] s[w]) by {
            assert(r[w + 1] == s[w]);
        }
    } else {
        let t = s.drop_first();
        lemma_insert_name_members(t, n);
        let rt = insert_name(t, n);
        assert forall|i: int| 0 <= i < r.len() implies #[trigger] r[i] == n || exists|w: int|
            0 <= w < s.len() && s[w] == r[i] by {
            if i > 0 {
                assert(r[i] == rt[i - 1]);
                if rt[i - 1] != n {
                    let w = choose|w: int| 0 <= w < t.len() && t[w] == rt[i - 1];
                    assert(s[w + 1] == t[w]);
                }
            } else {
                assert(s[0] == r[0]);
            }
        }
        assert(rt.contains(n));
        let k = choose|k: int| 0 <= k < rt.len() && rt[k] == n;
        assert(r[k + 1] == n);
        assert forall|w: int| 0 <= w < s.len() implies r.contains(#[trigger] s[w]) by {
            if w == 0 {
                assert(r[0] == s[0]);
            } else {
                assert(t[w - 1] == s[w]);
                assert(rt.contains(t[w - 1]));
                let k = choose|k: int| 0 <= k < rt.len() && rt[k] == t[w - 1];
                assert(r[k + 1] == s[w]);
            }
        }
    }
}


/// Inserts `name` into the ascending texts `v`, in its place, unless it is
/// there.
pub fn insert_sorted_text(v: &mut Vec<String>, name: String)
    requires
        ascending(texts_of(old(v)@)),
    ensures
        texts_of(final(v)@) == insert_name(texts_of(old(v)@), name@),
        ascending(texts_of(final(v)@)),
{
    let ghost s = texts_of(v@);
    let mut j: usize = 0;
    while j < v.len() && str_lt(v[j].as_str(), name.as_str())
        invariant
            0 <= j <= v@.len(),
            s == texts_of(v@),
            forall|i: int| 0 <= i < j ==> chars_lt(#[trigger] s[i], name@),
        decreases v@.len() - j,
    {
        j += 1;
    }
    proof {
        lemma_insert_name_at(s, name@, j as int);
        lemma_insert_name_ascending(s, name@);
    }
    if j < v.len() && str_eq(v[j].as_str(), name.as_str()) {
        return;
    }
    v.insert(j, name);
    assert(texts_of(v@) =~= s.insert(j as int, name@));
}

} // verus!
