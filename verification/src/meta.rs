//! Document metadata accumulated in the `cnd.metadata` state: the values a
//! document stores there, and the JSON-like form a node carries them in.
//!
//! A dictionary's entries come out sorted by key, so the same document
//! always writes its metadata keys in the same order.

use vstd::prelude::*;

use crate::fmt::{
    chars_lt, lemma_chars_lt_asymmetric, lemma_chars_lt_irreflexive, lemma_chars_lt_total,
    lemma_chars_lt_transitive, str_eq, str_lt,
};
use crate::model::MetaValue;

verus! {

/// What a metadata value means, independent of how it is stored.
pub enum MetaModel {
    Null,
    Bool(bool),
    Int(i64),
    Number(Seq<char>),
    Str(Seq<char>),
    Array(Seq<MetaModel>),
    Object(Seq<(Seq<char>, MetaModel)>),
}

/// The meaning of a metadata value.
pub open spec fn meta_view(m: MetaValue) -> MetaModel
    decreases m,
{
    match m {
        MetaValue::Null => MetaModel::Null,
        MetaValue::Bool(b) => MetaModel::Bool(b),
        MetaValue::Int(i) => MetaModel::Int(i),
        MetaValue::Number(t) => MetaModel::Number(t@),
        MetaValue::Str(t) => MetaModel::Str(t@),
        MetaValue::Array(v) => MetaModel::Array(metas_view(v@)),
        MetaValue::Object(v) => MetaModel::Object(entries_view(v@)),
    }
}

/// The meanings of a sequence of metadata values.
pub open spec fn metas_view(s: Seq<MetaValue>) -> Seq<MetaModel>
    decreases s,
{
    if s.len() == 0 {
        Seq::empty()
    } else {
        seq![meta_view(s[0])] + metas_view(s.drop_first())
    }
}

/// The meanings of a sequence of keyed metadata values.
pub open spec fn entries_view(s: Seq<(String, MetaValue)>) -> Seq<(Seq<char>, MetaModel)>
    decreases s,
{
    if s.len() == 0 {
        Seq::empty()
    } else {
        seq![(s[0].0@, meta_view(s[0].1))] + entries_view(s.drop_first())
    }
}

pub proof fn lemma_metas_view(s: Seq<MetaValue>)
    ensures
        metas_view(s).len() == s.len(),
        forall|i: int| 0 <= i < s.len() ==> #[trigger] metas_view(s)[i] == meta_view(s[i]),
    decreases s.len(),
{
    if s.len() > 0 {
        lemma_metas_view(s.drop_first());
        assert forall|i: int| 0 <= i < s.len() implies #[trigger] metas_view(s)[i] == meta_view(s[i]) by {
            if i > 0 {
                assert(s.drop_first()[i - 1] == s[i]);
            }
        }
    }
}

pub proof fn lemma_entries_view(s: Seq<(String, MetaValue)>)
    ensures
        entries_view(s).len() == s.len(),
        forall|i: int|
            0 <= i < s.len() ==> #[trigger] entries_view(s)[i] == (s[i].0@, meta_view(s[i].1)),
    decreases s.len(),
{
    if s.len() > 0 {
        lemma_entries_view(s.drop_first());
        assert forall|i: int| 0 <= i < s.len() implies #[trigger] entries_view(s)[i] == (
        s[i].0@, meta_view(s[i].1)) by {
            if i > 0 {
                assert(s.drop_first()[i - 1] == s[i]);
            }
        }
    }
}

/// A copy of `m` with the same meaning.
pub fn copy_meta(m: &MetaValue) -> (r: MetaValue)
    ensures
        meta_view(r) == meta_view(*m),
    decreases *m,
{
    match m {
        MetaValue::Null => MetaValue::Null,
        MetaValue::Bool(b) => MetaValue::Bool(*b),
        MetaValue::Int(i) => MetaValue::Int(*i),
        MetaValue::Number(t) => MetaValue::Number(t.clone()),
        MetaValue::Str(t) => MetaValue::Str(t.clone()),
        MetaValue::Array(v) => MetaValue::Array(copy_metas(v)),
        MetaValue::Object(v) => MetaValue::Object(copy_entries(v)),
    }
}

/// Copies of the values of `v` with the same meanings.
pub fn copy_metas(v: &Vec<MetaValue>) -> (r: Vec<MetaValue>)
    ensures
        metas_view(r@) == metas_view(v@),
    decreases v@,
{
    let mut out: Vec<MetaValue> = Vec::new();
    let mut i: usize = 0;
    while i < v.len()
        invariant
            0 <= i <= v@.len(),
            out@.len() == i,
            forall|j: int| 0 <= j < i ==> meta_view(#[trigger] out@[j]) == meta_view(v@[j]),
        decreases v@.len() - i,
    {
        assert(decreases_to!(v@ => v@[i as int]));
        let c = copy_meta(&v[i]);
        out.push(c);
        i += 1;
    }
    proof {
        lemma_metas_view(out@);
        lemma_metas_view(v@);
        assert(metas_view(out@) =~= metas_view(v@));
    }
    out
}

/// A copy of keyed metadata entries with the same meaning.
pub fn copy_entries(v: &Vec<(String, MetaValue)>) -> (r: Vec<(String, MetaValue)>)
    ensures
        entries_view(r@) == entries_view(v@),
    decreases v@,
{
    let mut out: Vec<(String, MetaValue)> = Vec::new();
    let mut i: usize = 0;
    while i < v.len()
        invariant
            0 <= i <= v@.len(),
            out@.len() == i,
            forall|j: int|
                0 <= j < i ==> (#[trigger] out@[j]).0@ == v@[j].0@ && meta_view(out@[j].1) == meta_view(
                    v@[j].1,
                ),
        decreases v@.len() - i,
    {
        assert(decreases_to!(v@ => v@[i as int].1));
        let c = copy_meta(&v[i].1);
        out.push((v[i].0.clone(), c));
        i += 1;
    }
    proof {
        lemma_entries_view(out@);
        lemma_entries_view(v@);
        assert(entries_view(out@) =~= entries_view(v@));
    }
    out
}

// ---------------------------------------------------------------------------
// Values stored in the document's metadata state

/// A value a document stores in its metadata state, as plain data.
pub enum StateValue {
    /// `none`: dropped from the metadata.
    Absent,
    Bool(bool),
    Int(i64),
    /// A float, as the JSON number text it writes as; `None` for a NaN or an
    /// infinity, which JSON writes as `null`.
    Float(Option<String>),
    /// A decimal, as its text.
    Decimal(String),
    Str(String),
    Dict(Vec<(String, StateValue)>),
    Array(Vec<StateValue>),
    /// Any other value, as its Typst source representation.
    Other(String),
}

/// Whether the keys of `s` are in strictly ascending order.
pub open spec fn keys_ascending(s: Seq<(Seq<char>, MetaModel)>) -> bool {
    forall|i: int, j: int| 0 <= i < j < s.len() ==> chars_lt(#[trigger] s[i].0, #[trigger] s[j].0)
}

/// `s` with key `k` set to `m`: in its place by key order, replacing an
/// entry with the same key.
pub open spec fn sorted_insert(s: Seq<(Seq<char>, MetaModel)>, k: Seq<char>, m: MetaModel) -> Seq<
    (Seq<char>, MetaModel),
>
    decreases s.len(),
{
    if s.len() == 0 {
        seq![(k, m)]
    } else if s[0].0 == k {
        seq![(k, m)] + s.drop_first()
    } else if chars_lt(k, s[0].0) {
        seq![(k, m)] + s
    } else {
        seq![s[0]] + sorted_insert(s.drop_first(), k, m)
    }
}

/// The metadata a state value writes as, or nothing for `none`.
pub open spec fn state_meta(v: StateValue) -> Option<MetaModel>
    decreases v,
{
    match v {
        StateValue::Absent => None,
        StateValue::Bool(b) => Some(MetaModel::Bool(b)),
        StateValue::Int(i) => Some(MetaModel::Int(i)),
        StateValue::Float(t) => Some(
            match t {
                Some(t) => MetaModel::Number(t@),
                None => MetaModel::Null,
            },
        ),
        StateValue::Decimal(t) => Some(MetaModel::Str(t@)),
        StateValue::Str(t) => Some(MetaModel::Str(t@)),
        StateValue::Other(t) => Some(MetaModel::Str(t@)),
        StateValue::Array(items) => Some(MetaModel::Array(state_items(items@))),
        StateValue::Dict(entries) => Some(MetaModel::Object(state_dict(entries@))),
    }
}

/// The metadata of the items of an array, `none` items left out.
pub open spec fn state_items(s: Seq<StateValue>) -> Seq<MetaModel>
    decreases s,
{
    if s.len() == 0 {
        Seq::empty()
    } else {
        let rest = state_items(s.drop_last());
        match state_meta(s.last()) {
            Some(m) => rest.push(m),
            None => rest,
        }
    }
}

/// The metadata of a dictionary's entries, `none` values left out, sorted
/// by key; a later entry with the same key wins.
pub open spec fn state_dict(s: Seq<(String, StateValue)>) -> Seq<(Seq<char>, MetaModel)>
    decreases s,
{
    if s.len() == 0 {
        Seq::empty()
    } else {
        let rest = state_dict(s.drop_last());
        match state_meta(s.last().1) {
            Some(m) => sorted_insert(rest, s.last().0@, m),
            None => rest,
        }
    }
}

proof fn lemma_sorted_insert_ascending(s: Seq<(Seq<char>, MetaModel)>, k: Seq<char>, m: MetaModel)
    requires
        keys_ascending(s),
    ensures
        keys_ascending(sorted_insert(s, k, m)),
        forall|i: int|
            0 <= i < sorted_insert(s, k, m).len() ==> #[trigger] sorted_insert(s, k, m)[i].0 == k
                || exists|j: int| 0 <= j < s.len() && s[j].0 == sorted_insert(s, k, m)[i].0,
    decreases s.len(),
{
    let r = sorted_insert(s, k, m);
    if s.len() == 0 {
    } else if s[0].0 == k {
        assert forall|i: int, j: int| 0 <= i < j < r.len() implies chars_lt(
            #[trigger] r[i].0,
            #[trigger] r[j].0,
        ) by {
            if i > 0 {
                assert(r[i] == s[i]);
            }
            assert(r[j] == s[j]);
        }
        assert forall|i: int| 0 <= i < r.len() implies #[trigger] r[i].0 == k || exists|j: int|
            0 <= j < s.len() && s[j].0 == r[i].0 by {
            if i > 0 {
                assert(r[i] == s[i]);
            }
        }
    } else if chars_lt(k, s[0].0) {
        assert forall|i: int, j: int| 0 <= i < j < r.len() implies chars_lt(
            #[trigger] r[i].0,
            #[trigger] r[j].0,
        ) by {
            assert(r[j] == s[j - 1]);
            if i > 0 {
                assert(r[i] == s[i - 1]);
            } else if j > 1 {
                lemma_chars_lt_transitive(k, s[0].0, s[j - 1].0);
            }
        }
        assert forall|i: int| 0 <= i < r.len() implies #[trigger] r[i].0 == k || exists|j: int|
            0 <= j < s.len() && s[j].0 == r[i].0 by {
            if i > 0 {
                assert(r[i] == s[i - 1]);
            }
        }
    } else {
        let t = s.drop_first();
        assert forall|i: int, j: int| 0 <= i < j < t.len() implies chars_lt(
            #[trigger] t[i].0,
            #[trigger] t[j].0,
        ) by {
            assert(t[i] == s[i + 1]);
            assert(t[j] == s[j + 1]);
        }
        lemma_sorted_insert_ascending(t, k, m);
        let rt = sorted_insert(t, k, m);
        lemma_chars_lt_total(k, s[0].0);
        assert forall|i: int, j: int| 0 <= i < j < r.len() implies chars_lt(
            #[trigger] r[i].0,
            #[trigger] r[j].0,
        ) by {
            assert(r[j] == rt[j - 1]);
            if i > 0 {
                assert(r[i] == rt[i - 1]);
            } else {
                assert(r[0] == s[0]);
                if rt[j - 1].0 != k {
                    let w = choose|w: int| 0 <= w < t.len() && t[w].0 == rt[j - 1].0;
                    assert(t[w] == s[w + 1]);
                }
            }
        }
        assert forall|i: int| 0 <= i < r.len() implies #[trigger] r[i].0 == k || exists|j: int|
            0 <= j < s.len() && s[j].0 == r[i].0 by {
            if i > 0 {
                assert(r[i] == rt[i - 1]);
                if rt[i - 1].0 != k {
                    let w = choose|w: int| 0 <= w < t.len() && t[w].0 == rt[i - 1].0;
                    assert(t[w] == s[w + 1]);
                }
            } else {
                assert(s[0].0 == r[0].0);
            }
        }
    }
}

proof fn lemma_sorted_insert_at(s: Seq<(Seq<char>, MetaModel)>, k: Seq<char>, m: MetaModel, j: int)
    requires
        keys_ascending(s),
        0 <= j <= s.len(),
        forall|i: int| 0 <= i < j ==> chars_lt(#[trigger] s[i].0, k),
        j < s.len() ==> !chars_lt(s[j].0, k),
    ensures
        sorted_insert(s, k, m) == (if j < s.len() && s[j].0 == k {
            s.update(j, (k, m))
        } else {
            s.insert(j, (k, m))
        }),
    decreases j,
{
    if j == 0 {
        if s.len() == 0 {
            assert(seq![(k, m)] =~= s.insert(0, (k, m)));
        } else if s[0].0 == k {
            assert(seq![(k, m)] + s.drop_first() =~= s.update(0, (k, m)));
        } else {
            lemma_chars_lt_total(k, s[0].0);
            assert(seq![(k, m)] + s =~= s.insert(0, (k, m)));
        }
    } else {
        lemma_chars_lt_asymmetric(s[0].0, k);
        lemma_chars_lt_irreflexive(k);
        let t = s.drop_first();
        assert forall|a: int, b: int| 0 <= a < b < t.len() implies chars_lt(
            #[trigger] t[a].0,
            #[trigger] t[b].0,
        ) by {
            assert(t[a] == s[a + 1]);
            assert(t[b] == s[b + 1]);
        }
        assert forall|i: int| 0 <= i < j - 1 implies chars_lt(#[trigger] t[i].0, k) by {
            assert(t[i] == s[i + 1]);
        }
        lemma_sorted_insert_at(t, k, m, j - 1);
        if j < s.len() && s[j].0 == k {
            assert(seq![s[0]] + t.update(j - 1, (k, m)) =~= s.update(j, (k, m)));
        } else {
            assert(seq![s[0]] + t.insert(j - 1, (k, m)) =~= s.insert(j, (k, m)));
        }
    }
}

/// Sets key `k` to `m` in `out`, keeping its keys ascending.
fn insert_sorted(out: &mut Vec<(String, MetaValue)>, k: String, m: MetaValue)
    requires
        keys_ascending(entries_view(old(out)@)),
    ensures
        entries_view(final(out)@) == sorted_insert(entries_view(old(out)@), k@, meta_view(m)),
{
    proof {
        lemma_entries_view(out@);
    }
    let ghost s = entries_view(out@);
    let mut j: usize = 0;
    while j < out.len() && str_lt(out[j].0.as_str(), k.as_str())
        invariant
            0 <= j <= out@.len(),
            s == entries_view(out@),
            s.len() == out@.len(),
            forall|i: int| 0 <= i < out@.len() ==> #[trigger] s[i] == (out@[i].0@, meta_view(out@[i].1)),
            forall|i: int| 0 <= i < j ==> chars_lt(#[trigger] s[i].0, k@),
        decreases out@.len() - j,
    {
        j += 1;
    }
    proof {
        if j < out@.len() {
            assert(s[j as int] == (out@[j as int].0@, meta_view(out@[j as int].1)));
        }
        lemma_sorted_insert_at(s, k@, meta_view(m), j as int);
    }
    if j < out.len() && str_eq(out[j].0.as_str(), k.as_str()) {
        out.set(j, (k, m));
    } else {
        out.insert(j, (k, m));
    }
    proof {
        lemma_entries_view(out@);
        assert(entries_view(out@) =~= sorted_insert(s, k@, meta_view(m)));
    }
}

pub proof fn lemma_state_dict_ascending(s: Seq<(String, StateValue)>)
    ensures
        keys_ascending(state_dict(s)),
    decreases s.len(),
{
    if s.len() > 0 {
        lemma_state_dict_ascending(s.drop_last());
        match state_meta(s.last().1) {
            Some(m) => lemma_sorted_insert_ascending(state_dict(s.drop_last()), s.last().0@, m),
            None => {},
        }
    }
}

/// The metadata `v` writes as, or `None` for a `none` value.
pub fn value_to_meta(v: &StateValue) -> (r: Option<MetaValue>)
    ensures
        match r {
            Some(m) => state_meta(*v) == Some(meta_view(m)),
            None => state_meta(*v) is None,
        },
    decreases *v,
{
    match v {
        StateValue::Absent => None,
        StateValue::Bool(b) => Some(MetaValue::Bool(*b)),
        StateValue::Int(i) => Some(MetaValue::Int(*i)),
        StateValue::Float(t) => match t {
            Some(t) => Some(MetaValue::Number(t.clone())),
            None => Some(MetaValue::Null),
        },
        StateValue::Decimal(t) => Some(MetaValue::Str(t.clone())),
        StateValue::Str(t) => Some(MetaValue::Str(t.clone())),
        StateValue::Other(t) => Some(MetaValue::Str(t.clone())),
        StateValue::Array(items) => Some(MetaValue::Array(items_to_meta(items))),
        StateValue::Dict(entries) => Some(MetaValue::Object(dict_to_metadata(entries))),
    }
}

/// The metadata of an array's items, `none` items left out.
pub fn items_to_meta(items: &Vec<StateValue>) -> (r: Vec<MetaValue>)
    ensures
        metas_view(r@) == state_items(items@),
    decreases items@,
{
    let mut out: Vec<MetaValue> = Vec::new();
    let mut i: usize = 0;
    while i < items.len()
        invariant
            0 <= i <= items@.len(),
            metas_view(out@) == state_items(items@.take(i as int)),
        decreases items@.len() - i,
    {
        assert(decreases_to!(items@ => items@[i as int]));
        let ghost before = out@;
        let converted = value_to_meta(&items[i]);
        assert(items@.take(i + 1).drop_last() == items@.take(i as int));
        match converted {
            Some(m) => {
                out.push(m);
                proof {
                    lemma_metas_view(out@);
                    lemma_metas_view(before);
                    assert(metas_view(out@) =~= metas_view(before).push(meta_view(m)));
                }
            },
            None => {},
        }
        i += 1;
    }
    assert(items@.take(i as int) == items@);
    out
}

/// The metadata of a dictionary: its entries whose value is not `none`,
/// sorted by key, a later entry winning over an earlier one with the same
/// key. This is what a node carries as its `state_metadata`.
pub fn dict_to_metadata(entries: &Vec<(String, StateValue)>) -> (r: Vec<(String, MetaValue)>)
    ensures
        entries_view(r@) == state_dict(entries@),
        keys_ascending(entries_view(r@)),
    decreases entries@,
{
    let mut out: Vec<(String, MetaValue)> = Vec::new();
    let mut i: usize = 0;
    while i < entries.len()
        invariant
            0 <= i <= entries@.len(),
            entries_view(out@) == state_dict(entries@.take(i as int)),
        decreases entries@.len() - i,
    {
        assert(decreases_to!(entries@ => entries@[i as int].1));
        proof {
            lemma_state_dict_ascending(entries@.take(i as int));
        }
        let converted = value_to_meta(&entries[i].1);
        assert(entries@.take(i + 1).drop_last() == entries@.take(i as int));
        match converted {
            Some(m) => {
                insert_sorted(&mut out, entries[i].0.clone(), m);
            },
            None => {},
        }
        i += 1;
    }
    assert(entries@.take(i as int) == entries@);
    proof {
        lemma_state_dict_ascending(entries@);
    }
    out
}

/// The metadata stored at a node's position: a dictionary's entries, sorted
/// by key; nothing for any other value.
pub fn state_to_metadata(v: &StateValue) -> (r: Vec<(String, MetaValue)>)
    ensures
        entries_view(r@) == (match *v {
            StateValue::Dict(entries) => state_dict(entries@),
            _ => Seq::empty(),
        }),
        keys_ascending(entries_view(r@)),
{
    match v {
        StateValue::Dict(entries) => dict_to_metadata(entries),
        _ => {
            let r: Vec<(String, MetaValue)> = Vec::new();
            assert(entries_view(r@) =~= Seq::empty());
            r
        },
    }
}

} // verus!
