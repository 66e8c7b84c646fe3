//! `sys.inputs`: key/value pairs from the command line and from an inputs
//! file holding a JSON object whose values are all strings.

use vstd::prelude::*;

use serde_json::Value;

use crate::fmt::{push_str, string_from_chars};
use crate::fmt::chars_of;
use crate::text::{
    find_chars, first_occurrence, lemma_first_from_bounds, strip, strip_chars, sub_chars, trim, ws,
};

verus! {

/// The kind of a JSON value.
#[derive(Clone, Copy, PartialEq, Eq, Structural)]
pub enum JsonKind {
    Null,
    Bool,
    Number,
    Str,
    Array,
    Object,
}

/// How an error message names the kind of a JSON value.
pub open spec fn kind_name(k: JsonKind) -> Seq<char> {
    match k {
        JsonKind::Null => "null"@,
        JsonKind::Bool => "a boolean"@,
        JsonKind::Number => "a number"@,
        JsonKind::Str => "a string"@,
        JsonKind::Array => "an array"@,
        JsonKind::Object => "an object"@,
    }
}

/// How an error message names the kind of a JSON value.
pub fn json_kind(kind: JsonKind) -> (r: &'static str)
    ensures
        r@ == kind_name(kind),
{
    match kind {
        JsonKind::Null => "null",
        JsonKind::Bool => "a boolean",
        JsonKind::Number => "a number",
        JsonKind::Str => "a string",
        JsonKind::Array => "an array",
        JsonKind::Object => "an object",
    }
}

/// A member of a JSON object: a string, or a value of another kind.
pub enum JsonField {
    Str(String),
    Other(JsonKind),
}

/// A JSON text, as far as an inputs file goes: unreadable (with the
/// parser's message), not an object (with its kind), or an object's
/// members in the parser's order.
pub enum JsonTop {
    Malformed(String),
    NotObject(JsonKind),
    Object(Vec<(String, JsonField)>),
}

/// A member of a JSON object, as values.
pub enum JsonFieldModel {
    Str(Seq<char>),
    Other(JsonKind),
}

/// A JSON text, as values.
pub enum JsonTopModel {
    Malformed(Seq<char>),
    NotObject(JsonKind),
    Object(Seq<(Seq<char>, JsonFieldModel)>),
}

/// A member as values.
pub open spec fn field_view(f: JsonField) -> JsonFieldModel {
    match f {
        JsonField::Str(s) => JsonFieldModel::Str(s@),
        JsonField::Other(k) => JsonFieldModel::Other(k),
    }
}

/// A JSON text as values.
pub open spec fn top_view(t: JsonTop) -> JsonTopModel {
    match t {
        JsonTop::Malformed(m) => JsonTopModel::Malformed(m@),
        JsonTop::NotObject(k) => JsonTopModel::NotObject(k),
        JsonTop::Object(fs) => JsonTopModel::Object(fs@.map_values(|f: (String, JsonField)| (f.0@, field_view(f.1)))),
    }
}

/// What `serde_json` makes of a JSON text: its error message, or the kind
/// of the top-level value and, for an object, its members.
pub uninterp spec fn json_top(text: Seq<char>) -> JsonTopModel;

/// Parses `text` with `serde_json::from_str` into a `serde_json::Value`,
/// and reads off it the error's message, the top-level kind, or an
/// object's members as strings or kinds. Trusted to depend on the text
/// alone; what it yields is left to `serde_json`.
#[verifier::external_body]
fn parse_json_top(text: &str) -> (r: JsonTop)
    ensures
        top_view(r) == json_top(text@),
{
    let kind = |v: &Value| match v {
        Value::Null => JsonKind::Null, Value::Bool(_) => JsonKind::Bool, Value::Number(_) => JsonKind::Number,
        Value::String(_) => JsonKind::Str, Value::Array(_) => JsonKind::Array, Value::Object(_) => JsonKind::Object,
    };
    match serde_json::from_str::<Value>(text) {
        Err(e) => JsonTop::Malformed(e.to_string()),
        Ok(Value::Object(m)) => JsonTop::Object(m.into_iter().map(|(k, v)| match v {
            Value::String(s) => (k, JsonField::Str(s)),
            v => (k, JsonField::Other(kind(&v))),
        }).collect()),
        Ok(v) => JsonTop::NotObject(kind(&v)),
    }
}

/// How `Debug` writes a string: quoted, with escapes.
pub uninterp spec fn debug_text(s: Seq<char>) -> Seq<char>;

/// Writes `s` with `format!("{:?}")`, std's `Debug` for `str`; trusted
/// to depend on the text alone.
#[verifier::external_body]
fn debug_quoted(s: &str) -> (r: String)
    ensures
        r@ == debug_text(s@),
{
    format!("{:?}", s)
}

/// The message for an inputs file that is not JSON.
pub open spec fn malformed_message(shown: Seq<char>, e: Seq<char>) -> Seq<char> {
    "failed to parse inputs file "@ + shown + " as JSON: "@ + e
}

/// The message for an inputs file whose top level is not an object.
pub open spec fn not_object_message(shown: Seq<char>, k: JsonKind) -> Seq<char> {
    "inputs file "@ + shown + " must contain a JSON object at its top level, found "@ + kind_name(k)
}

/// The message for an inputs file with an empty key.
pub open spec fn empty_key_message(shown: Seq<char>) -> Seq<char> {
    "inputs file "@ + shown + ": keys must not be empty"@
}

/// The message for an inputs file with a value that is not a string.
pub open spec fn not_string_message(shown: Seq<char>, key: Seq<char>, k: JsonKind) -> Seq<char> {
    "inputs file "@ + shown + ": value for key "@ + debug_text(key) + " must be a string, found "@
        + kind_name(k)
}

/// The first member of `fs` that an inputs file may not hold: an empty
/// key (when keys are checked) or a value that is not a string.
pub open spec fn first_bad(fs: Seq<(Seq<char>, JsonFieldModel)>, check_keys: bool) -> Option<int>
    decreases fs.len(),
{
    if fs.len() == 0 {
        None
    } else if (check_keys && strip(fs[0].0, ws()).len() == 0) || fs[0].1 is Other {
        Some(0)
    } else {
        match first_bad(fs.drop_first(), check_keys) {
            Some(i) => Some(i + 1),
            None => None,
        }
    }
}

/// The pairs of an inputs file read as `top`, shown in messages as
/// `shown`: the members of its object, each a key and its string value,
/// taken verbatim; with `check_keys`, a key of nothing but whitespace is
/// refused.
pub open spec fn pairs_result(shown: Seq<char>, top: JsonTopModel, check_keys: bool) -> Result<
    Seq<(Seq<char>, Seq<char>)>,
    Seq<char>,
> {
    match top {
        JsonTopModel::Malformed(e) => Err(malformed_message(shown, e)),
        JsonTopModel::NotObject(k) => Err(not_object_message(shown, k)),
        JsonTopModel::Object(fs) => match first_bad(fs, check_keys) {
            Some(i) => if check_keys && strip(fs[i].0, ws()).len() == 0 {
                Err(empty_key_message(shown))
            } else {
                Err(not_string_message(shown, fs[i].0, fs[i].1->Other_0))
            },
            None => Ok(
                fs.map_values(
                    |f: (Seq<char>, JsonFieldModel)|
                        (
                            f.0,
                            match f.1 {
                                JsonFieldModel::Str(s) => s,
                                JsonFieldModel::Other(_) => Seq::empty(),
                            },
                        ),
                ),
            ),
        },
    }
}

/// The pairs as values.
pub open spec fn pairs_view(v: Seq<(String, String)>) -> Seq<(Seq<char>, Seq<char>)> {
    v.map_values(|p: (String, String)| (p.0@, p.1@))
}

/// The pairs of an inputs file read as `top`, shown in messages as
/// `shown`; with `check_keys`, a key of nothing but whitespace is refused.
pub fn pairs_from_json(shown: &str, top: JsonTop, check_keys: bool) -> (r: Result<Vec<(String, String)>, String>)
    ensures
        match r {
            Ok(v) => pairs_result(shown@, top_view(top), check_keys) == Ok::<_, Seq<char>>(pairs_view(v@)),
            Err(e) => pairs_result(shown@, top_view(top), check_keys) == Err::<Seq<(Seq<char>, Seq<char>)>, _>(e@),
        },
{
    let ghost t = top_view(top);
    match top {
        JsonTop::Malformed(e) => {
            let mut out: Vec<char> = Vec::new();
            push_str(&mut out, "failed to parse inputs file ");
            push_str(&mut out, shown);
            push_str(&mut out, " as JSON: ");
            push_str(&mut out, e.as_str());
            assert(out@ =~= malformed_message(shown@, e@));
            Err(string_from_chars(&out))
        },
        JsonTop::NotObject(k) => {
            let mut out: Vec<char> = Vec::new();
            push_str(&mut out, "inputs file ");
            push_str(&mut out, shown);
            push_str(&mut out, " must contain a JSON object at its top level, found ");
            push_str(&mut out, json_kind(k));
            assert(out@ =~= not_object_message(shown@, k));
            Err(string_from_chars(&out))
        },
        JsonTop::Object(fields) => {
            let ghost fs = fields@.map_values(|f: (String, JsonField)| (f.0@, field_view(f.1)));
            let mut pairs: Vec<(String, String)> = Vec::new();
            let mut i: usize = 0;
            assert(fs.skip(0) == fs);
            while i < fields.len()
                invariant
                    0 <= i <= fields@.len(),
                    fs == fields@.map_values(|f: (String, JsonField)| (f.0@, field_view(f.1))),
                    t == JsonTopModel::Object(fs),
                    t == top_view(top),
                    first_bad(fs, check_keys) == (match first_bad(fs.skip(i as int), check_keys) {
                        Some(j) => Some(j + i),
                        None => None::<int>,
                    }),
                    pairs_view(pairs@) == fs.take(i as int).map_values(
                        |f: (Seq<char>, JsonFieldModel)|
                            (
                                f.0,
                                match f.1 {
                                    JsonFieldModel::Str(s) => s,
                                    JsonFieldModel::Other(_) => Seq::empty(),
                                },
                            ),
                    ),
                decreases fields@.len() - i,
            {
                assert(fs.skip(i as int)[0] == fs[i as int]);
                assert(fs.skip(i as int).drop_first() == fs.skip(i + 1));
                let key = &fields[i].0;
                if check_keys && trim(key.as_str()).as_str().is_empty() {
                    let mut out: Vec<char> = Vec::new();
                    push_str(&mut out, "inputs file ");
                    push_str(&mut out, shown);
                    push_str(&mut out, ": keys must not be empty");
                    assert(out@ =~= empty_key_message(shown@));
                    assert(first_bad(fs.skip(i as int), check_keys) == Some(0int));
                    assert(first_bad(fs, check_keys) == Some(i as int));
                    assert(pairs_result(shown@, t, check_keys) == Err::<Seq<(Seq<char>, Seq<char>)>, Seq<char>>(out@));
                    return Err(string_from_chars(&out));
                }
                match &fields[i].1 {
                    JsonField::Other(k) => {
                        let quoted = debug_quoted(key.as_str());
                        let mut out: Vec<char> = Vec::new();
                        push_str(&mut out, "inputs file ");
                        push_str(&mut out, shown);
                        push_str(&mut out, ": value for key ");
                        push_str(&mut out, quoted.as_str());
                        push_str(&mut out, " must be a string, found ");
                        push_str(&mut out, json_kind(*k));
                        assert(out@ =~= not_string_message(shown@, fs[i as int].0, *k));
                        assert(first_bad(fs.skip(i as int), check_keys) == Some(0int));
                        return Err(string_from_chars(&out));
                    },
                    JsonField::Str(v) => {
                        let ghost before = pairs@;
                        pairs.push((key.clone(), v.clone()));
                        assert(pairs_view(pairs@) =~= pairs_view(before).push((fs[i as int].0, v@)));
                        assert(fs.take(i + 1) == fs.take(i as int).push(fs[i as int]));
                    },
                }
                i += 1;
            }
            assert(fs.take(i as int) == fs);
            Ok(pairs)
        },
    }
}

/// The pairs of the inputs file whose text is `text`, shown in messages as
/// `shown`; with `check_keys`, a key of nothing but whitespace is refused.
pub fn load_inputs_text(shown: &str, text: &str, check_keys: bool) -> (r: Result<Vec<(String, String)>, String>)
    ensures
        match r {
            Ok(v) => pairs_result(shown@, json_top(text@), check_keys) == Ok::<_, Seq<char>>(pairs_view(v@)),
            Err(e) => pairs_result(shown@, json_top(text@), check_keys) == Err::<Seq<(Seq<char>, Seq<char>)>, _>(e@),
        },
{
    let top = parse_json_top(text);
    pairs_from_json(shown, top, check_keys)
}

// ---------------------------------------------------------------------------
// Pairs from the command line

/// The pair `raw` gives, split at its first `=`, key and value trimmed; an
/// error without `=` or with an empty key.
pub open spec fn input_pair(raw: Seq<char>) -> Result<(Seq<char>, Seq<char>), Seq<char>> {
    match first_occurrence(raw, seq!['=']) {
        None => Err("input must be a key and a value separated by an equal sign"@),
        Some(i) => {
            let key = strip(raw.take(i), ws());
            if key.len() == 0 {
                Err("the key was missing or empty"@)
            } else {
                Ok((key, strip(raw.skip(i + 1), ws())))
            }
        },
    }
}

/// Parses a `key=value` pair, split by the first equal sign.
pub fn parse_sys_input_pair(raw: &str) -> (r: Result<(String, String), String>)
    ensures
        match r {
            Ok((k, v)) => input_pair(raw@) == Ok::<_, Seq<char>>((k@, v@)),
            Err(e) => input_pair(raw@) == Err::<(Seq<char>, Seq<char>), _>(e@),
        },
{
    let cs = chars_of(raw);
    let total = cs.len();
    let mut eq: Vec<char> = Vec::new();
    eq.push('=');
    assert(eq@ =~= seq!['=']);
    proof {
        lemma_first_from_bounds(cs@, seq!['='], 0);
    }
    let i = match find_chars(&cs, &eq) {
        Some(i) => i,
        None => {
            let mut out: Vec<char> = Vec::new();
            push_str(&mut out, "input must be a key and a value separated by an equal sign");
            return Err(string_from_chars(&out));
        },
    };
    assert(first_occurrence(cs@, seq!['=']) == Some(i as int));
    let key_chars = sub_chars(&cs, 0, i);
    assert(key_chars@ =~= cs@.take(i as int));
    let key = strip_chars(&key_chars, false);
    if key.len() == 0 {
        let mut out: Vec<char> = Vec::new();
        push_str(&mut out, "the key was missing or empty");
        return Err(string_from_chars(&out));
    }
    let val_chars = sub_chars(&cs, i + 1, total);
    assert(val_chars@ =~= cs@.skip(i + 1));
    let val = strip_chars(&val_chars, false);
    Ok((string_from_chars(&key), string_from_chars(&val)))
}

/// The value the last pair of `s` with key `k` gives.
pub open spec fn last_value(s: Seq<(Seq<char>, Seq<char>)>, k: Seq<char>) -> Option<Seq<char>>
    decreases s.len(),
{
    if s.len() == 0 {
        None
    } else if s.last().0 == k {
        Some(s.last().1)
    } else {
        last_value(s.drop_last(), k)
    }
}

/// The keys of `s`, each once, in order of first occurrence.
pub open spec fn key_order(s: Seq<(Seq<char>, Seq<char>)>) -> Seq<Seq<char>>
    decreases s.len(),
{
    if s.len() == 0 {
        Seq::empty()
    } else {
        let prev = key_order(s.drop_last());
        if prev.contains(s.last().0) {
            prev
        } else {
            prev.push(s.last().0)
        }
    }
}

/// Whether `m` is what pairs `s` give as a dictionary: each key once, in
/// order of first occurrence, with the value of its last pair.
pub open spec fn merged(m: Seq<(Seq<char>, Seq<char>)>, s: Seq<(Seq<char>, Seq<char>)>) -> bool {
    &&& m.len() == key_order(s).len()
    &&& forall|i: int|
        0 <= i < m.len() ==> #[trigger] m[i].0 == key_order(s)[i] && last_value(s, m[i].0) == Some(m[i].1)
}

/// The keys of `s` that `last_value` finds are those of `key_order`.
proof fn lemma_key_order(s: Seq<(Seq<char>, Seq<char>)>)
    ensures
        forall|k: Seq<char>| key_order(s).contains(k) <==> last_value(s, k) is Some,
        forall|i: int, j: int| 0 <= i < j < key_order(s).len() ==> key_order(s)[i] != key_order(s)[j],
    decreases s.len(),
{
    if s.len() > 0 {
        lemma_key_order(s.drop_last());
        let prev = key_order(s.drop_last());
        assert forall|k: Seq<char>| key_order(s).contains(k) <==> last_value(s, k) is Some by {
            if !prev.contains(s.last().0) {
                if key_order(s).contains(k) && k != s.last().0 {
                    let w = choose|w: int| 0 <= w < key_order(s).len() && key_order(s)[w] == k;
                    assert(prev[w] == k);
                }
                if prev.contains(k) {
                    let w = choose|w: int| 0 <= w < prev.len() && prev[w] == k;
                    assert(key_order(s)[w] == k);
                }
                assert(key_order(s)[prev.len() as int] == s.last().0);
            }
        }
    }
}

fn insert_pair(out: &mut Vec<(String, String)>, k: &String, v: &String, Ghost(s): Ghost<Seq<(Seq<char>, Seq<char>)>>)
    requires
        merged(pairs_view(old(out)@), s),
    ensures
        merged(pairs_view(final(out)@), s.push((k@, v@))),
{
    proof {
        lemma_key_order(s);
    }
    let ghost t = s.push((k@, v@));
    assert(t.drop_last() == s);
    assert(t.last() == (k@, v@));
    let ghost before = pairs_view(out@);
    let mut j: usize = 0;
    while j < out.len()
        invariant
            0 <= j <= out@.len(),
            before == pairs_view(out@),
            t == s.push((k@, v@)),
            merged(before, s),
            forall|i: int| 0 <= i < j ==> (#[trigger] out@[i]).0@ != k@,
        decreases out@.len() - j,
    {
        if crate::fmt::str_eq(out[j].0.as_str(), k.as_str()) {
            let key = out[j].0.clone();
            out.set(j, (key, v.clone()));
            proof {
                lemma_key_order(s);
                assert(t.drop_last() == s);
                assert(t.last() == (k@, v@));
                assert(before[j as int].0 == k@);
                assert(key_order(s).contains(k@)) by {
                    assert(key_order(s)[j as int] == k@);
                }
                assert(key_order(t) == key_order(s));
                assert forall|i: int| 0 <= i < pairs_view(out@).len() implies #[trigger] pairs_view(out@)[i].0
                    == key_order(t)[i] && last_value(t, pairs_view(out@)[i].0) == Some(pairs_view(out@)[i].1) by {
                    if i != j {
                        assert(pairs_view(out@)[i] == before[i]);
                        assert(key_order(s)[i] != key_order(s)[j as int]);
                    }
                }
            }
            return;
        }
        j += 1;
    }
    out.push((k.clone(), v.clone()));
    proof {
        assert forall|i: int| 0 <= i < before.len() implies key_order(s)[i] != k@ by {
            assert(before[i].0 == key_order(s)[i]);
            assert(out@[i].0@ == before[i].0);
        }
        assert(!key_order(s).contains(k@));
        assert(key_order(t) == key_order(s).push(k@));
        assert forall|i: int| 0 <= i < pairs_view(out@).len() implies #[trigger] pairs_view(out@)[i].0
            == key_order(t)[i] && last_value(t, pairs_view(out@)[i].0) == Some(pairs_view(out@)[i].1) by {
            if i < before.len() {
                assert(pairs_view(out@)[i] == before[i]);
            }
        }
    }
}

/// The dictionary `sys.inputs` is made of: the inputs file's pairs, then
/// the command line's, each key once in order of first occurrence, its
/// last pair giving its value, so that a command-line pair wins over the
/// file's.
pub fn merge_inputs(file_pairs: &Vec<(String, String)>, input_pairs: &Vec<(String, String)>) -> (r: Vec<(String, String)>)
    ensures
        merged(pairs_view(r@), pairs_view(file_pairs@) + pairs_view(input_pairs@)),
{
    let ghost f = pairs_view(file_pairs@);
    let ghost g = pairs_view(input_pairs@);
    let mut out: Vec<(String, String)> = Vec::new();
    let mut n: usize = 0;
    assert(pairs_view(out@) =~= Seq::empty());
    assert(f.take(0) =~= Seq::<(Seq<char>, Seq<char>)>::empty());
    while n < file_pairs.len()
        invariant
            0 <= n <= file_pairs@.len(),
            f == pairs_view(file_pairs@),
            merged(pairs_view(out@), f.take(n as int)),
        decreases file_pairs@.len() - n,
    {
        assert(f.take(n + 1) == f.take(n as int).push((file_pairs@[n as int].0@, file_pairs@[n as int].1@)));
        insert_pair(&mut out, &file_pairs[n].0, &file_pairs[n].1, Ghost(f.take(n as int)));
        n += 1;
    }
    assert(f.take(n as int) == f);
    let mut m: usize = 0;
    while m < input_pairs.len()
        invariant
            0 <= m <= input_pairs@.len(),
            f == pairs_view(file_pairs@),
            g == pairs_view(input_pairs@),
            merged(pairs_view(out@), f + g.take(m as int)),
        decreases input_pairs@.len() - m,
    {
        assert(f + g.take(m + 1) == (f + g.take(m as int)).push((input_pairs@[m as int].0@, input_pairs@[m as int].1@)));
        insert_pair(&mut out, &input_pairs[m].0, &input_pairs[m].1, Ghost(f + g.take(m as int)));
        m += 1;
    }
    assert(g.take(m as int) == g);
    out
}

/// A pair from the command line wins over the inputs file's pairs with the
/// same key: the merged value of a key the command line sets is the
/// command line's last value for it.
pub proof fn law_command_line_wins(file: Seq<(Seq<char>, Seq<char>)>, cli: Seq<(Seq<char>, Seq<char>)>, k: Seq<char>)
    requires
        last_value(cli, k) is Some,
    ensures
        last_value(file + cli, k) == last_value(cli, k),
    decreases cli.len(),
{
    assert((file + cli).last() == cli.last());
    if cli.last().0 != k {
        assert((file + cli).drop_last() == file + cli.drop_last());
        law_command_line_wins(file, cli.drop_last(), k);
    }
}

/// A key the command line does not set keeps the inputs file's value.
pub proof fn law_file_value_kept(file: Seq<(Seq<char>, Seq<char>)>, cli: Seq<(Seq<char>, Seq<char>)>, k: Seq<char>)
    requires
        last_value(cli, k) is None,
    ensures
        last_value(file + cli, k) == last_value(file, k),
    decreases cli.len(),
{
    if cli.len() == 0 {
        assert(file + cli == file);
    } else {
        assert((file + cli).last() == cli.last());
        assert((file + cli).drop_last() == file + cli.drop_last());
        law_file_value_kept(file, cli.drop_last(), k);
    }
}

} // verus!
