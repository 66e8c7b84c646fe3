//! State kept by the editor-side session: the library of images a project
//! may use by bare file name, whether the cached document is still fresh,
//! and making a caller's cursor offset safe to slice at.

use vstd::prelude::*;

use crate::fmt::{chars_of, str_eq};
use crate::textset::{
    ascending, insert_name, insert_sorted_text, lemma_filter_ascending, lemma_insert_name_ascending,
    lemma_insert_name_members, lemma_names_finite, names_of, texts_of,
};
use vstd::string::StringSliceAdditionalSpecFns;
use vstd::utf8::is_char_boundary;

verus! {

broadcast use vstd::utf8::group_utf8_lib;

/// Makes a caller-supplied byte offset safe to slice `text` at: the offset,
/// clamped to the text's length, snapped back to the nearest character
/// boundary at or before it.
pub fn sanitize_cursor(text: &str, cursor: usize) -> (r: usize)
    requires
        text.spec_bytes().len() <= usize::MAX,
    ensures
        r <= cursor,
        r <= text.spec_bytes().len(),
        is_char_boundary(text.spec_bytes(), r as int),
        forall|j: int|
            r < j <= cursor && j <= text.spec_bytes().len() ==> !is_char_boundary(text.spec_bytes(), j),
{
    let len = text.len();
    let mut c = if cursor < len {
        cursor
    } else {
        len
    };
    proof {
        vstd::utf8::encode_utf8_valid_utf8(text@);
        vstd::utf8::is_char_boundary_start_end_of_seq(text.spec_bytes());
    }
    while !text.is_char_boundary(c)
        invariant
            c <= cursor,
            c <= text.spec_bytes().len(),
            vstd::utf8::valid_utf8(text.spec_bytes()),
            is_char_boundary(text.spec_bytes(), 0),
            forall|j: int|
                c < j <= cursor && j <= text.spec_bytes().len() ==> !is_char_boundary(text.spec_bytes(), j),
        decreases c,
    {
        c -= 1;
    }
    c
}

/// The result of a tooltip request.
pub enum TooltipResult {
    /// A string of text.
    Text(String),
    /// A string of Typst code.
    Code(String),
}

// ---------------------------------------------------------------------------
// The image library

/// Whether `s` may name a library image: a bare file name, not empty, not
/// `.` or `..`, with no `/` or `\\`.
pub open spec fn valid_name(s: Seq<char>) -> bool {
    &&& s.len() > 0
    &&& s != seq!['.']
    &&& s != seq!['.', '.']
    &&& !s.contains('/')
    &&& !s.contains('\\')
}

/// `name`, if it may name a library image.
pub fn library_name(name: &str) -> (r: Option<String>)
    ensures
        match r {
            Some(s) => valid_name(name@) && s@ == name@,
            None => !valid_name(name@),
        },
{
    let cs = chars_of(name);
    if cs.len() == 0 {
        return None;
    }
    if cs.len() == 1 && cs[0] == '.' {
        assert(cs@ =~= seq!['.']);
        return None;
    }
    if cs.len() == 2 && cs[0] == '.' && cs[1] == '.' {
        assert(cs@ =~= seq!['.', '.']);
        return None;
    }
    let mut i: usize = 0;
    while i < cs.len()
        invariant
            0 <= i <= cs@.len(),
            cs@ == name@,
            forall|j: int| 0 <= j < i ==> cs@[j] != '/' && cs@[j] != '\\',
        decreases cs@.len() - i,
    {
        if cs[i] == '/' || cs[i] == '\\' {
            assert(cs@.contains(cs@[i as int]));
            return None;
        }
        i += 1;
    }
    proof {
        if cs@ == seq!['.'] {
            assert(cs@.len() == 1 && cs@[0] == '.');
        }
        if cs@ == seq!['.', '.'] {
            assert(cs@.len() == 2 && cs@[0] == '.' && cs@[1] == '.');
        }
    }
    Some(crate::fmt::string_from_chars(&cs))
}

/// What the library knows, as values.
pub struct LibraryModel {
    /// The image names a missing project file may resolve to.
    pub names: Set<Seq<char>>,
    /// The bytes supplied so far, by name.
    pub bytes: Map<Seq<char>, Seq<u8>>,
    /// The names a lookup needed whose bytes were not supplied, ascending.
    pub missing: Seq<Seq<char>>,
}

/// Whether the library is consistent: bytes and pending names are for
/// names of the set, and a name with bytes is not pending.
pub open spec fn library_wf(m: LibraryModel) -> bool {
    &&& m.names.finite()
    &&& forall|n: Seq<char>| #[trigger] m.bytes.contains_key(n) ==> m.names.contains(n)
    &&& forall|i: int| 0 <= i < m.missing.len() ==> m.names.contains(#[trigger] m.missing[i])
        && !m.bytes.contains_key(m.missing[i])
    &&& ascending(m.missing)
}

/// The names of `list` that may name a library image.
pub open spec fn valid_names(list: Seq<String>) -> Set<Seq<char>> {
    Set::new(|s: Seq<char>| valid_name(s) && exists|i: int| 0 <= i < list.len() && (#[trigger] list[i])@ == s)
}

/// Keeps the names in `names`.
pub open spec fn in_names(names: Set<Seq<char>>) -> spec_fn(Seq<char>) -> bool {
    |n: Seq<char>| names.contains(n)
}

/// Keeps the names other than `k`.
pub open spec fn other_than(k: Seq<char>) -> spec_fn(Seq<char>) -> bool {
    |n: Seq<char>| n != k
}

/// Keeps the entries whose name is in `names`.
pub open spec fn entry_in(names: Set<Seq<char>>) -> spec_fn((String, Vec<u8>)) -> bool {
    |e: (String, Vec<u8>)| names.contains(e.0@)
}

/// The valid names among the first `k` of `list`.
pub open spec fn valid_prefix(list: Seq<String>, k: int) -> Set<Seq<char>> {
    Set::new(|s: Seq<char>| valid_name(s) && exists|j: int| 0 <= j < k && (#[trigger] list[j])@ == s)
}

/// The library after its set of names is replaced by the valid names of
/// `list`, and whether that changed the set. Bytes and pending names of
/// names no longer in the set are dropped.
pub open spec fn set_images(m: LibraryModel, list: Seq<String>) -> (LibraryModel, bool) {
    let names = valid_names(list);
    if names == m.names {
        (m, false)
    } else {
        (
            LibraryModel {
                names,
                bytes: m.bytes.restrict(names),
                missing: m.missing.filter(in_names(names)),
            },
            true,
        )
    }
}

/// The library after the bytes of image `name` are supplied, and whether
/// they were taken: only for a name in the set.
pub open spec fn add_image(m: LibraryModel, name: Seq<char>, bytes: Seq<u8>) -> (LibraryModel, bool) {
    if valid_name(name) && m.names.contains(name) {
        (
            LibraryModel {
                bytes: m.bytes.insert(name, bytes),
                missing: m.missing.filter(other_than(name)),
                ..m
            },
            true,
        )
    } else {
        (m, false)
    }
}

/// What the library says of a project file that does not exist.
pub enum Lookup {
    /// Nothing: the file is not the library's to serve.
    NotHandled,
    /// The image's bytes.
    Served(Vec<u8>),
    /// The image is in the set but its bytes were not supplied yet.
    Missing,
}

/// The library after a lookup of the missing project file named `name`,
/// unless `elsewhere` (a package file, or one the project has).
pub open spec fn lookup_image(m: LibraryModel, name: Seq<char>, elsewhere: bool) -> LibraryModel {
    if elsewhere || !m.names.contains(name) || m.bytes.contains_key(name) {
        m
    } else {
        LibraryModel { missing: insert_name(m.missing, name), ..m }
    }
}

/// The bytes that entries `s`, supplied one after the other, leave by name.
pub open spec fn bytes_map(s: Seq<(String, Vec<u8>)>) -> Map<Seq<char>, Seq<u8>>
    decreases s.len(),
{
    if s.len() == 0 {
        Map::empty()
    } else {
        bytes_map(s.drop_last()).insert(s.last().0@, s.last().1@)
    }
}

/// The library of images a project may use by bare file name.
pub struct LibraryImages {
    names: Vec<String>,
    bytes: Vec<(String, Vec<u8>)>,
    missing: Vec<String>,
}

impl View for LibraryImages {
    type V = LibraryModel;

    closed spec fn view(&self) -> LibraryModel {
        LibraryModel {
            names: names_of(self.names@),
            bytes: bytes_map(self.bytes@),
            missing: texts_of(self.missing@),
        }
    }
}

proof fn lemma_bytes_map_suffix(s: Seq<(String, Vec<u8>)>, i: int, k: Seq<char>)
    requires
        0 <= i <= s.len(),
        forall|j: int| i <= j < s.len() ==> (#[trigger] s[j]).0@ != k,
    ensures
        bytes_map(s).contains_key(k) == bytes_map(s.take(i)).contains_key(k),
        bytes_map(s).contains_key(k) ==> bytes_map(s)[k] == bytes_map(s.take(i))[k],
    decreases s.len() - i,
{
    if i == s.len() {
        assert(s.take(i) == s);
    } else {
        let t = s.drop_last();
        assert forall|j: int| i <= j < t.len() implies (#[trigger] t[j]).0@ != k by {
            assert(t[j] == s[j]);
        }
        lemma_bytes_map_suffix(t, i, k);
        assert(t.take(i) == s.take(i));
    }
}

impl LibraryImages {
    /// Whether the library is consistent.
    pub closed spec fn wf(&self) -> bool {
        library_wf(self@)
    }

    /// An empty library.
    pub fn new() -> (r: Self)
        ensures
            r.wf(),
            r@.names == Set::<Seq<char>>::empty(),
            r@.bytes == Map::<Seq<char>, Seq<u8>>::empty(),
            r@.missing.len() == 0,
    {
        let r = LibraryImages { names: Vec::new(), bytes: Vec::new(), missing: Vec::new() };
        assert(names_of(r.names@) =~= Set::empty());
        assert(texts_of(r.missing@) =~= Seq::empty());
        r
    }

    /// The names lookups needed but that have no bytes yet, ascending; they
    /// are then forgotten.
    pub fn take_missing_library_images(&mut self) -> (r: Vec<String>)
        requires
            old(self).wf(),
        ensures
            final(self).wf(),
            texts_of(r@) == old(self)@.missing,
            ascending(texts_of(r@)),
            final(self)@ == (LibraryModel { missing: Seq::empty(), ..old(self)@ }),
    {
        let mut out: Vec<String> = Vec::new();
        std::mem::swap(&mut out, &mut self.missing);
        assert(texts_of(self.missing@) =~= Seq::empty());
        out
    }

    /// The image names the library serves.
    pub fn names(&self) -> (r: Vec<String>)
        ensures
            names_of(r@) == self@.names,
    {
        let mut out: Vec<String> = Vec::new();
        let mut i: usize = 0;
        while i < self.names.len()
            invariant
                0 <= i <= self.names@.len(),
                out@ == self.names@.take(i as int),
            decreases self.names@.len() - i,
        {
            out.push(self.names[i].clone());
            i += 1;
        }
        assert(self.names@.take(i as int) == self.names@);
        out
    }

    fn has_name(&self, name: &str) -> (r: bool)
        ensures
            r == self@.names.contains(name@),
    {
        let mut i: usize = 0;
        while i < self.names.len()
            invariant
                0 <= i <= self.names@.len(),
                forall|j: int| 0 <= j < i ==> (#[trigger] self.names@[j])@ != name@,
            decreases self.names@.len() - i,
        {
            if str_eq(self.names[i].as_str(), name) {
                assert(names_of(self.names@).contains(name@)) by {
                    assert(self.names@[i as int]@ == name@);
                }
                return true;
            }
            i += 1;
        }
        false
    }

    fn bytes_of(&self, name: &str) -> (r: Option<Vec<u8>>)
        ensures
            match r {
                Some(b) => self@.bytes.contains_key(name@) && b@ == self@.bytes[name@],
                None => !self@.bytes.contains_key(name@),
            },
    {
        let ghost s = self.bytes@;
        let mut i: usize = self.bytes.len();
        while i > 0
            invariant
                0 <= i <= s.len(),
                s == self.bytes@,
                forall|j: int| i <= j < s.len() ==> (#[trigger] s[j]).0@ != name@,
            decreases i,
        {
            if str_eq(self.bytes[i - 1].0.as_str(), name) {
                proof {
                    lemma_bytes_map_suffix(s, i as int, name@);
                    assert(s.take(i as int).drop_last() == s.take(i - 1));
                    assert(s.take(i as int).last() == s[i - 1]);
                }
                let src = &self.bytes[i - 1].1;
                let mut copy: Vec<u8> = Vec::new();
                let mut k: usize = 0;
                while k < src.len()
                    invariant
                        0 <= k <= src@.len(),
                        copy@ == src@.take(k as int),
                    decreases src@.len() - k,
                {
                    copy.push(src[k]);
                    k += 1;
                    assert(src@.take(k as int) == src@.take(k - 1).push(src@[k - 1]));
                }
                assert(src@.take(k as int) == src@);
                return Some(copy);
            }
            i -= 1;
        }
        proof {
            lemma_bytes_map_suffix(s, 0, name@);
        }
        None
    }

    /// Serves the missing project file named `name` from the library,
    /// unless `elsewhere` (a package file, or a file the project has): its
    /// bytes, or, for a name in the set without bytes yet, `Missing`, the
    /// name then pending.
    pub fn library_file(&mut self, name: &str, elsewhere: bool) -> (r: Lookup)
        requires
            old(self).wf(),
        ensures
            final(self).wf(),
            final(self)@ == lookup_image(old(self)@, name@, elsewhere),
            match r {
                Lookup::NotHandled => elsewhere || !old(self)@.names.contains(name@),
                Lookup::Served(b) => !elsewhere && old(self)@.names.contains(name@) && old(
                    self,
                )@.bytes.contains_key(name@) && b@ == old(self)@.bytes[name@],
                Lookup::Missing => !elsewhere && old(self)@.names.contains(name@) && !old(
                    self,
                )@.bytes.contains_key(name@),
            },
    {
        if elsewhere || !self.has_name(name) {
            return Lookup::NotHandled;
        }
        match self.bytes_of(name) {
            Some(b) => Lookup::Served(b),
            None => {
                let n = crate::fmt::string_from_chars(&chars_of(name));
                self.insert_missing(n);
                Lookup::Missing
            },
        }
    }

    /// Replaces the set of image names by the valid names of `list`, and
    /// says whether the set changed; bytes and pending names of names no
    /// longer in the set are dropped.
    pub fn set_library_images(&mut self, list: &Vec<String>) -> (changed: bool)
        requires
            old(self).wf(),
        ensures
            final(self).wf(),
            (final(self)@, changed) == set_images(old(self)@, list@),
    {
        let mut valid: Vec<String> = Vec::new();
        let mut i: usize = 0;
        assert(names_of(valid@) =~= valid_prefix(list@, 0));
        while i < list.len()
            invariant
                0 <= i <= list@.len(),
                names_of(valid@) == valid_prefix(list@, i as int),
            decreases list@.len() - i,
        {
            let ghost before = valid@;
            match library_name(list[i].as_str()) {
                Some(v) => {
                    if !contains_text(&valid, v.as_str()) {
                        valid.push(v);
                    }
                },
                None => {},
            }
            proof {
                assert forall|s: Seq<char>| names_of(valid@).contains(s) <==> (valid_name(s) && exists|j: int|
                    0 <= j < i + 1 && (#[trigger] list@[j])@ == s) by {
                    if names_of(valid@).contains(s) {
                        let w = choose|w: int| 0 <= w < valid@.len() && (#[trigger] valid@[w])@ == s;
                        if w < before.len() {
                            assert(before[w] == valid@[w]);
                            assert(names_of(before).contains(s));
                        }
                    }
                    if valid_name(s) && exists|j: int| 0 <= j < i + 1 && (#[trigger] list@[j])@ == s {
                        let j = choose|j: int| 0 <= j < i + 1 && (#[trigger] list@[j])@ == s;
                        if j < i {
                            assert(names_of(before).contains(s));
                            let w = choose|w: int| 0 <= w < before.len() && (#[trigger] before[w])@ == s;
                            assert(valid@[w] == before[w]);
                        } else if !names_of(before).contains(s) {
                            assert(valid@[before.len() as int]@ == s);
                        }
                    }
                }
                assert(names_of(valid@) =~= valid_prefix(list@, i + 1));
            }
            i += 1;
        }
        assert(valid_prefix(list@, list@.len() as int) =~= valid_names(list@));
        let mut all_old = true;
        let mut k: usize = 0;
        while k < valid.len()
            invariant
                0 <= k <= valid@.len(),
                all_old <==> forall|j: int| 0 <= j < k ==> names_of(self.names@).contains(#[trigger] valid@[j]@),
            decreases valid@.len() - k,
        {
            if !self.has_name(valid[k].as_str()) {
                all_old = false;
            }
            k += 1;
        }
        let mut all_new = true;
        let mut k: usize = 0;
        while k < self.names.len()
            invariant
                0 <= k <= self.names@.len(),
                all_new <==> forall|j: int| 0 <= j < k ==> names_of(valid@).contains(#[trigger] self.names@[j]@),
            decreases self.names@.len() - k,
        {
            if !contains_text(&valid, self.names[k].as_str()) {
                all_new = false;
            }
            k += 1;
        }
        let same = all_old && all_new;
        if same {
            proof {
                assert forall|s: Seq<char>| names_of(valid@).contains(s) <==> names_of(self.names@).contains(s) by {
                    if names_of(valid@).contains(s) {
                        let w = choose|w: int| 0 <= w < valid@.len() && (#[trigger] valid@[w])@ == s;
                        assert(names_of(self.names@).contains(valid@[w]@));
                    }
                    if names_of(self.names@).contains(s) {
                        let w = choose|w: int| 0 <= w < self.names@.len() && (#[trigger] self.names@[w])@ == s;
                        assert(names_of(valid@).contains(self.names@[w]@));
                    }
                }
                assert(names_of(valid@) =~= names_of(self.names@));
            }
            return false;
        }
        proof {
            if names_of(valid@) == names_of(self.names@) {
                if exists|j: int| 0 <= j < valid@.len() && !names_of(self.names@).contains(#[trigger] valid@[j]@) {
                    let j = choose|j: int| 0 <= j < valid@.len() && !names_of(self.names@).contains(#[trigger] valid@[j]@);
                    assert(names_of(valid@).contains(valid@[j]@));
                }
                if exists|j: int| 0 <= j < self.names@.len() && !names_of(valid@).contains(#[trigger] self.names@[j]@) {
                    let j = choose|j: int| 0 <= j < self.names@.len() && !names_of(valid@).contains(#[trigger] self.names@[j]@);
                    assert(names_of(self.names@).contains(self.names@[j]@));
                }
            }
        }
        assert(names_of(valid@) != old(self)@.names);
        let ghost names = names_of(valid@);
        let ghost old_bytes = self.bytes@;
        let ghost p = entry_in(names);
        let total = self.bytes.len();
        let mut rest: Vec<(String, Vec<u8>)> = Vec::new();
        std::mem::swap(&mut rest, &mut self.bytes);
        let mut kept: Vec<(String, Vec<u8>)> = Vec::new();
        let mut b: usize = 0;
        while rest.len() > 0
            invariant
                0 <= b <= old_bytes.len(),
                total == old_bytes.len(),
                names != old(self)@.names,
                rest@ == old_bytes.skip(b as int),
                names == names_of(valid@),
                p == entry_in(names),
                kept@ == old_bytes.take(b as int).filter(p),
            decreases rest@.len(),
        {
            assert(b < old_bytes.len());
            let e = rest.remove(0);
            proof {
                assert(e == old_bytes[b as int]);
                assert(old_bytes.take(b + 1) == old_bytes.take(b as int).push(e));
                old_bytes.take(b as int).lemma_filter_push(e, p);
            }
            if contains_text(&valid, e.0.as_str()) {
                kept.push(e);
            }
            b += 1;
            assert(rest@ =~= old_bytes.skip(b as int));
        }
        assert(old_bytes.take(b as int) == old_bytes);
        proof {
            lemma_bytes_map_restrict(old_bytes, kept@, names);
        }
        let missing = filter_texts(&self.missing, &valid);
        let ghost old_missing = texts_of(self.missing@);
        proof {
            lemma_filter_ascending(old_missing, in_names(names));
            lemma_names_finite(valid@);
        }
        self.names = valid;
        self.bytes = kept;
        self.missing = missing;
        proof {
            let m = self@;
            assert(m.missing == old_missing.filter(in_names(names)));
            assert forall|i: int| 0 <= i < m.missing.len() implies m.names.contains(#[trigger] m.missing[i])
                && !m.bytes.contains_key(m.missing[i]) by {
                old_missing.filter_lemma(in_names(names));
                assert(m.missing.contains(m.missing[i]));
                old_missing.lemma_filter_contains_rev(in_names(names), m.missing[i]);
            }
            assert(names == valid_names(list@));
            assert(m.names == names);
            assert(m.bytes == old(self)@.bytes.restrict(names));
            assert(old_missing == old(self)@.missing);
            assert(names != old(self)@.names);
        }
        true
    }

    /// Takes the bytes of image `name`, if it is in the set; says whether
    /// they were taken. The name is then no longer pending.
    pub fn add_library_image(&mut self, name: &str, bytes: &[u8]) -> (taken: bool)
        requires
            old(self).wf(),
        ensures
            final(self).wf(),
            (final(self)@, taken) == add_image(old(self)@, name@, bytes@),
    {
        let n = match library_name(name) {
            Some(n) => n,
            None => return false,
        };
        if !self.has_name(n.as_str()) {
            return false;
        }
        let mut data: Vec<u8> = Vec::new();
        let mut k: usize = 0;
        while k < bytes.len()
            invariant
                0 <= k <= bytes@.len(),
                data@ == bytes@.take(k as int),
            decreases bytes@.len() - k,
        {
            data.push(bytes[k]);
            k += 1;
            assert(bytes@.take(k as int) == bytes@.take(k - 1).push(bytes@[k - 1]));
        }
        assert(bytes@.take(k as int) == bytes@);
        let ghost old_missing = texts_of(self.missing@);
        let ghost key = n@;
        let ghost p = other_than(key);
        let mut kept: Vec<String> = Vec::new();
        let mut i: usize = 0;
        while i < self.missing.len()
            invariant
                0 <= i <= self.missing@.len(),
                old_missing == texts_of(self.missing@),
                p == other_than(key),
                key == n@,
                texts_of(kept@) == texts_of(self.missing@.take(i as int)).filter(p),
            decreases self.missing@.len() - i,
        {
            assert(texts_of(self.missing@.take(i + 1)) =~= texts_of(self.missing@.take(i as int)).push(
                self.missing@[i as int]@,
            ));
            proof {
                texts_of(self.missing@.take(i as int)).lemma_filter_push(self.missing@[i as int]@, p);
            }
            if !str_eq(self.missing[i].as_str(), n.as_str()) {
                let ghost before = kept@;
                kept.push(self.missing[i].clone());
                assert(texts_of(kept@) =~= texts_of(before).push(self.missing@[i as int]@));
            }
            i += 1;
        }
        assert(self.missing@.take(i as int) == self.missing@);
        proof {
            lemma_filter_ascending(old_missing, p);
        }
        self.missing = kept;
        self.bytes.push((n, data));
        proof {
            let m = self@;
            assert(self.bytes@.drop_last() =~= old(self).bytes@);
            assert(bytes_map(self.bytes@) == bytes_map(old(self).bytes@).insert(key, bytes@));
            assert(m.names == old(self)@.names);
            assert forall|x: Seq<char>| #[trigger] m.bytes.contains_key(x) implies m.names.contains(x) by {
                if x != key {
                    assert(old(self)@.bytes.contains_key(x));
                }
            }
            assert forall|i: int| 0 <= i < m.missing.len() implies m.names.contains(#[trigger] m.missing[i])
                && !m.bytes.contains_key(m.missing[i]) by {
                old_missing.filter_lemma(p);
                assert(m.missing.contains(m.missing[i]));
                old_missing.lemma_filter_contains_rev(p, m.missing[i]);
            }
            assert(m.missing == old_missing.filter(other_than(name@)));
        }
        true
    }

    fn insert_missing(&mut self, name: String)
        requires
            old(self).wf(),
            old(self)@.names.contains(name@),
            !old(self)@.bytes.contains_key(name@),
        ensures
            final(self).wf(),
            final(self)@ == (LibraryModel { missing: insert_name(old(self)@.missing, name@), ..old(self)@ }),
    {
        let ghost s = texts_of(self.missing@);
        let ghost n = name@;
        insert_sorted_text(&mut self.missing, name);
        proof {
            lemma_insert_name_members(s, n);
            let m = self@;
            assert forall|i: int| 0 <= i < m.missing.len() implies m.names.contains(#[trigger] m.missing[i])
                && !m.bytes.contains_key(m.missing[i]) by {
                if m.missing[i] != n {
                    let w = choose|w: int| 0 <= w < s.len() && s[w] == m.missing[i];
                }
            }
        }
    }
}

// ---------------------------------------------------------------------------
// Laws of the image library

/// A name reported missing is reported once, then, once its bytes are
/// supplied, served: a lookup of a name in the set without bytes leaves it
/// pending; taking the pending names yields it, a second take yields
/// nothing; after its bytes are added a lookup serves them.
pub proof fn law_missing_reported_once_then_served(m: LibraryModel, name: Seq<char>, bytes: Seq<u8>)
    requires
        library_wf(m),
        valid_name(name),
        m.names.contains(name),
        !m.bytes.contains_key(name),
    ensures
        ({
            let m1 = lookup_image(m, name, false);
            let m2 = LibraryModel { missing: Seq::empty(), ..m1 };
            let m3 = add_image(m2, name, bytes).0;
            &&& m1.missing.contains(name)
            &&& m2.missing.len() == 0
            &&& add_image(m2, name, bytes).1
            &&& m3.bytes.contains_key(name) && m3.bytes[name] == bytes
            &&& lookup_image(m3, name, false) == m3
        }),
{
    lemma_insert_name_members(m.missing, name);
}

/// A name outside the set is never served nor reported: its bytes are
/// refused and a lookup of it changes nothing.
pub proof fn law_outside_set_never_served_or_reported(m: LibraryModel, name: Seq<char>, bytes: Seq<u8>)
    requires
        !m.names.contains(name),
    ensures
        add_image(m, name, bytes) == (m, false),
        lookup_image(m, name, false) == m,
{
}

/// Names that are not bare file names never enter the set.
pub proof fn law_hostile_names_ignored(m: LibraryModel, list: Seq<String>, name: Seq<char>)
    requires
        !valid_name(name),
    ensures
        !set_images(m, list).0.names.contains(name) || set_images(m, list).0 == m,
{
}

/// Replacing the set drops the bytes of the names that leave it: bringing
/// a name back does not bring its old bytes back.
pub proof fn law_replacing_set_drops_bytes(m: LibraryModel, without: Seq<String>, with: Seq<String>, name: Seq<char>)
    requires
        m.names.contains(name),
        !valid_names(without).contains(name),
    ensures
        !set_images(set_images(m, without).0, with).0.bytes.contains_key(name),
{
    assert(valid_names(without) != m.names);
}

/// Every operation keeps the library consistent, and pending names come
/// out in ascending order.
pub proof fn law_library_stays_consistent(
    m: LibraryModel,
    list: Seq<String>,
    name: Seq<char>,
    bytes: Seq<u8>,
    elsewhere: bool,
)
    requires
        library_wf(m),
    ensures
        library_wf(add_image(m, name, bytes).0),
        library_wf(lookup_image(m, name, elsewhere)),
        ascending(m.missing),
{
    if valid_name(name) && m.names.contains(name) {
        let m2 = add_image(m, name, bytes).0;
        lemma_filter_ascending(m.missing, other_than(name));
        assert forall|i: int| 0 <= i < m2.missing.len() implies m2.names.contains(#[trigger] m2.missing[i])
            && !m2.bytes.contains_key(m2.missing[i]) by {
            m.missing.filter_lemma(other_than(name));
            assert(m2.missing.contains(m2.missing[i]));
            m.missing.lemma_filter_contains_rev(other_than(name), m2.missing[i]);
        }
    }
    if !elsewhere && m.names.contains(name) && !m.bytes.contains_key(name) {
        let m1 = lookup_image(m, name, elsewhere);
        lemma_insert_name_ascending(m.missing, name);
        lemma_insert_name_members(m.missing, name);
        assert forall|i: int| 0 <= i < m1.missing.len() implies m1.names.contains(#[trigger] m1.missing[i])
            && !m1.bytes.contains_key(m1.missing[i]) by {
            if m1.missing[i] != name {
                let w = choose|w: int| 0 <= w < m.missing.len() && m.missing[w] == m1.missing[i];
            }
        }
    }
}

// ---------------------------------------------------------------------------
// The cached document

/// When the session's cached document is fresh.
pub struct SessionState {
    /// Whether a file, font or library image changed since the last
    /// compilation.
    pub dirty: bool,
    /// The main file the last compilation was of.
    pub document_main: Option<u16>,
    /// Whether the last compilation succeeded, leaving a document.
    pub has_document: bool,
}

impl SessionState {
    /// A session that has compiled nothing yet.
    pub fn new() -> (r: Self)
        ensures
            r.dirty,
            r.document_main is None,
            !r.has_document,
    {
        SessionState { dirty: true, document_main: None, has_document: false }
    }

    /// A file, font or library image changed.
    pub fn touch(&mut self)
        ensures
            *final(self) == (SessionState { dirty: true, ..*old(self) }),
    {
        self.dirty = true;
    }

    /// Whether a request about main file `main` must compile first: after a
    /// change, or when the document is of another main file.
    pub fn needs_compile(&self, main: u16) -> (r: bool)
        ensures
            r == (self.dirty || self.document_main != Some(main)),
    {
        self.dirty || !matches!(self.document_main, Some(m) if m == main)
    }

    /// A compilation of `main` finished, with a document or not; either way
    /// the session is no longer dirty.
    pub fn compiled(&mut self, main: u16, ok: bool)
        ensures
            *final(self) == (SessionState { dirty: false, document_main: Some(main), has_document: ok }),
    {
        self.dirty = false;
        self.document_main = Some(main);
        self.has_document = ok;
    }

    /// Whether there is a document to use for requests while `main` is the
    /// main file: one compiled from it.
    pub fn cached(&self, main: u16) -> (r: bool)
        ensures
            r == (self.document_main == Some(main) && self.has_document),
    {
        match self.document_main {
            Some(m) => m == main && self.has_document,
            None => false,
        }
    }
}

/// After a compilation of `main`, requests about it use that outcome
/// without compiling again, until something changes; any change makes the
/// next request compile.
pub proof fn law_compile_until_changed(s: SessionState, main: u16, ok: bool)
    ensures
        ({
            let c = SessionState { dirty: false, document_main: Some(main), has_document: ok };
            let t = SessionState { dirty: true, ..c };
            &&& !(c.dirty || c.document_main != Some(main))
            &&& (t.dirty || t.document_main != Some(main))
            &&& (c.document_main == Some(main) && c.has_document) == ok
        }),
{
}

/// Copies a string's texts, keeping those that `keep` holds.
fn filter_texts(v: &Vec<String>, keep: &Vec<String>) -> (r: Vec<String>)
    ensures
        texts_of(r@) == texts_of(v@).filter(in_names(names_of(keep@))),
{
    let ghost p = in_names(names_of(keep@));
    let mut out: Vec<String> = Vec::new();
    let mut i: usize = 0;
    while i < v.len()
        invariant
            0 <= i <= v@.len(),
            p == in_names(names_of(keep@)),
            texts_of(out@) == texts_of(v@.take(i as int)).filter(p),
        decreases v@.len() - i,
    {
        assert(texts_of(v@.take(i + 1)) =~= texts_of(v@.take(i as int)).push(v@[i as int]@));
        proof {
            texts_of(v@.take(i as int)).lemma_filter_push(v@[i as int]@, p);
        }
        if contains_text(keep, v[i].as_str()) {
            let ghost before = out@;
            out.push(v[i].clone());
            assert(texts_of(out@) =~= texts_of(before).push(v@[i as int]@));
        }
        i += 1;
    }
    assert(v@.take(i as int) == v@);
    out
}

fn contains_text(v: &Vec<String>, t: &str) -> (r: bool)
    ensures
        r == names_of(v@).contains(t@),
{
    let mut i: usize = 0;
    while i < v.len()
        invariant
            0 <= i <= v@.len(),
            forall|j: int| 0 <= j < i ==> (#[trigger] v@[j])@ != t@,
        decreases v@.len() - i,
    {
        if str_eq(v[i].as_str(), t) {
            assert(v@[i as int]@ == t@);
            return true;
        }
        i += 1;
    }
    false
}

proof fn lemma_bytes_map_restrict(s: Seq<(String, Vec<u8>)>, f: Seq<(String, Vec<u8>)>, names: Set<Seq<char>>)
    requires
        f == s.filter(entry_in(names)),
    ensures
        bytes_map(f) == bytes_map(s).restrict(names),
    decreases s.len(),
{
    let p = entry_in(names);
    if s.len() == 0 {
        reveal(Seq::filter);
        assert(bytes_map(s).restrict(names) =~= Map::empty());
    } else {
        let t = s.drop_last();
        assert(s == t.push(s.last()));
        t.lemma_filter_push(s.last(), p);
        lemma_bytes_map_restrict(t, t.filter(p), names);
        if p(s.last()) {
            assert(f.drop_last() == t.filter(p));
            assert(f.last() == s.last());
            assert(bytes_map(f) =~= bytes_map(s).restrict(names));
        } else {
            assert(bytes_map(f) =~= bytes_map(s).restrict(names));
        }
    }
}

} // verus!
