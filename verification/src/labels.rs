//! An index from Typst label text to node or pool-entry ids, where a later
//! entry for the same label replaces an earlier one.

use vstd::prelude::*;

use crate::fmt::str_eq;

verus! {

/// The map that entries `s`, set one after the other, describe.
pub open spec fn label_map(s: Seq<(String, u128)>) -> Map<Seq<char>, u128>
    decreases s.len(),
{
    if s.len() == 0 {
        Map::empty()
    } else {
        label_map(s.drop_last()).insert(s.last().0@, s.last().1)
    }
}

/// Label text to id.
pub struct LabelIndex {
    entries: Vec<(String, u128)>,
}

impl View for LabelIndex {
    type V = Map<Seq<char>, u128>;

    closed spec fn view(&self) -> Map<Seq<char>, u128> {
        label_map(self.entries@)
    }
}

proof fn lemma_label_map_suffix(s: Seq<(String, u128)>, i: int, k: Seq<char>)
    requires
        0 <= i <= s.len(),
        forall|j: int| i <= j < s.len() ==> (#[trigger] s[j]).0@ != k,
    ensures
        label_map(s).contains_key(k) == label_map(s.take(i)).contains_key(k),
        label_map(s).contains_key(k) ==> label_map(s)[k] == label_map(s.take(i))[k],
    decreases s.len() - i,
{
    if i == s.len() {
        assert(s.take(i) == s);
    } else {
        let t = s.drop_last();
        assert forall|j: int| i <= j < t.len() implies (#[trigger] t[j]).0@ != k by {
            assert(t[j] == s[j]);
        }
        lemma_label_map_suffix(t, i, k);
        assert(t.take(i) == s.take(i));
    }
}

impl LabelIndex {
    /// An empty index.
    pub fn new() -> (r: Self)
        ensures
            r@ == Map::<Seq<char>, u128>::empty(),
    {
        LabelIndex { entries: Vec::new() }
    }

    /// The id stored for `label`.
    pub fn get(&self, label: &str) -> (r: Option<u128>)
        ensures
            r == (if self@.contains_key(label@) {
                Some(self@[label@])
            } else {
                None::<u128>
            }),
    {
        let ghost s = self.entries@;
        let mut i: usize = self.entries.len();
        while i > 0
            invariant
                0 <= i <= s.len(),
                s == self.entries@,
                forall|j: int| i <= j < s.len() ==> (#[trigger] s[j]).0@ != label@,
            decreases i,
        {
            if str_eq(self.entries[i - 1].0.as_str(), label) {
                proof {
                    lemma_label_map_suffix(s, i as int, label@);
                    assert(s.take(i as int).drop_last() == s.take(i - 1));
                    assert(s.take(i as int).last() == s[i - 1]);
                }
                return Some(self.entries[i - 1].1);
            }
            i -= 1;
        }
        proof {
            lemma_label_map_suffix(s, 0, label@);
        }
        None
    }

    /// Whether `label` has an id.
    pub fn contains(&self, label: &str) -> (r: bool)
        ensures
            r == self@.contains_key(label@),
    {
        self.get(label).is_some()
    }

    /// Stores `id` for `label`, replacing what it held.
    pub fn insert(&mut self, label: String, id: u128)
        ensures
            final(self)@ == old(self)@.insert(label@, id),
    {
        self.entries.push((label, id));
        assert(self.entries@.drop_last() == old(self).entries@);
    }

    /// Removes every entry.
    pub fn clear(&mut self)
        ensures
            final(self)@ == Map::<Seq<char>, u128>::empty(),
    {
        self.entries.clear();
    }
}

} // verus!
