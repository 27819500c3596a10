//! A string-keyed index held in a hash map.

use vstd::prelude::*;

verus! {

/// An index from strings to positions, kept in a `hashbrown` map.
#[verifier::external_body]
pub struct KeyIndex {
    map: hashbrown::HashMap<String, usize>,
}

/// The pairs that a `KeyIndex` holds.
pub uninterp spec fn index_contents(m: KeyIndex) -> Map<Seq<char>, usize>;

impl KeyIndex {
    /// Relies on `hashbrown::HashMap::new`: the map starts empty.
    #[verifier::external_body]
    pub(crate) fn new() -> (r: KeyIndex)
        ensures
            forall|k: Seq<char>| !#[trigger] index_contents(r).dom().contains(k),
    {
        KeyIndex { map: hashbrown::HashMap::new() }
    }

    /// Relies on `hashbrown::HashMap::get`: the value stored under `k`, if
    /// any (`String`'s `Hash` and `Eq` agree with equality of contents).
    #[verifier::external_body]
    pub(crate) fn get(&self, k: &str) -> (r: Option<usize>)
        ensures
            r == (if index_contents(*self).dom().contains(k@) {
                Some(index_contents(*self)[k@])
            } else {
                None
            }),
    {
        self.map.get(k).copied()
    }

    /// Relies on `hashbrown::HashMap::insert`: `k` now maps to `v`, every
    /// other key keeps its value.
    #[verifier::external_body]
    pub(crate) fn insert(&mut self, k: String, v: usize)
        ensures
            index_contents(*final(self)) == index_contents(*old(self)).insert(k@, v),
    {
        self.map.insert(k, v);
    }
}

} // verus!
