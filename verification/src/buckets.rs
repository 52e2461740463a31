//! The maps that the store keeps its nodes and its prefixes in.
//!
//! Identifiers are computed, not handed out, so a map from identifier to
//! content is all the storage that the trie needs. The map is kept as one
//! bucket for each length, and within a bucket by the number that the bits
//! of the identifier spell.

use vstd::prelude::*;
use std::collections::HashMap;
use crate::path::{Path, path};

verus! {

broadcast use vstd::std_specs::hash::group_hash_axioms;

/// A map from paths of up to a greatest length to values.
pub struct Buckets<V> {
    maps: Vec<HashMap<u128, V>>,
}

impl<V> View for Buckets<V> {
    type V = Map<Path, V>;

    closed spec fn view(&self) -> Map<Path, V> {
        Map::new(
            |p: Path|
                p.len < self.maps.len() && p.value <= u128::MAX
                    && self.maps[p.len as int]@.contains_key(p.value as u128),
            |p: Path| self.maps[p.len as int]@[p.value as u128],
        )
    }
}

impl<V> Buckets<V> {
    /// The greatest length of a path that the map takes.
    pub closed spec fn max_len(self) -> nat {
        (self.maps.len() - 1) as nat
    }

    /// There is a bucket for the empty path at least.
    pub closed spec fn wf(self) -> bool {
        self.maps.len() >= 1
    }

    /// An empty map for paths of up to `max_len` bits.
    pub fn new(max_len: u8) -> (r: Self)
        ensures
            r.wf(),
            r.max_len() == max_len,
            r@ == Map::<Path, V>::empty(),
    {
        let mut maps: Vec<HashMap<u128, V>> = Vec::new();
        let mut i: usize = 0;
        while i <= max_len as usize
            invariant
                i <= max_len + 1,
                maps.len() == i,
                forall|j: int| 0 <= j < maps.len() ==> (#[trigger] maps[j])@ == Map::<u128, V>::empty(),
            decreases max_len + 1 - i,
        {
            maps.push(HashMap::new());
            i += 1;
        }
        let r = Buckets { maps };
        proof {
            assert(r@ =~= Map::<Path, V>::empty());
        }
        r
    }

    /// The value at the path of length `len` whose bits spell `value`.
    pub fn get(&self, len: u8, value: u128) -> (r: Option<&V>)
        requires
            self.wf(),
            len <= self.max_len(),
        ensures
            match r {
                Some(v) => self@.contains_key(path(value as nat, len as nat))
                    && *v == self@[path(value as nat, len as nat)],
                None => !self@.contains_key(path(value as nat, len as nat)),
            },
    {
        self.maps[len as usize].get(&value)
    }

    /// Whether there is a value at the path of length `len` whose bits spell
    /// `value`.
    pub fn contains(&self, len: u8, value: u128) -> (r: bool)
        requires
            self.wf(),
            len <= self.max_len(),
        ensures
            r == self@.contains_key(path(value as nat, len as nat)),
    {
        self.maps[len as usize].contains_key(&value)
    }

    /// Puts a value at the path of length `len` whose bits spell `value`, in
    /// place of the one that may be there.
    pub fn insert(&mut self, len: u8, value: u128, v: V)
        requires
            old(self).wf(),
            len <= old(self).max_len(),
        ensures
            final(self).wf(),
            final(self).max_len() == old(self).max_len(),
            final(self)@ == old(self)@.insert(path(value as nat, len as nat), v),
    {
        let ghost before = self.maps@;
        let bucket = &mut self.maps[len as usize];
        bucket.insert(value, v);
        proof {
            assert(self.maps@.len() == before.len());
            assert(self@ =~= old(self)@.insert(path(value as nat, len as nat), v));
        }
    }
}

} // verus!
