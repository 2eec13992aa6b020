//! Lists of numbers, one for each key.

use std::collections::HashMap;

use vstd::prelude::*;

verus! {

broadcast use vstd::std_specs::hash::group_hash_axioms;

/// Lists of numbers, one for each key; the list of a key that was never used is
/// empty.
pub struct Groups {
    map: HashMap<u32, Vec<u32>>,
}

impl Groups {
    /// The list of `key`.
    pub closed spec fn of(&self, key: u32) -> Seq<u32> {
        if self.map@.contains_key(key) {
            self.map@[key]@
        } else {
            Seq::empty()
        }
    }

    /// Empty lists.
    pub fn new() -> (r: Groups)
        ensures
            forall|key: u32| #[trigger] r.of(key) == Seq::<u32>::empty(),
    {
        Groups { map: HashMap::new() }
    }

    /// Appends `x` to the list of `key`.
    pub fn push(&mut self, key: u32, x: u32)
        ensures
            forall|k: u32| #[trigger]
                final(self).of(k) == if k == key {
                    old(self).of(k).push(x)
                } else {
                    old(self).of(k)
                },
    {
        let mut list = match self.map.remove(&key) {
            Some(v) => v,
            None => Vec::new(),
        };
        assert(list@ == old(self).of(key));
        list.push(x);
        self.map.insert(key, list);
        assert forall|k: u32| #[trigger] self.of(k) == if k == key {
            old(self).of(k).push(x)
        } else {
            old(self).of(k)
        } by {}
    }

    /// How long the list of `key` is.
    pub fn len(&self, key: u32) -> (r: usize)
        ensures
            r == self.of(key).len(),
    {
        match self.map.get(&key) {
            Some(v) => v.len(),
            None => 0,
        }
    }

    /// Number `i` of the list of `key`.
    pub fn at(&self, key: u32, i: usize) -> (r: u32)
        requires
            i < self.of(key).len(),
        ensures
            r == self.of(key)[i as int],
    {
        match self.map.get(&key) {
            Some(v) => v[i],
            None => 0,
        }
    }
}

impl Clone for Groups {
    fn clone(&self) -> (r: Groups)
        ensures
            forall|key: u32| #[trigger] r.of(key) == self.of(key),
    {
        Groups { map: self.map.clone() }
    }
}

} // verus!
