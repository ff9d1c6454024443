//! A map from names that remembers the order its keys came in.

use std::collections::HashMap;
use vstd::prelude::*;

verus! {

broadcast use vstd::std_specs::hash::group_hash_axioms;

pub struct Table<T> {
    pub map: HashMap<u32, T>,
    /// Every key, as often as it was written.
    pub keys: Vec<u32>,
}

impl<T: View> View for Table<T> {
    type V = Map<u32, T::V>;

    open spec fn view(&self) -> Map<u32, T::V> {
        Map::new(|k: u32| self.map@.contains_key(k), |k: u32| self.map@[k]@)
    }
}

impl<T: View> Table<T> {
    pub fn new() -> (t: Table<T>)
        ensures
            t@ == Map::<u32, T::V>::empty(),
            t.keys@ == Seq::<u32>::empty(),
    {
        let t: Table<T> = Table { map: HashMap::new(), keys: Vec::new() };
        proof {
            assert(t@ =~= Map::<u32, T::V>::empty());
        }
        t
    }

    pub fn get(&self, k: u32) -> (r: Option<&T>)
        ensures
            match r {
                Some(v) => self@.contains_key(k) && v@ == self@[k],
                None => !self@.contains_key(k),
            },
    {
        self.map.get(&k)
    }

    pub fn contains(&self, k: u32) -> (r: bool)
        ensures
            r == self@.contains_key(k),
    {
        self.map.contains_key(&k)
    }

    pub fn insert(&mut self, k: u32, v: T)
        ensures
            final(self)@ == old(self)@.insert(k, v@),
            final(self).keys@ == old(self).keys@.push(k),
    {
        self.map.insert(k, v);
        self.keys.push(k);
        proof {
            assert(self@ =~= old(self)@.insert(k, v@));
        }
    }
}

} // verus!
