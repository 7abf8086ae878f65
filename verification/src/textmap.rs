//! A map from texts to values.

use vstd::hash_map::StringHashMap;
use vstd::prelude::*;
use vstd::string::*;

verus! {

/// A map from texts to values, with values that can be changed in place.
pub struct TextMap<V> {
    index: StringHashMap<usize>,
    values: Vec<V>,
}

impl<V> TextMap<V> {
    /// Every key has a value of its own.
    pub closed spec fn ok(&self) -> bool {
        &&& forall|k: Seq<char>| #[trigger] self.index@.contains_key(k) ==> self.index@[k] < self.values.len()
        &&& forall|j: Seq<char>, k: Seq<char>| #[trigger] self.index@.contains_key(j) && #[trigger] self.index@.contains_key(k) && j != k ==> self.index@[j] != self.index@[k]
    }

    /// The contents.
    pub closed spec fn contents(&self) -> Map<Seq<char>, V> {
        self.index@.map_values(|i: usize| self.values@[i as int])
    }

    /// The value at a slot.
    pub closed spec fn slot_holds(&self, i: usize, key: Seq<char>) -> bool {
        self.index@.contains_key(key) && self.index@[key] == i
    }

    /// An empty map.
    pub fn new() -> (r: Self)
        ensures
            r.ok(),
            r.contents() == Map::<Seq<char>, V>::empty(),
    {
        let r = TextMap { index: StringHashMap::new(), values: Vec::new() };
        assert(r.contents() =~= Map::<Seq<char>, V>::empty());
        r
    }

    /// The slot of a key.
    pub fn find(&self, key: &str) -> (r: Option<usize>)
        requires
            self.ok(),
        ensures
            r is Some <==> self.contents().contains_key(key@),
            r matches Some(i) ==> self.slot_holds(i, key@),
    {
        match self.index.get(key) {
            Some(i) => Some(*i),
            None => None,
        }
    }

    /// The value of a key.
    pub fn get(&self, key: &str) -> (r: Option<&V>)
        requires
            self.ok(),
        ensures
            match r {
                Some(v) => self.contents().contains_key(key@) && *v == self.contents()[key@],
                None => !self.contents().contains_key(key@),
            },
    {
        match self.index.get(key) {
            Some(i) => Some(&self.values[*i]),
            None => None,
        }
    }

    /// The value at a slot, to be changed in place.
    pub(crate) fn value_mut(&mut self, i: usize, key: Ghost<Seq<char>>) -> (r: &mut V)
        requires
            old(self).ok(),
            old(self).slot_holds(i, key@),
        ensures
            *r == old(self).contents()[key@],
            final(self).contents() == old(self).contents().insert(key@, *final(r)),
            final(self).ok(),
    {
        &mut self.values[i]
    }

    /// Sets the value of a key.
    pub fn insert(&mut self, key: String, value: V)
        requires
            old(self).ok(),
        ensures
            final(self).ok(),
            final(self).contents() == old(self).contents().insert(key@, value),
    {
        let ghost before = self.contents();
        let known: Option<usize> = match self.index.get(key.as_str()) {
            Some(i) => Some(*i),
            None => None,
        };
        match known {
            Some(i) => {
                self.values.set(i, value);
            },
            None => {
                let i: usize = self.values.len();
                self.values.push(value);
                self.index.insert(key, i);
            },
        }
        assert(self.contents() =~= before.insert(key@, value));
    }
}

} // verus!
