//! The unique index: at most one id per key.
use crate::keymap::{id_entries, id_map_clear, id_map_get, id_map_insert, id_map_new, id_map_remove};
use ahash::AHashMap;
use vstd::prelude::*;

verus! {

/// The failure of an insertion into a unique index: the key is taken.
#[derive(Debug, Clone, Copy, PartialEq, Eq, Structural)]
pub struct Conflict {
    /// The id that holds the key.
    pub holder: usize,
}

/// A unique index from keys to ids. Its model is that map.
pub struct UniqueIndex {
    map: AHashMap<Vec<u64>, usize>,
}

impl View for UniqueIndex {
    type V = Map<Seq<u64>, usize>;

    closed spec fn view(&self) -> Map<Seq<u64>, usize> {
        id_entries(self.map)
    }
}

/// The id filed under `key`, if any.
pub open spec fn holder(ids: Map<Seq<u64>, usize>, key: Seq<u64>) -> Option<usize> {
    if ids.contains_key(key) {
        Some(ids[key])
    } else {
        None
    }
}

impl UniqueIndex {
    /// An index without entries.
    pub fn new() -> (index: UniqueIndex)
        ensures
            index@ == Map::<Seq<u64>, usize>::empty(),
    {
        UniqueIndex { map: id_map_new() }
    }

    /// The id filed under `key`, if any.
    pub fn lookup(&self, key: &Vec<u64>) -> (out: Option<usize>)
        ensures
            out == holder(self@, key@),
    {
        id_map_get(&self.map, key)
    }

    /// Whether filing a record under `key` would break uniqueness.
    pub fn would_conflict(&self, key: &Vec<u64>) -> (taken: bool)
        ensures
            taken == self@.contains_key(key@),
    {
        id_map_get(&self.map, key).is_some()
    }

    /// Files `id` under `key` unless the key is taken; a taken key leaves the
    /// index unchanged and reports its holder.
    pub fn insert_if_absent(&mut self, key: Vec<u64>, id: usize) -> (out: Result<(), Conflict>)
        ensures
            match out {
                Ok(_) => !old(self)@.contains_key(key@) && final(self)@ == old(self)@.insert(
                    key@,
                    id,
                ),
                Err(conflict) => old(self)@.contains_key(key@) && conflict.holder == old(self)@[key@]
                    && final(self)@ == old(self)@,
            },
    {
        match id_map_get(&self.map, &key) {
            Some(holder) => Err(Conflict { holder }),
            None => {
                id_map_insert(&mut self.map, key, id);
                Ok(())
            },
        }
    }

    /// Drops the entry of `key`, if there is one.
    pub fn remove(&mut self, key: &Vec<u64>)
        ensures
            final(self)@ == old(self)@.remove(key@),
    {
        id_map_remove(&mut self.map, key);
    }

    /// Drops every entry.
    pub fn clear(&mut self)
        ensures
            final(self)@ == Map::<Seq<u64>, usize>::empty(),
    {
        id_map_clear(&mut self.map);
    }
}

} // verus!
