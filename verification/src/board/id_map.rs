//! A map keyed by object names of both kinds.

use crate::board::common::ObjectIdentifier;
use std::collections::HashMap;
use vstd::prelude::*;

verus! {

/// A map from object names to values. Local and global names are kept
/// apart, so that a local and a global name with the same number never meet.
pub struct IdMap<V> {
    local: HashMap<u64, V>,
    global: HashMap<u64, V>,
}

impl<V> View for IdMap<V> {
    type V = Map<ObjectIdentifier, V>;

    closed spec fn view(&self) -> Map<ObjectIdentifier, V> {
        Map::new(
            |id: ObjectIdentifier|
                match id {
                    ObjectIdentifier::Local(n) => self.local@.contains_key(n),
                    ObjectIdentifier::Global(n) => self.global@.contains_key(n),
                },
            |id: ObjectIdentifier|
                match id {
                    ObjectIdentifier::Local(n) => self.local@[n],
                    ObjectIdentifier::Global(n) => self.global@[n],
                },
        )
    }
}

impl<V> IdMap<V> {
    pub fn new() -> (map: IdMap<V>)
        ensures
            map@ == Map::<ObjectIdentifier, V>::empty(),
    {
        let map = IdMap { local: HashMap::new(), global: HashMap::new() };
        assert(map@ =~= Map::<ObjectIdentifier, V>::empty());
        map
    }

    pub fn contains_key(&self, id: &ObjectIdentifier) -> (found: bool)
        ensures
            found == self@.contains_key(*id),
    {
        match id {
            ObjectIdentifier::Local(n) => self.local.contains_key(n),
            ObjectIdentifier::Global(n) => self.global.contains_key(n),
        }
    }

    pub fn get(&self, id: &ObjectIdentifier) -> (value: Option<&V>)
        ensures
            match value {
                Some(v) => self@.contains_key(*id) && *v == self@[*id],
                None => !self@.contains_key(*id),
            },
    {
        match id {
            ObjectIdentifier::Local(n) => self.local.get(n),
            ObjectIdentifier::Global(n) => self.global.get(n),
        }
    }

    /// Puts `value` under `id` and hands back what was there before.
    pub fn insert(&mut self, id: ObjectIdentifier, value: V) -> (previous: Option<V>)
        ensures
            final(self)@ == old(self)@.insert(id, value),
            match previous {
                Some(v) => old(self)@.contains_key(id) && v == old(self)@[id],
                None => !old(self)@.contains_key(id),
            },
    {
        let previous = match id {
            ObjectIdentifier::Local(n) => self.local.insert(n, value),
            ObjectIdentifier::Global(n) => self.global.insert(n, value),
        };
        assert(self@ =~= old(self)@.insert(id, value));
        previous
    }

    /// Takes out what is under `id` and hands it back.
    pub fn remove(&mut self, id: &ObjectIdentifier) -> (previous: Option<V>)
        ensures
            final(self)@ == old(self)@.remove(*id),
            match previous {
                Some(v) => old(self)@.contains_key(*id) && v == old(self)@[*id],
                None => !old(self)@.contains_key(*id),
            },
    {
        let previous = match id {
            ObjectIdentifier::Local(n) => self.local.remove(n),
            ObjectIdentifier::Global(n) => self.global.remove(n),
        };
        assert(self@ =~= old(self)@.remove(*id));
        previous
    }
}

} // verus!
