//! The store without a log: a plain in-memory map from key to value.
//!
//! It is what a log is measured against: replaying a history of commands
//! must give the mapping that the same commands give when they are applied
//! to this map one by one.

use vstd::hash_map::StringHashMap;
use vstd::prelude::*;

verus! {

/// An in-memory key-value store.
pub struct KvStore {
    store: StringHashMap<String>,
}

impl View for KvStore {
    type V = Map<Seq<char>, Seq<char>>;

    /// The mapping from key to value that the store holds.
    closed spec fn view(&self) -> Map<Seq<char>, Seq<char>> {
        self.store@.map_values(|value: String| value@)
    }
}

impl KvStore {
    /// An empty store.
    pub fn new() -> (store: KvStore)
        ensures
            store@ == Map::<Seq<char>, Seq<char>>::empty(),
    {
        let store = KvStore { store: StringHashMap::new() };
        assert(store@ =~= Map::<Seq<char>, Seq<char>>::empty());
        store
    }

    /// Binds `key` to `value`, replacing any earlier binding.
    pub fn set(&mut self, key: String, value: String)
        ensures
            final(self)@ == old(self)@.insert(key@, value@),
    {
        let ghost k = key@;
        let ghost v = value@;
        self.store.insert(key, value);
        assert(self@ =~= old(self)@.insert(k, v));
    }

    /// The value of `key`, or `None` where the key is not bound. The store
    /// stays as it is.
    pub fn get(&mut self, key: String) -> (found: Option<String>)
        ensures
            final(self)@ == old(self)@,
            match found {
                Some(value) => old(self)@.contains_key(key@) && value@ == old(self)@[key@],
                None => !old(self)@.contains_key(key@),
            },
    {
        match self.store.get(key.as_str()) {
            Some(value) => Some(value.clone()),
            None => None,
        }
    }

    /// Unbinds `key` and returns the value it had, or `None` where the key
    /// was not bound.
    pub fn remove(&mut self, key: String) -> (removed: Option<String>)
        ensures
            final(self)@ == old(self)@.remove(key@),
            match removed {
                Some(value) => old(self)@.contains_key(key@) && value@ == old(self)@[key@],
                None => !old(self)@.contains_key(key@),
            },
    {
        let removed = match self.store.get(key.as_str()) {
            Some(value) => Some(value.clone()),
            None => None,
        };
        self.store.remove(key.as_str());
        assert(self@ =~= old(self)@.remove(key@));
        removed
    }
}

} // verus!
