//! The store: values kept under string keys.

use vstd::prelude::*;
use vstd::hash_map::StringHashMap;
use vstd::slice::slice_to_vec;

verus! {

/// A stored value: its bytes and an optional time to live.
#[derive(Debug, PartialEq, Eq)]
pub struct Value {
    pub data: Vec<u8>,
    pub ttl: Option<i64>,
}

/// The contents of a stored value.
pub struct ValueView {
    pub data: Seq<u8>,
    pub ttl: Option<i64>,
}

impl View for Value {
    type V = ValueView;

    open spec fn view(&self) -> ValueView {
        ValueView { data: self.data@, ttl: self.ttl }
    }
}

/// Why a read or a delete found nothing.
#[derive(Debug, Clone, Copy, PartialEq, Eq, Structural)]
pub enum StoreError {
    /// No value is stored under the key.
    NotFound,
}

/// A store of values under string keys.
pub trait Store: Sized {
    /// The values held, by key.
    spec fn contents(&self) -> Map<Seq<char>, ValueView>;

    /// An empty store.
    fn new() -> (store: Self)
        ensures
            store.contents() == Map::<Seq<char>, ValueView>::empty(),
    ;

    /// Stores `value` under `key`, in place of any value stored there before.
    fn set(&mut self, key: String, value: Value)
        ensures
            final(self).contents() == old(self).contents().insert(key@, value@),
    ;

    /// The bytes stored under `key`.
    fn get(&self, key: &str) -> (res: Result<Vec<u8>, StoreError>)
        ensures
            match res {
                Ok(data) => self.contents().contains_key(key@) && data@ == self.contents()[key@].data,
                Err(e) => !self.contents().contains_key(key@) && e == StoreError::NotFound,
            },
    ;
}

/// The store kept in memory, in a hash map.
pub struct Db {
    map: StringHashMap<Value>,
}

impl View for Db {
    type V = Map<Seq<char>, ValueView>;

    closed spec fn view(&self) -> Map<Seq<char>, ValueView> {
        self.map@.map_values(|v: Value| v@)
    }
}

impl Store for Db {
    open spec fn contents(&self) -> Map<Seq<char>, ValueView> {
        self@
    }

    fn new() -> (store: Self) {
        let store = Db { map: StringHashMap::new() };
        assert(store@ =~= Map::<Seq<char>, ValueView>::empty());
        store
    }

    fn set(&mut self, key: String, value: Value) {
        let ghost k = key@;
        let ghost v = value@;
        self.map.insert(key, value);
        assert(self@ =~= old(self)@.insert(k, v));
    }

    fn get(&self, key: &str) -> (res: Result<Vec<u8>, StoreError>) {
        match self.map.get(key) {
            Some(v) => Ok(slice_to_vec(v.data.as_slice())),
            None => Err(StoreError::NotFound),
        }
    }
}

impl Db {
    /// Removes the value stored under `key`; `NotFound` when there is none,
    /// and then the store is left as it was.
    pub fn delete(&mut self, key: &str) -> (res: Result<(), StoreError>)
        ensures
            match res {
                Ok(()) => old(self)@.contains_key(key@) && final(self)@ == old(self)@.remove(key@),
                Err(e) => !old(self)@.contains_key(key@) && final(self)@ == old(self)@
                    && e == StoreError::NotFound,
            },
    {
        if self.map.contains_key(key) {
            self.map.remove(key);
            assert(self@ =~= old(self)@.remove(key@));
            Ok(())
        } else {
            Err(StoreError::NotFound)
        }
    }
}

} // verus!
