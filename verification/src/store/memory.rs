//! A standalone in-memory store that remembers the file path it was opened
//! under.  The surrounding application serialises it to that path as a
//! whole-file snapshot and reads it back; the store itself only holds the
//! mapping.

use vstd::prelude::*;

use crate::bytemap::ByteMap;

verus! {

/// An in-memory key-value store bound to a snapshot location.
pub struct KeyValueStore {
    data: ByteMap<Vec<u8>>,
    /// Where the application keeps this store's snapshot.
    pub file_path: String,
}

impl KeyValueStore {
    /// The snapshot location the store was opened under.
    pub closed spec fn path(&self) -> Seq<char> {
        self.file_path@
    }

    /// The mapping the store currently holds.
    pub closed spec fn kv(&self) -> Map<Seq<u8>, Seq<u8>> {
        self.data@
    }

    /// The store's internal invariant.
    pub closed spec fn wf(&self) -> bool {
        self.data.wf()
    }

    /// An empty store bound to `file_path`.  Creating the file itself is
    /// the application's job.
    pub fn new(file_path: &str) -> (s: Self)
        ensures
            s.wf(),
            s.kv() == Map::<Seq<u8>, Seq<u8>>::empty(),
            s.path() == file_path@,
    {
        KeyValueStore { data: ByteMap::new(), file_path: file_path.to_owned() }
    }

    /// Stores `val` under `key`, returning the value it replaces.
    pub fn insert(&mut self, key: Vec<u8>, val: Vec<u8>) -> (r: Option<Vec<u8>>)
        requires
            old(self).wf(),
        ensures
            final(self).wf(),
            final(self).kv() == old(self).kv().insert(key@, val@),
            final(self).path() == old(self).path(),
            match r {
                Some(v) => old(self).kv().contains_key(key@) && v@ == old(self).kv()[key@],
                None => !old(self).kv().contains_key(key@),
            },
    {
        self.data.insert(key, val)
    }

    /// The value stored under `key`, if any.
    pub fn get(&self, key: &Vec<u8>) -> (r: Option<&Vec<u8>>)
        requires
            self.wf(),
        ensures
            match r {
                Some(v) => self.kv().contains_key(key@) && v@ == self.kv()[key@],
                None => !self.kv().contains_key(key@),
            },
    {
        self.data.get(key)
    }

    /// Removes the entry under `key`, returning its value.
    pub fn remove(&mut self, key: &Vec<u8>) -> (r: Option<Vec<u8>>)
        requires
            old(self).wf(),
        ensures
            final(self).wf(),
            final(self).kv() == old(self).kv().remove(key@),
            final(self).path() == old(self).path(),
            match r {
                Some(v) => old(self).kv().contains_key(key@) && v@ == old(self).kv()[key@],
                None => !old(self).kv().contains_key(key@),
            },
    {
        self.data.remove(key)
    }
}

} // verus!
