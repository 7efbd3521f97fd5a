//! An alternative engine: a plain in-memory map.  Durability — writing the
//! map out as a whole-file snapshot and reading it back in — is the
//! surrounding application's job; the engine itself starts empty and holds
//! the live mapping.

use vstd::prelude::*;

use crate::bytemap::ByteMap;
use crate::bytes::{bytes_eq, contains_byte, valid_key, LF, TAB};
use crate::storage::kvstore::{Backend, StoreError};
use crate::storage::log_storage::tombstone_bytes;

verus! {

/// A map-backed engine with no durable state of its own.
pub struct HashMapBackend {
    data: ByteMap<Vec<u8>>,
}

impl Backend for HashMapBackend {
    /// Every stored key was accepted by `insert`, so every stored key is
    /// valid.
    closed spec fn wf(&self) -> bool {
        &&& self.data.wf()
        &&& forall|k: Seq<u8>| self.data@.contains_key(k) ==> valid_key(k)
    }

    closed spec fn kv(&self) -> Map<Seq<u8>, Seq<u8>> {
        self.data@
    }

    /// The engine starts empty whatever bytes its location held; the
    /// application restores a snapshot by replaying its pairs through
    /// `insert`.
    open spec fn init_kv(content: Seq<u8>) -> Map<Seq<u8>, Seq<u8>> {
        Map::empty()
    }

    fn new(_content: Vec<u8>) -> (s: Self) {
        HashMapBackend { data: ByteMap::new() }
    }

    fn insert(&mut self, key: Vec<u8>, val: Vec<u8>) -> (r: Result<Option<Vec<u8>>, StoreError>) {
        if contains_byte(&key, TAB) || contains_byte(&key, LF) {
            return Err(StoreError::InvalidKey);
        }
        let tomb = tombstone_bytes();
        if contains_byte(&val, TAB) || contains_byte(&val, LF) || bytes_eq(&val, &tomb) {
            return Err(StoreError::InvalidValue);
        }
        let prev = self.data.insert(key, val);
        Ok(prev)
    }

    fn get(&self, key: &Vec<u8>) -> (r: Option<Vec<u8>>) {
        match self.data.get(key) {
            Some(v) => {
                let mut copy: Vec<u8> = Vec::new();
                let mut i: usize = 0;
                while i < v.len()
                    invariant
                        i <= v@.len(),
                        copy@ == v@.take(i as int),
                    decreases v@.len() - i,
                {
                    copy.push(v[i]);
                    i = i + 1;
                }
                proof {
                    assert(copy@ =~= v@);
                }
                Some(copy)
            },
            None => None,
        }
    }

    fn remove(&mut self, key: &Vec<u8>) -> (r: Option<Vec<u8>>) {
        let r = self.data.remove(key);
        r
    }

    /// The application persists the snapshot; accepting the writes is all
    /// that is asked of the engine here.
    fn flush(&self) -> (r: Result<(), StoreError>) {
        Ok(())
    }
}

} // verus!
