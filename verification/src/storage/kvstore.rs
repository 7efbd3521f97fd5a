//! The storage interface every engine satisfies, and the façade that
//! delegates to whichever engine was selected at construction time.

use vstd::prelude::*;

use crate::bytes::valid_key;
use crate::log_format::valid_value;

verus! {

/// Why a write was rejected at the interface boundary.  Keys and values
/// embedding the record separator or terminator would corrupt the log, and
/// the tombstone sentinel as a value would read back as a deletion, so all
/// engines reject them up front instead of storing them.
#[derive(Clone, Copy, Debug, PartialEq, Eq, Structural)]
pub enum StoreError {
    /// The key embeds a separator or terminator byte.
    InvalidKey,
    /// The value embeds a separator or terminator byte, or is the reserved
    /// deletion sentinel.
    InvalidValue,
}

impl StoreError {
    /// A human-readable account of the rejection.
    pub fn message(&self) -> (r: &'static str)
        ensures
            *self == StoreError::InvalidKey ==> r@ == "key contains a tab or newline"@,
            *self == StoreError::InvalidValue ==> r@
                == "value contains a tab or newline, or is the reserved sentinel"@,
    {
        match self {
            StoreError::InvalidKey => "key contains a tab or newline",
            StoreError::InvalidValue => "value contains a tab or newline, or is the reserved sentinel",
        }
    }
}

/// The bytes an optional owned value holds.
pub open spec fn opt_bytes(o: Option<Vec<u8>>) -> Option<Seq<u8>> {
    match o {
        Some(v) => Some(v@),
        None => None,
    }
}

/// The value a mapping holds under `k`, if any: what `get` must return, and
/// what `insert` and `remove` must report as the value they replaced.
pub open spec fn prev_of(m: Map<Seq<u8>, Seq<u8>>, k: Seq<u8>) -> Option<Seq<u8>> {
    if m.contains_key(k) {
        Some(m[k])
    } else {
        None
    }
}

/// The capability contract every storage engine satisfies.  An engine is a
/// mapping from byte-vector keys to byte-vector values; construction derives
/// the starting mapping from the engine's durable content, and every
/// operation's effect on the mapping is fixed here, uniformly across
/// engines.
pub trait Backend: Sized {
    /// The engine's internal invariant.
    spec fn wf(&self) -> bool;

    /// The key-value mapping the engine currently holds.
    spec fn kv(&self) -> Map<Seq<u8>, Seq<u8>>;

    /// The mapping an engine starts from when opened over durable content.
    spec fn init_kv(content: Seq<u8>) -> Map<Seq<u8>, Seq<u8>>;

    /// Opens an engine over the durable bytes read from its location.
    fn new(content: Vec<u8>) -> (s: Self)
        ensures
            s.wf(),
            s.kv() == Self::init_kv(content@),
    ;

    /// Inserts or overwrites, returning the value previously held under the
    /// key, or the reason the pair was rejected.
    fn insert(&mut self, key: Vec<u8>, val: Vec<u8>) -> (r: Result<Option<Vec<u8>>, StoreError>)
        requires
            old(self).wf(),
        ensures
            final(self).wf(),
            valid_key(key@) && valid_value(val@) ==> {
                &&& final(self).kv() == old(self).kv().insert(key@, val@)
                &&& r matches Ok(prev) && opt_bytes(prev) == prev_of(old(self).kv(), key@)
            },
            !valid_key(key@) ==> {
                &&& final(self).kv() == old(self).kv()
                &&& r == Result::<Option<Vec<u8>>, StoreError>::Err(StoreError::InvalidKey)
            },
            valid_key(key@) && !valid_value(val@) ==> {
                &&& final(self).kv() == old(self).kv()
                &&& r == Result::<Option<Vec<u8>>, StoreError>::Err(StoreError::InvalidValue)
            },
    ;

    /// The value currently held under `key`, if the key is live.
    fn get(&self, key: &Vec<u8>) -> (r: Option<Vec<u8>>)
        requires
            self.wf(),
        ensures
            opt_bytes(r) == prev_of(self.kv(), key@),
    ;

    /// Marks the key deleted, returning the value it held.
    fn remove(&mut self, key: &Vec<u8>) -> (r: Option<Vec<u8>>)
        requires
            old(self).wf(),
        ensures
            final(self).wf(),
            final(self).kv() == old(self).kv().remove(key@),
            opt_bytes(r) == prev_of(old(self).kv(), key@),
    ;

    /// Makes all accepted writes durable; a no-op for engines that are
    /// durable per write.
    fn flush(&self) -> (r: Result<(), StoreError>)
        requires
            self.wf(),
        ensures
            r is Ok,
    ;
}

/// A thin generic wrapper over whichever engine is active: every operation
/// is a direct delegation.
pub struct KeyValueStore<B: Backend> {
    backend: B,
}

impl<B: Backend> KeyValueStore<B> {
    /// The active engine's invariant.
    pub closed spec fn wf(&self) -> bool {
        self.backend.wf()
    }

    /// The mapping the store currently holds.
    pub closed spec fn kv(&self) -> Map<Seq<u8>, Seq<u8>> {
        self.backend.kv()
    }

    /// Opens a store over the durable bytes read from its location.
    pub fn new(content: Vec<u8>) -> (s: Self)
        ensures
            s.wf(),
            s.kv() == B::init_kv(content@),
    {
        KeyValueStore { backend: B::new(content) }
    }

    /// Inserts or overwrites, returning the value previously held under the
    /// key, or the reason the pair was rejected.
    pub fn insert(&mut self, key: Vec<u8>, val: Vec<u8>) -> (r: Result<
        Option<Vec<u8>>,
        StoreError,
    >)
        requires
            old(self).wf(),
        ensures
            final(self).wf(),
            valid_key(key@) && valid_value(val@) ==> {
                &&& final(self).kv() == old(self).kv().insert(key@, val@)
                &&& r matches Ok(prev) && opt_bytes(prev) == prev_of(old(self).kv(), key@)
            },
            !valid_key(key@) ==> {
                &&& final(self).kv() == old(self).kv()
                &&& r == Result::<Option<Vec<u8>>, StoreError>::Err(StoreError::InvalidKey)
            },
            valid_key(key@) && !valid_value(val@) ==> {
                &&& final(self).kv() == old(self).kv()
                &&& r == Result::<Option<Vec<u8>>, StoreError>::Err(StoreError::InvalidValue)
            },
    {
        self.backend.insert(key, val)
    }

    /// The value currently held under `key`, if the key is live.
    pub fn get(&self, key: &Vec<u8>) -> (r: Option<Vec<u8>>)
        requires
            self.wf(),
        ensures
            opt_bytes(r) == prev_of(self.kv(), key@),
    {
        self.backend.get(key)
    }

    /// Marks the key deleted, returning the value it held.
    pub fn remove(&mut self, key: &Vec<u8>) -> (r: Option<Vec<u8>>)
        requires
            old(self).wf(),
        ensures
            final(self).wf(),
            final(self).kv() == old(self).kv().remove(key@),
            opt_bytes(r) == prev_of(old(self).kv(), key@),
    {
        self.backend.remove(key)
    }

    /// Makes all accepted writes durable.
    pub fn flush(&mut self) -> (r: Result<(), StoreError>)
        requires
            old(self).wf(),
        ensures
            *final(self) == *old(self),
            r is Ok,
    {
        self.backend.flush()
    }
}

} // verus!
