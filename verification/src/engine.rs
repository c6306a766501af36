//! The storage engine contract.
//!
//! Server code is polymorphic over this trait, so an alternate backend can
//! stand in for the log engine; only these three operations are assumed.

use vstd::prelude::*;

use crate::error::KvsError;
use crate::store::KvStore;

verus! {

/// A key/value storage engine: a visible mapping from string keys to
/// string values, read and changed by three operations.
pub trait KvsEngine: Sized {
    /// The engine's visible key/value mapping.
    open spec fn kv(&self) -> Map<Seq<char>, Seq<char>> {
        Map::empty()
    }

    /// The engine's internal invariant.
    open spec fn inv(&self) -> bool {
        true
    }

    /// Sets the value of a key, overwriting any previous value.
    fn set(&mut self, key: String, value: String) -> (r: Result<(), KvsError>)
        requires
            old(self).inv(),
        ensures
            final(self).inv(),
            r is Ok ==> final(self).kv() == old(self).kv().insert(key@, value@),
            r is Err ==> final(self).kv() == old(self).kv(),
    ;

    /// Gets the value of a key; `None` means the key is absent.
    fn get(&self, key: String) -> (r: Result<Option<String>, KvsError>)
        requires
            self.inv(),
        ensures
            r matches Ok(v) ==> match v {
                Some(s) => self.kv().contains_key(key@) && s@ == self.kv()[key@],
                None => !self.kv().contains_key(key@),
            },
    ;

    /// Removes a key; removing an absent key fails.
    fn remove(&mut self, key: String) -> (r: Result<(), KvsError>)
        requires
            old(self).inv(),
        ensures
            final(self).inv(),
            r is Ok ==> old(self).kv().contains_key(key@) && final(self).kv() == old(
                self,
            ).kv().remove(key@),
            r is Err ==> final(self).kv() == old(self).kv(),
    ;
}

impl KvsEngine for KvStore {
    open spec fn kv(&self) -> Map<Seq<char>, Seq<char>> {
        self@
    }

    open spec fn inv(&self) -> bool {
        self.wf()
    }

    fn set(&mut self, key: String, value: String) -> (r: Result<(), KvsError>) {
        KvStore::set(self, key, value)
    }

    fn get(&self, key: String) -> (r: Result<Option<String>, KvsError>) {
        KvStore::get(self, key)
    }

    fn remove(&mut self, key: String) -> (r: Result<(), KvsError>) {
        KvStore::remove(self, key)
    }
}

} // verus!
