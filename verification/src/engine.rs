//! The narrow capability surface a storage backend offers the server: set,
//! get and remove over string keys and values.

use crate::error::Error;
use crate::kv::KvStore;
use vstd::prelude::*;

verus! {

/// KV server storage backend.
///
/// `inv` is the backend's own well-formedness; every operation preserves
/// it.  [`KvStore`] implements the trait with its full store invariant.
pub trait KvsEngine: Sized {
    /// The backend's well-formedness, preserved by every operation.
    spec fn inv(&self) -> bool;

    /// Bind `key` to `value`.
    fn set(&mut self, key: String, value: String) -> (r: Result<(), Error>)
        requires
            old(self).inv(),
        ensures
            final(self).inv(),
    ;

    /// Look `key` up.
    fn get(&mut self, key: String) -> (r: Result<Option<String>, Error>)
        requires
            old(self).inv(),
        ensures
            final(self).inv(),
    ;

    /// Erase `key`.
    fn remove(&mut self, key: String) -> (r: Result<(), Error>)
        requires
            old(self).inv(),
        ensures
            final(self).inv(),
    ;
}

impl KvsEngine for KvStore {
    open spec fn inv(&self) -> bool {
        self.wf()
    }

    fn set(&mut self, key: String, value: String) -> (r: Result<(), Error>) {
        KvStore::set(self, key, value)
    }

    fn get(&mut self, key: String) -> (r: Result<Option<String>, Error>) {
        KvStore::get(self, key)
    }

    fn remove(&mut self, key: String) -> (r: Result<(), Error>) {
        KvStore::remove(self, key)
    }
}

} // verus!
