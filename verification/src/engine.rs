//! The engine contract.
//!
//! The server drives any backend that offers `set`, `get` and `remove`
//! under this trait; only the log-structured [`crate::kv::KvStore`]
//! implements it here.

use vstd::prelude::*;

use crate::error::KvStoreError;

verus! {

/// A pluggable storage backend: a mutable map from string keys to
/// string values whose mutations are durable.
pub trait KvsEngine: Sized {
    /// The backend's well-formedness, established by its constructor
    /// and preserved by every operation.
    spec fn inv(&self) -> bool;

    /// What the backend holds: each live key bound to its value.
    spec fn model(&self) -> Map<Seq<char>, Seq<char>>;

    /// Binds `key` to `value`, replacing any earlier binding.
    fn set(&mut self, key: String, value: String) -> (r: Result<(), KvStoreError>)
        requires
            old(self).inv(),
        ensures
            final(self).inv(),
            r is Ok,
            final(self).model() == old(self).model().insert(key@, value@),
    ;

    /// Reads the value bound to `key`, or `None` when it is absent.
    fn get(&self, key: String) -> (r: Result<Option<String>, KvStoreError>)
        requires
            self.inv(),
        ensures
            r is Ok,
            match r {
                Ok(opt) => match opt {
                    Some(v) => self.model().contains_key(key@) && v@ == self.model()[key@],
                    None => !self.model().contains_key(key@),
                },
                Err(_) => true,
            },
    ;

    /// Unbinds `key`.  Removing an absent key is reported and changes
    /// nothing.
    fn remove(&mut self, key: String) -> (r: Result<(), KvStoreError>)
        requires
            old(self).inv(),
        ensures
            final(self).inv(),
            old(self).model().contains_key(key@) ==> r is Ok && final(self).model() == old(
                self,
            ).model().remove(key@),
            !old(self).model().contains_key(key@) ==> (r matches Err(e) && e
                is KeyNotFoundError) && final(self).model() == old(self).model(),
    ;
}

} // verus!
