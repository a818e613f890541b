//! The engine capability interface: the contract any storage backend must
//! satisfy to serve the dispatch loop.
//!
//! A backend exposes point lookups, upserts and deletions over one visible
//! key-value state. A `get` miss is `Ok(None)`, never an error; a `remove`
//! miss is an error of kind `KeyNotFound` — that asymmetry is part of the
//! contract. A backend whose `reliable` holds never fails on inputs the
//! contract owes success for; the log-structured [`KvStore`] is such a
//! backend, proven here.

use vstd::prelude::*;

use crate::errors::MyError;
use crate::store::KvStore;

verus! {

pub trait KvsEngine: Sized {
    /// The backend's internal invariant.
    spec fn inv(&self) -> bool;

    /// The visible key-value state.
    spec fn state(&self) -> Map<Seq<char>, Seq<char>>;

    /// True of backends that never fail on calls the contract owes success
    /// for.
    spec fn reliable(&self) -> bool;

    /// Read the value of a key; a miss is `Ok(None)`.
    fn get(&mut self, key: String) -> (r: Result<Option<String>, MyError>)
        requires
            old(self).inv(),
        ensures
            final(self).inv(),
            final(self).state() == old(self).state(),
            final(self).reliable() == old(self).reliable(),
            old(self).reliable() ==> r is Ok,
            r matches Ok(ov) ==> (if old(self).state().contains_key(key@) {
                ov matches Some(v) && v@ == old(self).state()[key@]
            } else {
                ov is None
            }),
    ;

    /// Bind a key to a value, unconditionally.
    fn set(&mut self, key: String, value: String) -> (r: Result<(), MyError>)
        requires
            old(self).inv(),
        ensures
            final(self).inv(),
            final(self).reliable() == old(self).reliable(),
            old(self).reliable() ==> r is Ok,
            r is Ok ==> final(self).state() == old(self).state().insert(key@, value@),
            r is Err ==> final(self).state() == old(self).state(),
    ;

    /// Unbind a key; a miss fails with `KeyNotFound`.
    fn remove(&mut self, key: String) -> (r: Result<(), MyError>)
        requires
            old(self).inv(),
        ensures
            final(self).inv(),
            final(self).reliable() == old(self).reliable(),
            !old(self).state().contains_key(key@) ==> (r matches Err(MyError::KeyNotFound)),
            old(self).reliable() && old(self).state().contains_key(key@) ==> r is Ok,
            r is Ok ==> old(self).state().contains_key(key@) && final(self).state() == old(
                self,
            ).state().remove(key@),
            r is Err ==> final(self).state() == old(self).state(),
    ;
}

impl KvsEngine for KvStore {
    open spec fn inv(&self) -> bool {
        self.wf()
    }

    open spec fn state(&self) -> Map<Seq<char>, Seq<char>> {
        self.kv()
    }

    open spec fn reliable(&self) -> bool {
        true
    }

    fn get(&mut self, key: String) -> (r: Result<Option<String>, MyError>) {
        KvStore::get(self, &key)
    }

    fn set(&mut self, key: String, value: String) -> (r: Result<(), MyError>) {
        KvStore::set(self, key, value)
    }

    fn remove(&mut self, key: String) -> (r: Result<(), MyError>) {
        KvStore::remove(self, &key)
    }
}

} // verus!
