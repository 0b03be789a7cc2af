//! The pluggable engine interface and the sled-backed engine.

use vstd::prelude::*;

use crate::error::KvsError;

verus! {

/// Trait for a key/value storage engine: the three operations the
/// command-line and network collaborators drive.
///
/// Each engine brings its own invariant; every operation preserves it.
pub trait KvsEngine: Sized {
    /// The engine's own well-formedness condition.
    spec fn inv(&self) -> bool;

    /// Sets the value of a string key to a string. If the key already
    /// exists, the previous value is overwritten.
    fn set(&mut self, key: String, value: String) -> (r: Result<(), KvsError>)
        requires
            old(self).inv(),
        ensures
            final(self).inv(),
    ;

    /// Gets the string value of a given string key, `None` when the key
    /// does not exist.
    fn get(&mut self, key: String) -> (r: Result<Option<String>, KvsError>)
        requires
            old(self).inv(),
        ensures
            final(self).inv(),
    ;

    /// Removes a given key; `KeyNotFound` when the key does not exist.
    fn remove(&mut self, key: String) -> (r: Result<(), KvsError>)
        requires
            old(self).inv(),
        ensures
            final(self).inv(),
    ;
}

#[verifier::external_type_specification]
#[verifier::external_body]
pub struct ExDb(sled::Db);

/// Relies on `sled::Db::clone`: `Db` is a shared handle; a clone refers
/// to the same tree.
pub assume_specification[ <sled::Db as Clone>::clone ](db: &sled::Db) -> sled::Db;

/// Relies on `sled::Tree::insert` (through `Db`'s deref): stores the
/// value under the key; only sled's own failures come back.
#[verifier::external_body]
fn sled_insert(db: &sled::Db, key: &String, value: &String) -> (r: Result<(), KvsError>)
    ensures
        r matches Err(e) ==> e matches KvsError::Sled(_),
{
    match db.insert(key.as_str(), value.as_bytes()) {
        Ok(_) => Ok(()),
        Err(e) => Err(KvsError::Sled(e.to_string())),
    }
}

/// Relies on `sled::Tree::get`: returns the stored bytes, if any, here
/// decoded back to a string; fails with sled's failure or `Utf8` when the
/// stored bytes are not UTF-8.
#[verifier::external_body]
fn sled_get(db: &sled::Db, key: &String) -> (r: Result<Option<String>, KvsError>)
    ensures
        r matches Err(e) ==> e matches KvsError::Sled(_) || e matches KvsError::Utf8(_),
{
    match db.get(key.as_str()) {
        Ok(Some(ivec)) => match String::from_utf8(ivec.as_ref().to_vec()) {
            Ok(s) => Ok(Some(s)),
            Err(e) => Err(KvsError::Utf8(e.to_string())),
        },
        Ok(None) => Ok(None),
        Err(e) => Err(KvsError::Sled(e.to_string())),
    }
}

/// Relies on `sled::Tree::remove`: unmaps the key, telling whether a
/// value had been there; only sled's own failures come back.
#[verifier::external_body]
fn sled_remove(db: &sled::Db, key: &String) -> (r: Result<Option<()>, KvsError>)
    ensures
        r matches Err(e) ==> e matches KvsError::Sled(_),
{
    match db.remove(key.as_str()) {
        Ok(Some(_)) => Ok(Some(())),
        Ok(None) => Ok(None),
        Err(e) => Err(KvsError::Sled(e.to_string())),
    }
}

/// Relies on `sled::Tree::flush`: makes earlier writes durable; only
/// sled's own failures come back.
#[verifier::external_body]
fn sled_flush(db: &sled::Db) -> (r: Result<(), KvsError>)
    ensures
        r matches Err(e) ==> e matches KvsError::Sled(_),
{
    match db.flush() {
        Ok(_) => Ok(()),
        Err(e) => Err(KvsError::Sled(e.to_string())),
    }
}

/// Wrapper of `sled::Db`: an alternative engine backed by the sled
/// embedded database, used for benchmarking comparison.
#[derive(Clone)]
pub struct SledKvsEngine {
    db: sled::Db,
}

impl SledKvsEngine {
    /// Creates a `SledKvsEngine` from `sled::Db`.
    pub fn new(db: sled::Db) -> (r: SledKvsEngine) {
        SledKvsEngine { db }
    }
}

impl KvsEngine for SledKvsEngine {
    open spec fn inv(&self) -> bool {
        true
    }

    /// Stores the pair and flushes sled durably before returning.
    fn set(&mut self, key: String, value: String) -> (r: Result<(), KvsError>)
        ensures
            r matches Err(e) ==> e matches KvsError::Sled(_),
    {
        match sled_insert(&self.db, &key, &value) {
            Ok(_) => sled_flush(&self.db),
            Err(e) => Err(e),
        }
    }

    /// Reads through sled; absence is `Ok(None)`, not an error.
    fn get(&mut self, key: String) -> (r: Result<Option<String>, KvsError>)
        ensures
            r matches Err(e) ==> e matches KvsError::Sled(_) || e matches KvsError::Utf8(_),
    {
        sled_get(&self.db, &key)
    }

    /// Removing an absent key answers `KeyNotFound`; a removed value is
    /// flushed durably before returning.
    fn remove(&mut self, key: String) -> (r: Result<(), KvsError>)
        ensures
            r matches Err(e) ==> e matches KvsError::KeyNotFound || e matches KvsError::Sled(_),
    {
        match sled_remove(&self.db, &key) {
            Ok(Some(_)) => sled_flush(&self.db),
            Ok(None) => Err(KvsError::KeyNotFound),
            Err(e) => Err(e),
        }
    }
}

} // verus!
