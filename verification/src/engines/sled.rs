//! The alternative embedded engine, backed by the `sled` crate's on-disk
//! tree. The tree's contents are named by [`sled_contents`], every call into
//! the crate goes through a thin trusted wrapper specified over that name,
//! and the engine itself is verified glue around those calls.

use vstd::prelude::*;

use crate::engines::KvsEngine;
use crate::KvsError;

verus! {

#[verifier::external_type_specification]
#[verifier::external_body]
pub struct ExDb(sled::Db);

#[verifier::external_type_specification]
#[verifier::external_body]
pub struct ExSledError(sled::Error);

/// The key-to-value mapping a sled tree holds.
pub uninterp spec fn sled_contents(db: sled::Db) -> Map<Seq<u8>, Seq<u8>>;

/// Relies on sled::open: opens or creates the tree rooted at `path`. What it
/// holds came from disk, so nothing is claimed of the contents.
#[verifier::external_body]
fn sled_open(path: &str) -> (r: Result<sled::Db, sled::Error>) {
    sled::open(path)
}

/// Relies on sled::Tree::insert (reached through `Db`'s deref): maps the key
/// to the value.
#[verifier::external_body]
fn sled_insert(db: &mut sled::Db, key: &[u8], value: &[u8]) -> (r: Result<(), sled::Error>)
    ensures
        r is Ok ==> sled_contents(*final(db)) == sled_contents(*old(db)).insert(key@, value@),
{
    db.insert(key, value).map(|_| ())
}

/// Relies on sled::Tree::get: returns the value the key maps to, or `None`.
#[verifier::external_body]
fn sled_get(db: &sled::Db, key: &[u8]) -> (r: Result<Option<Vec<u8>>, sled::Error>)
    ensures
        r matches Ok(v) ==> match v {
            Some(b) => sled_contents(*db).contains_key(key@) && b@ == sled_contents(*db)[key@],
            None => !sled_contents(*db).contains_key(key@),
        },
{
    db.get(key).map(|o| o.map(|iv| iv.to_vec()))
}

/// Relies on sled::Tree::remove: drops the key's mapping and returns the
/// previous value, `None` where there was none.
#[verifier::external_body]
fn sled_remove(db: &mut sled::Db, key: &[u8]) -> (r: Result<Option<Vec<u8>>, sled::Error>)
    ensures
        r matches Ok(v) ==> sled_contents(*final(db)) == sled_contents(*old(db)).remove(key@) && (v
            is Some <==> sled_contents(*old(db)).contains_key(key@)),
{
    db.remove(key).map(|o| o.map(|iv| iv.to_vec()))
}

/// Relies on sled::Tree::flush: forces pending writes to disk; the contents
/// do not change.
#[verifier::external_body]
fn sled_flush(db: &mut sled::Db) -> (r: Result<usize, sled::Error>)
    ensures
        r is Ok ==> sled_contents(*final(db)) == sled_contents(*old(db)),
{
    db.flush()
}

/// Relies on sled::Error's Debug form to report an error as text.
#[verifier::external_body]
fn sled_error_text(e: &sled::Error) -> (r: String) {
    format!("{:?}", e)
}

/// A store backed by the sled embedded database.
pub struct Sled(pub sled::Db);

impl Sled {
    /// Opens (or creates) a sled tree rooted at `path`. The contents came
    /// from disk, so nothing is known of them until they are read.
    pub fn open(path: &str) -> (r: Result<Sled, KvsError>) {
        match sled_open(path) {
            Ok(db) => Ok(Sled(db)),
            Err(e) => Err(KvsError::Io(sled_error_text(&e))),
        }
    }
}

impl KvsEngine for Sled {
    open spec fn contents(&self) -> Map<Seq<u8>, Seq<u8>> {
        sled_contents(self.0)
    }

    fn set(&mut self, key: &[u8], value: &[u8]) -> (r: Result<(), KvsError>) {
        match sled_insert(&mut self.0, key, value) {
            Ok(u) => Ok(u),
            Err(e) => Err(KvsError::Io(sled_error_text(&e))),
        }
    }

    fn get(&self, key: &[u8]) -> (r: Result<Option<Vec<u8>>, KvsError>) {
        match sled_get(&self.0, key) {
            Ok(v) => Ok(v),
            Err(e) => Err(KvsError::Io(sled_error_text(&e))),
        }
    }

    fn remove(&mut self, key: &[u8]) -> (r: Result<(), KvsError>) {
        match sled_remove(&mut self.0, key) {
            Ok(Some(_)) => match sled_flush(&mut self.0) {
                Ok(_) => Ok(()),
                Err(e) => Err(KvsError::Io(sled_error_text(&e))),
            },
            Ok(None) => Err(KvsError::KeyNotFound),
            Err(e) => Err(KvsError::Io(sled_error_text(&e))),
        }
    }
}

} // verus!
