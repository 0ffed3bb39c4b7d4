//! Pluggable storage engines: the trait a key-value engine offers, and the
//! alternative engine backed by an outside embedded database.

use vstd::prelude::*;

use crate::KvsError;

pub mod sled;

verus! {

/// A pluggable key-value engine: the three store operations over byte keys
/// and values, specified against the engine's abstract contents.
pub trait KvsEngine {
    /// The key-to-value mapping the engine currently holds.
    spec fn contents(&self) -> Map<Seq<u8>, Seq<u8>>;

    /// Maps `key` to `value`.
    fn set(&mut self, key: &[u8], value: &[u8]) -> (r: Result<(), KvsError>)
        ensures
            r is Ok ==> final(self).contents() == old(self).contents().insert(key@, value@),
    ;

    /// Looks `key` up; absence is `Ok(None)`, not an error.
    fn get(&self, key: &[u8]) -> (r: Result<Option<Vec<u8>>, KvsError>)
        ensures
            r matches Ok(v) ==> match v {
                Some(b) => self.contents().contains_key(key@) && b@ == self.contents()[key@],
                None => !self.contents().contains_key(key@),
            },
    ;

    /// Removes `key`'s mapping; a key without one is an error.
    fn remove(&mut self, key: &[u8]) -> (r: Result<(), KvsError>)
        ensures
            r is Ok ==> old(self).contents().contains_key(key@) && final(self).contents() == old(
                self,
            ).contents().remove(key@),
            (r matches Err(e) && e == KvsError::KeyNotFound) ==> !old(self).contents().contains_key(
                key@,
            ),
    ;
}

} // verus!
